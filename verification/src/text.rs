//! Characters and runs of characters: the small vocabulary every parser in
//! this crate is written in. A string is read as its sequence of `char`s;
//! positions are character positions.
use vstd::prelude::*;

verus! {

// ---------------------------------------------------------------------------
// Character classes
// ---------------------------------------------------------------------------

/// Unicode `White_Space`, which is what `char::is_whitespace` tests.
pub open spec fn is_ws(c: char) -> bool {
    ||| ('\t' <= c && c <= '\r')
    ||| c == ' '
    ||| c == '\u{85}'
    ||| c == '\u{a0}'
    ||| c == '\u{1680}'
    ||| ('\u{2000}' <= c && c <= '\u{200a}')
    ||| c == '\u{2028}'
    ||| c == '\u{2029}'
    ||| c == '\u{202f}'
    ||| c == '\u{205f}'
    ||| c == '\u{3000}'
}

/// Whether `c` is white space.
pub fn is_space(c: char) -> (b: bool)
    ensures
        b == is_ws(c),
{
    ('\t' <= c && c <= '\r') || c == ' ' || c == '\u{85}' || c == '\u{a0}' || c == '\u{1680}' || (
    '\u{2000}' <= c && c <= '\u{200a}') || c == '\u{2028}' || c == '\u{2029}' || c == '\u{202f}'
        || c == '\u{205f}' || c == '\u{3000}'
}

pub open spec fn is_digit(c: char) -> bool {
    '0' <= c && c <= '9'
}

pub open spec fn is_ascii_alnum(c: char) -> bool {
    ||| is_digit(c)
    ||| ('a' <= c && c <= 'z')
    ||| ('A' <= c && c <= 'Z')
}

/// Whether `c` is an ASCII letter or digit.
pub fn is_ascii_alnum_char(c: char) -> (r: bool)
    ensures
        r == is_ascii_alnum(c),
{
    ('0' <= c && c <= '9') || ('a' <= c && c <= 'z') || ('A' <= c && c <= 'Z')
}

/// The Unicode `Alphabetic`-or-`Numeric` property of a character, as
/// `char::is_alphanumeric` reports it.
pub uninterp spec fn alnum(c: char) -> bool;

/// `char::is_alphanumeric`: for the ASCII range its documentation fixes the
/// answer (letters and digits); beyond it the answer comes from Unicode's
/// tables and is only named here.
#[verifier::external_body]
pub fn is_alnum(c: char) -> (b: bool)
    ensures
        b == alnum(c),
        (c as u32) < 128 ==> (b <==> is_ascii_alnum(c)),
{
    c.is_alphanumeric()
}

/// The full Unicode lowercase mapping of a string, as `str::to_lowercase`
/// computes it.
pub uninterp spec fn lowercase(s: Seq<char>) -> Seq<char>;

/// Whether every character of `s` is ASCII.
pub open spec fn all_ascii(s: Seq<char>) -> bool {
    forall|i: int| 0 <= i < s.len() ==> (#[trigger] s[i] as u32) < 128
}

/// What `str::to_lowercase` gives as far as it is stated: the ASCII
/// lowercase of ASCII text, and the named full mapping of any other.
pub open spec fn lower(s: Seq<char>) -> Seq<char> {
    if all_ascii(s) {
        crate::annot::ascii_lowered(s)
    } else {
        lowercase(s)
    }
}

/// `str::to_lowercase`. Beyond ASCII its result is named, not stated: the
/// mapping is Unicode's and can change a string's length. On ASCII text
/// it is the ASCII lowercase, `A` to `Z` becoming `a` to `z`.
#[verifier::external_body]
pub fn to_lowercase(s: &str) -> (r: String)
    ensures
        r@ == lowercase(s@),
        all_ascii(s@) ==> r@ == crate::annot::ascii_lowered(s@),
{
    s.to_lowercase()
}

// ---------------------------------------------------------------------------
// Strings and character vectors
// ---------------------------------------------------------------------------

/// The characters of a string slice, in order.
pub fn chars_of(s: &str) -> (r: Vec<char>)
    ensures
        r@ == s@,
{
    let mut out: Vec<char> = Vec::new();
    for c in it: s.chars()
        invariant
            out@ == it.seq().take(it.index() as int),
    {
        out.push(c);
    }
    out
}

/// A string holding exactly these characters (`FromIterator<char>`).
#[verifier::external_body]
pub fn string_of(cs: &[char]) -> (r: String)
    ensures
        r@ == cs@,
{
    cs.iter().collect()
}

/// What `String::from_utf8_lossy` makes of a run of bytes.
pub uninterp spec fn utf8_lossy(b: Seq<u8>) -> Seq<char>;

/// `String::from_utf8_lossy`, owned. Its result is named; of it this states
/// only what the documentation fixes for ASCII, which is valid UTF-8 that
/// decodes byte for byte.
#[verifier::external_body]
pub fn from_utf8_lossy(b: &[u8]) -> (r: String)
    ensures
        r@ == utf8_lossy(b@),
        (forall|i: int| 0 <= i < b@.len() ==> #[trigger] b@[i] < 128) ==> r@ == b@.map_values(
            |x: u8| x as char,
        ),
{
    String::from_utf8_lossy(b).into_owned()
}

/// `str::from_utf8`, asked only whether it succeeds: it does exactly when
/// the bytes are well-formed UTF-8.
#[verifier::external_body]
pub fn is_utf8(b: &[u8]) -> (r: bool)
    ensures
        r == vstd::utf8::valid_utf8(b@),
{
    std::str::from_utf8(b).is_ok()
}

/// `String::from_utf8`: the text the bytes encode when they are well-formed
/// UTF-8, and nothing when they are not.
#[verifier::external_body]
pub fn utf8_string(b: Vec<u8>) -> (r: Option<String>)
    ensures
        r is Some <==> vstd::utf8::valid_utf8(b@),
        r matches Some(s) ==> vstd::utf8::encode_utf8(s@) == b@,
{
    String::from_utf8(b).ok()
}

/// The characters of `cs` from `lo` up to `hi`.
pub fn slice(cs: &Vec<char>, lo: usize, hi: usize) -> (r: Vec<char>)
    requires
        lo <= hi <= cs.len(),
    ensures
        r@ == cs@.subrange(lo as int, hi as int),
{
    let mut out: Vec<char> = Vec::new();
    let mut i: usize = lo;
    while i < hi
        invariant
            lo <= i <= hi <= cs.len(),
            out@ == cs@.subrange(lo as int, i as int),
        decreases hi - i,
    {
        out.push(cs[i]);
        i += 1;
    }
    out
}

/// Appends every character of `s` to `out`.
pub fn push_all(out: &mut Vec<char>, s: &Vec<char>)
    ensures
        final(out)@ == old(out)@ + s@,
{
    let mut i: usize = 0;
    while i < s.len()
        invariant
            0 <= i <= s.len(),
            out@ == old(out)@ + s@.subrange(0, i as int),
        decreases s.len() - i,
    {
        out.push(s[i]);
        i += 1;
    }
}

/// Appends the characters of a string slice.
pub fn push_str(out: &mut Vec<char>, s: &str)
    ensures
        final(out)@ == old(out)@ + s@,
{
    let cs = chars_of(s);
    push_all(out, &cs);
}

/// Whether two character vectors are the same.
pub fn same(a: &Vec<char>, b: &Vec<char>) -> (r: bool)
    ensures
        r == (a@ == b@),
{
    if a.len() != b.len() {
        return false;
    }
    let mut i: usize = 0;
    while i < a.len()
        invariant
            a.len() == b.len(),
            0 <= i <= a.len(),
            a@.subrange(0, i as int) == b@.subrange(0, i as int),
        decreases a.len() - i,
    {
        if a[i] != b[i] {
            return false;
        }
        assert(a@.subrange(0, i + 1) == a@.subrange(0, i as int).push(a@[i as int]));
        assert(b@.subrange(0, i + 1) == b@.subrange(0, i as int).push(b@[i as int]));
        i += 1;
    }
    assert(a@ == a@.subrange(0, a.len() as int));
    assert(b@ == b@.subrange(0, b.len() as int));
    true
}

/// Whether a character vector spells out a string slice.
pub fn is(a: &Vec<char>, s: &str) -> (r: bool)
    ensures
        r == (a@ == s@),
{
    let b = chars_of(s);
    same(a, &b)
}

// ---------------------------------------------------------------------------
// Prefixes, suffixes and occurrences
// ---------------------------------------------------------------------------

pub open spec fn has_prefix(s: Seq<char>, p: Seq<char>) -> bool {
    p.len() <= s.len() && s.subrange(0, p.len() as int) == p
}

pub open spec fn has_suffix(s: Seq<char>, p: Seq<char>) -> bool {
    p.len() <= s.len() && s.subrange(s.len() - p.len(), s.len() as int) == p
}

/// `n` occurs in `h` starting at `i`.
pub open spec fn occurs_at(h: Seq<char>, n: Seq<char>, i: int) -> bool {
    0 <= i && i + n.len() <= h.len() && h.subrange(i, i + n.len()) == n
}

/// `n` occurs somewhere in `h`.
pub open spec fn contains(h: Seq<char>, n: Seq<char>) -> bool {
    exists|i: int| occurs_at(h, n, i)
}

/// The first place at or after `from` where `n` occurs in `h`.
pub open spec fn first_at(h: Seq<char>, n: Seq<char>, from: int) -> Option<int>
    decreases h.len() + 1 - from,
{
    if from < 0 || from + n.len() > h.len() {
        None
    } else if occurs_at(h, n, from) {
        Some(from)
    } else {
        first_at(h, n, from + 1)
    }
}

/// The last place where `n` occurs in `h` and ends at or before `end`.
pub open spec fn last_at(h: Seq<char>, n: Seq<char>, start: int) -> Option<int>
    decreases start + 1,
{
    if start < 0 {
        None
    } else if occurs_at(h, n, start) {
        Some(start)
    } else {
        last_at(h, n, start - 1)
    }
}

pub proof fn lemma_first_at_none(h: Seq<char>, n: Seq<char>, from: int)
    requires
        first_at(h, n, from) is None,
        from >= 0,
    ensures
        forall|i: int| i >= from ==> !occurs_at(h, n, i),
    decreases h.len() + 1 - from,
{
    if from + n.len() > h.len() {
    } else {
        lemma_first_at_none(h, n, from + 1);
    }
}

pub proof fn lemma_first_at_some(h: Seq<char>, n: Seq<char>, from: int)
    requires
        from >= 0,
    ensures
        first_at(h, n, from) matches Some(k) ==> from <= k && occurs_at(h, n, k) && forall|
            i: int,
        | from <= i < k ==> !occurs_at(h, n, i),
    decreases h.len() + 1 - from,
{
    if from + n.len() > h.len() {
    } else if occurs_at(h, n, from) {
    } else {
        lemma_first_at_some(h, n, from + 1);
    }
}

/// The first `c` from `from` on stands at `k`.
pub proof fn lemma_first_char(h: Seq<char>, c: char, from: int, k: int)
    requires
        0 <= from <= k < h.len(),
        h[k] == c,
        forall|i: int| from <= i < k ==> h[i] != c,
    ensures
        first_at(h, seq![c], from) == Some(k),
    decreases k - from,
{
    if from < k {
        assert(!occurs_at(h, seq![c], from)) by {
            if occurs_at(h, seq![c], from) {
                assert(h.subrange(from, from + 1)[0] == h[from]);
            }
        }
        lemma_first_char(h, c, from + 1, k);
    } else {
        assert(h.subrange(k, k + 1) =~= seq![c]);
    }
}

/// Where `n` occurs first from `from` on, `first_at` finds it.
pub proof fn lemma_first_at_is(h: Seq<char>, n: Seq<char>, from: int, k: int)
    requires
        0 <= from <= k,
        occurs_at(h, n, k),
        forall|i: int| from <= i < k ==> !occurs_at(h, n, i),
    ensures
        first_at(h, n, from) == Some(k),
    decreases k - from,
{
    if from < k {
        lemma_first_at_is(h, n, from + 1, k);
    }
}

pub proof fn lemma_last_at_in(h: Seq<char>, n: Seq<char>, start: int)
    ensures
        last_at(h, n, start) matches Some(k) ==> 0 <= k <= start && occurs_at(h, n, k),
    decreases start + 1,
{
    if start >= 0 && !occurs_at(h, n, start) {
        lemma_last_at_in(h, n, start - 1);
    }
}

/// Whether `n` occurs in `h` at `i`.
pub fn matches_at(h: &Vec<char>, n: &Vec<char>, i: usize) -> (r: bool)
    ensures
        r == occurs_at(h@, n@, i as int),
{
    if i > h.len() || n.len() > h.len() - i {
        return false;
    }
    let mut j: usize = 0;
    while j < n.len()
        invariant
            i + n.len() <= h.len(),
            0 <= j <= n.len(),
            h@.subrange(i as int, i + j) == n@.subrange(0, j as int),
        decreases n.len() - j,
    {
        if h[i + j] != n[j] {
            assert(h@.subrange(i as int, i + n.len())[j as int] != n@[j as int]);
            return false;
        }
        assert(h@.subrange(i as int, i + j + 1) == h@.subrange(i as int, i + j).push(
            h@[i + j],
        ));
        assert(n@.subrange(0, j + 1) == n@.subrange(0, j as int).push(n@[j as int]));
        j += 1;
    }
    assert(n@.subrange(0, n.len() as int) == n@);
    true
}

/// The first occurrence of `n` in `h` at or after `from`.
pub fn find_from(h: &Vec<char>, n: &Vec<char>, from: usize) -> (r: Option<usize>)
    ensures
        r == (match first_at(h@, n@, from as int) {
            Some(k) => Some(k as usize),
            None => None::<usize>,
        }),
{
    let mut i: usize = from;
    if i > h.len() {
        return None;
    }
    loop
        invariant
            from <= i <= h.len(),
            first_at(h@, n@, from as int) == first_at(h@, n@, i as int),
        decreases h.len() - i,
    {
        if n.len() > h.len() - i {
            return None;
        }
        if matches_at(h, n, i) {
            return Some(i);
        }
        if i == h.len() {
            assert(first_at(h@, n@, i + 1) is None);
            return None;
        }
        i += 1;
    }
}

/// The last occurrence of `n` in `h`.
pub fn rfind(h: &Vec<char>, n: &Vec<char>) -> (r: Option<usize>)
    ensures
        r == (match last_at(h@, n@, h@.len() as int) {
            Some(k) => Some(k as usize),
            None => None::<usize>,
        }),
{
    let mut i: usize = h.len();
    loop
        invariant
            i <= h.len(),
            last_at(h@, n@, h@.len() as int) == last_at(h@, n@, i as int),
        decreases i,
    {
        if matches_at(h, n, i) {
            return Some(i);
        }
        if i == 0 {
            assert(last_at(h@, n@, -1) is None);
            return None;
        }
        i -= 1;
    }
}

/// Whether `n` occurs anywhere in `h` (`str::contains`).
pub fn occurs(h: &Vec<char>, n: &Vec<char>) -> (r: bool)
    ensures
        r == contains(h@, n@),
{
    let r = find_from(h, n, 0);
    proof {
        lemma_first_at_some(h@, n@, 0);
        if r.is_none() {
            lemma_first_at_none(h@, n@, 0);
            assert forall|i: int| !occurs_at(h@, n@, i) by {
                if i < 0 {
                }
            }
        }
    }
    r.is_some()
}

/// Whether `s` starts with `p`.
pub fn starts_with(s: &Vec<char>, p: &Vec<char>) -> (r: bool)
    ensures
        r == has_prefix(s@, p@),
{
    let r = matches_at(s, p, 0);
    proof {
        if r {
            assert(s@.subrange(0, p@.len() as int) == p@);
        }
    }
    r
}

/// Whether `s` ends with `p`.
pub fn ends_with(s: &Vec<char>, p: &Vec<char>) -> (r: bool)
    ensures
        r == has_suffix(s@, p@),
{
    if p.len() > s.len() {
        return false;
    }
    matches_at(s, p, s.len() - p.len())
}

// ---------------------------------------------------------------------------
// White space at the ends
// ---------------------------------------------------------------------------

/// Where the leading white space of `s`, from `i` on, ends.
pub open spec fn lead(s: Seq<char>, i: int) -> int
    decreases s.len() - i,
{
    if 0 <= i < s.len() && is_ws(s[i]) {
        lead(s, i + 1)
    } else {
        i
    }
}

/// Where `s[lo..j]` ends once its trailing white space is gone.
pub open spec fn trail(s: Seq<char>, lo: int, j: int) -> int
    decreases j - lo,
{
    if lo < j && j <= s.len() && is_ws(s[j - 1]) {
        trail(s, lo, j - 1)
    } else {
        j
    }
}

pub open spec fn trim_start(s: Seq<char>) -> Seq<char> {
    s.subrange(lead(s, 0), s.len() as int)
}

pub open spec fn trim_end(s: Seq<char>) -> Seq<char> {
    s.subrange(0, trail(s, 0, s.len() as int))
}

/// `s` without white space at either end (`str::trim`).
pub open spec fn trim(s: Seq<char>) -> Seq<char> {
    s.subrange(lead(s, 0), trail(s, lead(s, 0), s.len() as int))
}

pub proof fn lemma_lead(s: Seq<char>, i: int)
    requires
        0 <= i <= s.len(),
    ensures
        i <= lead(s, i) <= s.len(),
        forall|k: int| i <= k < lead(s, i) ==> is_ws(s[k]),
        lead(s, i) < s.len() ==> !is_ws(s[lead(s, i)]),
    decreases s.len() - i,
{
    if i < s.len() && is_ws(s[i]) {
        lemma_lead(s, i + 1);
    }
}

pub proof fn lemma_trail(s: Seq<char>, lo: int, j: int)
    requires
        0 <= lo <= j <= s.len(),
    ensures
        lo <= trail(s, lo, j) <= j,
        forall|k: int| trail(s, lo, j) <= k < j ==> is_ws(s[k]),
        trail(s, lo, j) > lo ==> !is_ws(s[trail(s, lo, j) - 1]),
    decreases j - lo,
{
    if lo < j && is_ws(s[j - 1]) {
        lemma_trail(s, lo, j - 1);
    }
}

/// Trimming twice trims no more than once.
pub proof fn lemma_trim_twice(s: Seq<char>)
    ensures
        trim(trim(s)) == trim(s),
{
    lemma_lead(s, 0);
    let l = lead(s, 0);
    lemma_trail(s, l, s.len() as int);
    let t = trim(s);
    lemma_lead(t, 0);
    if t.len() > 0 {
        assert(t[0] == s[l]);
        assert(lead(t, 0) == 0);
        lemma_trail(t, 0, t.len() as int);
        assert(t[t.len() - 1] == s[trail(s, l, s.len() as int) - 1]);
        assert(trail(t, 0, t.len() as int) == t.len());
    }
    assert(trim(t) =~= t);
}

/// The index where leading white space ends.
pub fn lead_end(cs: &Vec<char>, from: usize) -> (r: usize)
    requires
        from <= cs.len(),
    ensures
        r == lead(cs@, from as int),
        from <= r <= cs.len(),
{
    let mut i: usize = from;
    while i < cs.len() && is_space(cs[i])
        invariant
            from <= i <= cs.len(),
            lead(cs@, from as int) == lead(cs@, i as int),
        decreases cs.len() - i,
    {
        i += 1;
    }
    i
}

/// The index where `cs[lo..hi]` ends once its trailing white space is gone.
pub fn trail_end(cs: &Vec<char>, lo: usize, hi: usize) -> (r: usize)
    requires
        lo <= hi <= cs.len(),
    ensures
        r == trail(cs@, lo as int, hi as int),
        lo <= r <= hi,
{
    let mut j: usize = hi;
    while j > lo && is_space(cs[j - 1])
        invariant
            lo <= j <= hi <= cs.len(),
            trail(cs@, lo as int, hi as int) == trail(cs@, lo as int, j as int),
        decreases j - lo,
    {
        j -= 1;
    }
    j
}

/// `str::trim` on characters.
pub fn trimmed(cs: &Vec<char>) -> (r: Vec<char>)
    ensures
        r@ == trim(cs@),
{
    let lo = lead_end(cs, 0);
    let hi = trail_end(cs, lo, cs.len());
    slice(cs, lo, hi)
}

/// `str::trim_start` on characters.
pub fn trimmed_start(cs: &Vec<char>) -> (r: Vec<char>)
    ensures
        r@ == trim_start(cs@),
{
    let lo = lead_end(cs, 0);
    slice(cs, lo, cs.len())
}

/// `str::trim_end` on characters.
pub fn trimmed_end(cs: &Vec<char>) -> (r: Vec<char>)
    ensures
        r@ == trim_end(cs@),
{
    let hi = trail_end(cs, 0, cs.len());
    slice(cs, 0, hi)
}

// ---------------------------------------------------------------------------
// Decimal numbers, as `str::parse` reads them for the integer types
// ---------------------------------------------------------------------------

pub open spec fn all_digits(s: Seq<char>) -> bool {
    forall|i: int| 0 <= i < s.len() ==> is_digit(#[trigger] s[i])
}

pub open spec fn digit_value(c: char) -> int {
    (c as int) - ('0' as int)
}

/// The number a run of decimal digits spells.
pub open spec fn digits_value(s: Seq<char>) -> int
    decreases s.len(),
{
    if s.len() == 0 {
        0
    } else {
        digits_value(s.drop_last()) * 10 + digit_value(s.last())
    }
}

/// An unsigned integer no greater than `max`, written in decimal with an
/// optional `+` (what `u16`/`u32`/`u64`'s `FromStr` accepts).
pub open spec fn unsigned_value(s: Seq<char>, max: int) -> Option<int> {
    let body = if s.len() > 0 && s[0] == '+' {
        s.drop_first()
    } else {
        s
    };
    if body.len() > 0 && all_digits(body) && digits_value(body) <= max {
        Some(digits_value(body))
    } else {
        None
    }
}

/// An `i64` written in decimal with an optional sign (`i64`'s `FromStr`).
pub open spec fn signed_value(s: Seq<char>) -> Option<int> {
    if s.len() > 0 && s[0] == '-' {
        let body = s.drop_first();
        if body.len() > 0 && all_digits(body) && digits_value(body) <= 0x8000_0000_0000_0000 {
            Some(-digits_value(body))
        } else {
            None
        }
    } else {
        unsigned_value(s, 0x7fff_ffff_ffff_ffff)
    }
}

pub proof fn lemma_digits_nonneg(s: Seq<char>)
    requires
        all_digits(s),
    ensures
        digits_value(s) >= 0,
    decreases s.len(),
{
    if s.len() > 0 {
        assert(all_digits(s.drop_last()));
        lemma_digits_nonneg(s.drop_last());
    }
}

/// Digits after a longer prefix never spell a smaller number.
pub proof fn lemma_digits_grow(s: Seq<char>, k: int)
    requires
        all_digits(s),
        0 <= k <= s.len(),
    ensures
        digits_value(s.subrange(0, k)) <= digits_value(s),
    decreases s.len() - k,
{
    if k < s.len() {
        lemma_digits_grow(s, k + 1);
        let p = s.subrange(0, k + 1);
        assert(p.drop_last() == s.subrange(0, k));
        assert(all_digits(p.drop_last()));
        lemma_digits_nonneg(p.drop_last());
    } else {
        assert(s.subrange(0, k) == s);
    }
}

/// Reads `cs[from..]` as all digits, to a value no greater than `max`.
fn digits_at_most(cs: &Vec<char>, from: usize, max: u64) -> (r: Option<u64>)
    requires
        from <= cs.len(),
    ensures
        ({
            let body = cs@.subrange(from as int, cs@.len() as int);
            match r {
                Some(v) => body.len() > 0 && all_digits(body) && digits_value(body) == v && v
                    <= max,
                None => !(body.len() > 0 && all_digits(body) && digits_value(body) <= max),
            }
        }),
{
    let ghost body = cs@.subrange(from as int, cs@.len() as int);
    if from == cs.len() {
        return None;
    }
    let mut acc: u64 = 0;
    let mut i: usize = from;
    while i < cs.len()
        invariant
            from <= i <= cs.len(),
            body == cs@.subrange(from as int, cs@.len() as int),
            all_digits(cs@.subrange(from as int, i as int)),
            acc == digits_value(cs@.subrange(from as int, i as int)),
            acc <= max,
        decreases cs.len() - i,
    {
        let c = cs[i];
        if !('0' <= c && c <= '9') {
            assert(body[i - from] == c);
            return None;
        }
        let d = (c as u32 - '0' as u32) as u64;
        let ghost next = cs@.subrange(from as int, i + 1);
        assert(next.drop_last() == cs@.subrange(from as int, i as int));
        assert(all_digits(next));
        assert(digits_value(next) == acc * 10 + d);
        if d > max || acc > (max - d) / 10 {
            proof {
                assert(acc * 10 + d > max) by (nonlinear_arith)
                    requires
                        d > max || acc > (max - d) / 10,
                ;
                if all_digits(body) {
                    assert(body.subrange(0, i + 1 - from) == next);
                    lemma_digits_grow(body, i + 1 - from);
                }
            }
            return None;
        }
        proof {
            assert(acc * 10 + d <= max) by (nonlinear_arith)
                requires
                    acc <= (max - d) / 10,
                    d <= 9,
                    d <= max,
            ;
        }
        acc = acc * 10 + d;
        i += 1;
    }
    assert(cs@.subrange(from as int, i as int) == body);
    Some(acc)
}

/// `str::parse::<u64>()` bounded by `max`: decimal digits after an optional
/// `+`, no greater than `max`.
pub fn parse_unsigned(cs: &Vec<char>, max: u64) -> (r: Option<u64>)
    ensures
        match r {
            Some(v) => unsigned_value(cs@, max as int) == Some(v as int),
            None => unsigned_value(cs@, max as int) is None,
        },
{
    let from: usize = if cs.len() > 0 && cs[0] == '+' {
        1
    } else {
        0
    };
    proof {
        if from == 1 {
            assert(cs@.subrange(1, cs@.len() as int) == cs@.drop_first());
        } else {
            assert(cs@.subrange(0, cs@.len() as int) == cs@);
        }
    }
    digits_at_most(cs, from, max)
}

/// `str::parse::<u32>()`.
pub fn parse_u32(cs: &Vec<char>) -> (r: Option<u32>)
    ensures
        match r {
            Some(v) => unsigned_value(cs@, u32::MAX as int) == Some(v as int),
            None => unsigned_value(cs@, u32::MAX as int) is None,
        },
{
    match parse_unsigned(cs, 0xffff_ffff) {
        Some(v) => Some(v as u32),
        None => None,
    }
}

/// `str::parse::<u16>()`.
pub fn parse_u16(cs: &Vec<char>) -> (r: Option<u16>)
    ensures
        match r {
            Some(v) => unsigned_value(cs@, u16::MAX as int) == Some(v as int),
            None => unsigned_value(cs@, u16::MAX as int) is None,
        },
{
    match parse_unsigned(cs, 0xffff) {
        Some(v) => Some(v as u16),
        None => None,
    }
}

/// `str::parse::<i64>()`.
pub fn parse_i64(cs: &Vec<char>) -> (r: Option<i64>)
    ensures
        match r {
            Some(v) => signed_value(cs@) == Some(v as int),
            None => signed_value(cs@) is None,
        },
{
    if cs.len() > 0 && cs[0] == '-' {
        assert(cs@.subrange(1, cs@.len() as int) == cs@.drop_first());
        match digits_at_most(cs, 1, 0x8000_0000_0000_0000) {
            Some(v) => {
                if v == 0x8000_0000_0000_0000 {
                    Some(i64::MIN)
                } else {
                    Some(-(v as i64))
                }
            },
            None => None,
        }
    } else {
        match parse_unsigned(cs, 0x7fff_ffff_ffff_ffff) {
            Some(v) => Some(v as i64),
            None => None,
        }
    }
}

// ---------------------------------------------------------------------------
// Writing numbers
// ---------------------------------------------------------------------------

/// The decimal digit for `d` (below ten).
pub open spec fn digit_char(d: nat) -> char {
    ((48 + d) as u8) as char
}

/// `n` in decimal, as `Display` writes an unsigned integer.
pub open spec fn decimal(n: nat) -> Seq<char>
    decreases n,
{
    if n < 10 {
        seq![digit_char(n)]
    } else {
        decimal(n / 10).push(digit_char(n % 10))
    }
}

/// Appends `n` in decimal.
pub fn push_decimal(out: &mut Vec<char>, n: u64)
    ensures
        final(out)@ == old(out)@ + decimal(n as nat),
    decreases n,
{
    if n >= 10 {
        push_decimal(out, n / 10);
    }
    let d: u8 = (n % 10) as u8;
    out.push((48u8 + d) as char);
    assert(final(out)@ =~= old(out)@ + decimal(n as nat));
}

// ---------------------------------------------------------------------------
// Hex digits
// ---------------------------------------------------------------------------

/// A lowercase hex digit.
pub open spec fn hex_digit(v: u32) -> char {
    if v < 10 {
        ((v + 48) as u8) as char
    } else {
        ((v - 10 + 97) as u8) as char
    }
}

pub fn hex_char(v: u32) -> (c: char)
    requires
        v < 16,
    ensures
        c == hex_digit(v),
{
    if v < 10 {
        ((v + 48) as u8) as char
    } else {
        ((v - 10 + 97) as u8) as char
    }
}

// ---------------------------------------------------------------------------
// Lines
// ---------------------------------------------------------------------------

/// Where the line starting at `from` ends: at the next `\n`, or the end.
pub open spec fn line_end(s: Seq<char>, from: int) -> int
    decreases s.len() - from,
{
    if 0 <= from < s.len() && s[from] != '\n' {
        line_end(s, from + 1)
    } else {
        from
    }
}

/// The line starting at `from`, without its `\r\n` or `\n` (one line of
/// `str::lines`), when there is one.
pub open spec fn line_at(s: Seq<char>, from: int) -> Option<Seq<char>> {
    if 0 <= from < s.len() {
        let e = line_end(s, from);
        let l = s.subrange(from, e);
        Some(if l.len() > 0 && l.last() == '\r' {
            l.drop_last()
        } else {
            l
        })
    } else {
        None
    }
}

/// The line after the one starting at `from`.
pub open spec fn next_line(s: Seq<char>, from: int) -> int {
    line_end(s, from) + 1
}

pub proof fn lemma_line_end(s: Seq<char>, from: int)
    requires
        0 <= from <= s.len(),
    ensures
        from <= line_end(s, from) <= s.len(),
        line_end(s, from) < s.len() ==> s[line_end(s, from)] == '\n',
    decreases s.len() - from,
{
    if from < s.len() && s[from] != '\n' {
        lemma_line_end(s, from + 1);
    }
}

/// One line from `from`: its text, and where it ends.
pub fn read_line(cs: &Vec<char>, from: usize) -> (r: (Vec<char>, usize))
    requires
        from < cs.len(),
    ensures
        line_at(cs@, from as int) == Some(r.0@),
        r.1 == line_end(cs@, from as int),
        r.1 <= cs.len(),
{
    let mut e = from;
    while e < cs.len() && cs[e] != '\n'
        invariant
            from <= e <= cs.len(),
            line_end(cs@, from as int) == line_end(cs@, e as int),
        decreases cs.len() - e,
    {
        e += 1;
    }
    let line = if e > from && cs[e - 1] == '\r' {
        slice(cs, from, e - 1)
    } else {
        slice(cs, from, e)
    };
    (line, e)
}

// ---------------------------------------------------------------------------
// Joining
// ---------------------------------------------------------------------------

/// The parts with `sep` between each two (`[&str]::join`).
pub open spec fn join(parts: Seq<Seq<char>>, sep: Seq<char>) -> Seq<char>
    decreases parts.len(),
{
    if parts.len() == 0 {
        Seq::empty()
    } else if parts.len() == 1 {
        parts[0]
    } else {
        join(parts.drop_last(), sep) + sep + parts.last()
    }
}

/// Appends the parts with `sep` between each two.
pub fn push_joined(out: &mut Vec<char>, parts: &[&str], sep: &str)
    ensures
        final(out)@ == old(out)@ + join(parts@.map_values(|p: &str| p@), sep@),
{
    let ghost names = parts@.map_values(|p: &str| p@);
    let mut i: usize = 0;
    while i < parts.len()
        invariant
            i <= parts@.len(),
            names == parts@.map_values(|p: &str| p@),
            out@ == old(out)@ + join(names.take(i as int), sep@),
        decreases parts@.len() - i,
    {
        assert(names.take(i + 1).drop_last() == names.take(i as int));
        if i > 0 {
            push_str(out, sep);
        }
        push_str(out, parts[i]);
        i += 1;
    }
    assert(names.take(parts@.len() as int) == names);
}

// ---------------------------------------------------------------------------
// Words
// ---------------------------------------------------------------------------

/// Where the run of non-white-space characters from `i` ends.
pub open spec fn word_end(s: Seq<char>, i: int) -> int
    decreases s.len() - i,
{
    if 0 <= i < s.len() && !is_ws(s[i]) {
        word_end(s, i + 1)
    } else {
        i
    }
}

pub proof fn lemma_word_end(s: Seq<char>, i: int)
    requires
        0 <= i <= s.len(),
    ensures
        i <= word_end(s, i) <= s.len(),
        forall|k: int| i <= k < word_end(s, i) ==> !is_ws(s[k]),
        word_end(s, i) < s.len() ==> is_ws(s[word_end(s, i)]),
    decreases s.len() - i,
{
    if i < s.len() && !is_ws(s[i]) {
        lemma_word_end(s, i + 1);
    }
}

/// The white-space-separated words of `s` from `i` on
/// (`str::split_whitespace`).
pub open spec fn words_from(s: Seq<char>, i: int) -> Seq<Seq<char>>
    decreases s.len() - i,
{
    let a = lead(s, i);
    let b = word_end(s, a);
    if 0 <= i <= a && a < b <= s.len() {
        seq![s.subrange(a, b)] + words_from(s, b)
    } else {
        Seq::empty()
    }
}

pub open spec fn words_of(s: Seq<char>) -> Seq<Seq<char>> {
    words_from(s, 0)
}

/// The white-space-separated words of `cs`.
pub fn words(cs: &Vec<char>) -> (r: Vec<Vec<char>>)
    ensures
        r@.map_values(|w: Vec<char>| w@) == words_of(cs@),
{
    let mut out: Vec<Vec<char>> = Vec::new();
    let mut i: usize = 0;
    loop
        invariant
            i <= cs@.len(),
            out@.map_values(|w: Vec<char>| w@) + words_from(cs@, i as int) == words_of(cs@),
        decreases cs@.len() - i,
    {
        let a = lead_end(cs, i);
        proof {
            lemma_lead(cs@, i as int);
        }
        if a >= cs.len() {
            proof {
                lemma_word_end(cs@, a as int);
            }
            assert(words_from(cs@, i as int) == Seq::<Seq<char>>::empty());
            assert(out@.map_values(|w: Vec<char>| w@) =~= words_of(cs@));
            return out;
        }
        let mut b = a;
        while b < cs.len() && !is_space(cs[b])
            invariant
                a <= b <= cs@.len(),
                word_end(cs@, a as int) == word_end(cs@, b as int),
            decreases cs@.len() - b,
        {
            b += 1;
        }
        proof {
            lemma_lead(cs@, i as int);
        }
        let w = slice(cs, a, b);
        let ghost before = out@.map_values(|w: Vec<char>| w@);
        out.push(w);
        assert(out@.map_values(|w: Vec<char>| w@) =~= before.push(cs@.subrange(a as int, b as int)));
        assert(out@.map_values(|w: Vec<char>| w@) + words_from(cs@, b as int) =~= words_of(cs@));
        i = b;
    }
}

// ---------------------------------------------------------------------------
// UTF-8 lengths
// ---------------------------------------------------------------------------

pub proof fn lemma_encode_concat(a: Seq<char>, b: Seq<char>)
    ensures
        vstd::utf8::encode_utf8(a + b) == vstd::utf8::encode_utf8(a) + vstd::utf8::encode_utf8(b),
    decreases a.len(),
{
    if a.len() > 0 {
        lemma_encode_concat(a.drop_first(), b);
        assert((a + b).drop_first() =~= a.drop_first() + b);
        assert((a + b)[0] == a[0]);
    } else {
        assert(a + b =~= b);
    }
}

/// How many bytes UTF-8 takes for `c` (`char::len_utf8`).
pub fn utf8_width(c: char) -> (n: usize)
    ensures
        n == vstd::utf8::encode_utf8(seq![c]).len(),
        1 <= n <= 4,
{
    let v = c as u32;
    assert(seq![c].drop_first() =~= Seq::<char>::empty());
    assert(vstd::utf8::encode_utf8(seq![c]) == vstd::utf8::encode_scalar(v) + vstd::utf8::encode_utf8(
        Seq::<char>::empty(),
    ));
    assert(!(0xD800 <= v <= 0xDFFF));
    assert(v <= 0x10FFFF);
    if v <= 0x7f {
        1
    } else if v <= 0x7ff {
        2
    } else if v <= 0xffff {
        3
    } else {
        4
    }
}

/// The byte offset of character `k` of `s`: what the characters before it
/// take in UTF-8.
pub open spec fn byte_offset(s: Seq<char>, k: int) -> int {
    vstd::utf8::encode_utf8(s.take(k)).len() as int
}

pub proof fn lemma_byte_offset_step(s: Seq<char>, k: int)
    requires
        0 <= k < s.len(),
    ensures
        byte_offset(s, k + 1) == byte_offset(s, k) + vstd::utf8::encode_utf8(seq![s[k]]).len(),
        byte_offset(s, k + 1) <= vstd::utf8::encode_utf8(s).len(),
{
    assert(s.take(k + 1) =~= s.take(k) + seq![s[k]]);
    lemma_encode_concat(s.take(k), seq![s[k]]);
    assert(s =~= s.take(k + 1) + s.skip(k + 1));
    lemma_encode_concat(s.take(k + 1), s.skip(k + 1));
}

/// Appends `parts` with `sep` between each two.
pub fn push_joined_chars(out: &mut Vec<char>, parts: &Vec<Vec<char>>, sep: &str)
    ensures
        final(out)@ == old(out)@ + join(parts@.map_values(|p: Vec<char>| p@), sep@),
{
    let ghost names = parts@.map_values(|p: Vec<char>| p@);
    let mut i: usize = 0;
    while i < parts.len()
        invariant
            i <= parts@.len(),
            names == parts@.map_values(|p: Vec<char>| p@),
            out@ == old(out)@ + join(names.take(i as int), sep@),
        decreases parts@.len() - i,
    {
        assert(names.take(i + 1).drop_last() == names.take(i as int));
        if i > 0 {
            push_str(out, sep);
        }
        push_all(out, &parts[i]);
        i += 1;
    }
    assert(names.take(parts@.len() as int) == names);
}

/// The byte offset of character `k` of `s`.
pub fn byte_offset_in(s: &str, k: usize) -> (r: usize)
    requires
        k <= s@.len(),
    ensures
        r == byte_offset(s@, k as int),
{
    let cs = chars_of(s);
    let total = s.as_bytes().len();
    let mut at: usize = 0;
    let mut i: usize = 0;
    assert(cs@.take(0) =~= Seq::<char>::empty());
    while i < k
        invariant
            i <= k <= cs@.len(),
            cs@ == s@,
            total == vstd::utf8::encode_utf8(cs@).len(),
            at == byte_offset(cs@, i as int),
        decreases k - i,
    {
        proof {
            lemma_byte_offset_step(cs@, i as int);
        }
        at = at + utf8_width(cs[i]);
        i += 1;
    }
    at
}

// ---------------------------------------------------------------------------
// Splitting on a character
// ---------------------------------------------------------------------------

/// The pieces of `s` between occurrences of `c` (`str::split` on a `char`):
/// one more piece than there are `c`s.
pub open spec fn pieces(s: Seq<char>, c: char) -> Seq<Seq<char>>
    decreases s.len(),
{
    match first_at(s, seq![c], 0) {
        None => seq![s],
        Some(k) => if 0 <= k < s.len() {
            seq![s.take(k)] + pieces(s.skip(k + 1), c)
        } else {
            seq![s]
        },
    }
}

/// `s` split on `c`.
pub fn split_on(s: &Vec<char>, c: char) -> (r: Vec<Vec<char>>)
    ensures
        r@.map_values(|p: Vec<char>| p@) == pieces(s@, c),
    decreases s@.len(),
{
    let sep: Vec<char> = vec![c];
    assert(sep@ =~= seq![c]);
    let sl = s.len();
    match find_from(s, &sep, 0) {
        None => {
            let mut out: Vec<Vec<char>> = Vec::new();
            out.push(s.clone());
            assert(out@.map_values(|p: Vec<char>| p@) =~= seq![s@]);
            out
        },
        Some(k) => {
            proof {
                lemma_first_at_some(s@, sep@, 0);
            }
            let head = slice(s, 0, k);
            let tail = slice(s, k + 1, s.len());
            assert(head@ == s@.take(k as int));
            assert(tail@ == s@.skip(k + 1));
            let mut rest = split_on(&tail, c);
            let mut out: Vec<Vec<char>> = Vec::new();
            out.push(head);
            let ghost first = out@;
            let ghost more = rest@;
            out.append(&mut rest);
            assert(out@ == first + more);
            assert(out@.map_values(|p: Vec<char>| p@) =~= seq![s@.take(k as int)] + more.map_values(
                |p: Vec<char>| p@,
            ));
            out
        },
    }
}

} // verus!
