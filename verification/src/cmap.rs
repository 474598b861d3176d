//! What a PDF font's `/ToUnicode` CMap says: the text each character code
//! stands for, read from its `beginbfchar` and `beginbfrange` sections.
//! Finding the CMap in the font, and the page around it, are the caller's.
use vstd::prelude::*;
use crate::text::{
    chars_of, first_at, from_utf8_lossy, lemma_first_at_some, pieces, slice, split_on, string_of,
    trim, trimmed, utf8_lossy,
};

verus! {

// ---------------------------------------------------------------------------
// Characters and UTF-16
// ---------------------------------------------------------------------------

/// Whether `v` is a Unicode scalar value: a `char`.
pub open spec fn is_scalar(v: int) -> bool {
    0 <= v <= 0x10FFFF && !(0xD800 <= v <= 0xDFFF)
}

/// `char::from_u32`: the character whose scalar value `v` is, or `None`
/// when `v` is a surrogate or past `0x10FFFF`, as its documentation says.
#[verifier::external_body]
fn char_from(v: u32) -> (r: Option<char>)
    ensures
        match r {
            Some(c) => is_scalar(v as int) && c as u32 == v,
            None => !is_scalar(v as int),
        },
{
    char::from_u32(v)
}

/// Big-endian byte pairs as UTF-16 code units; an odd last byte is the high
/// half of a unit whose low half is zero.
pub open spec fn units_of(b: Seq<u8>) -> Seq<u16>
    decreases b.len(),
{
    if b.len() == 0 {
        Seq::empty()
    } else if b.len() == 1 {
        seq![(b[0] as int * 256) as u16]
    } else {
        seq![(b[0] as int * 256 + b[1] as int) as u16] + units_of(b.skip(2))
    }
}

pub open spec fn is_high(u: u16) -> bool {
    0xD800 <= u <= 0xDBFF
}

pub open spec fn is_low(u: u16) -> bool {
    0xDC00 <= u <= 0xDFFF
}

/// UTF-16 decoded as `String::from_utf16_lossy` does: a high surrogate
/// followed by a low one is one character, any other surrogate is U+FFFD,
/// every other unit is the character it is.
pub open spec fn utf16_text(u: Seq<u16>) -> Seq<char>
    decreases u.len(),
{
    if u.len() == 0 {
        Seq::empty()
    } else if is_high(u[0]) && u.len() > 1 && is_low(u[1]) {
        seq![((0x10000 + (u[0] - 0xD800) * 0x400 + (u[1] - 0xDC00)) as u32) as char] + utf16_text(
            u.skip(2),
        )
    } else if 0xD800 <= u[0] <= 0xDFFF {
        seq!['\u{FFFD}'] + utf16_text(u.skip(1))
    } else {
        seq![(u[0] as u32) as char] + utf16_text(u.skip(1))
    }
}

/// The character of a scalar value the caller knows to be one.
fn scalar_char(v: u32) -> (c: char)
    requires
        is_scalar(v as int),
    ensures
        c == v as char,
{
    match char_from(v) {
        Some(c) => {
            proof {
                vstd::utf8::char_u32_cast(c, v);
            }
            c
        },
        None => {
            assert(false);
            ' '
        },
    }
}

/// Big-endian UTF-16 bytes as text (`String::from_utf16_lossy` of their
/// units).
pub fn utf16be(b: &[u8]) -> (r: Vec<char>)
    ensures
        r@ == utf16_text(units_of(b@)),
{
    let mut units: Vec<u16> = Vec::new();
    let mut i: usize = 0;
    let n = b.len();
    assert(b@.skip(0) == b@);
    while i < n
        invariant
            n == b@.len(),
            i <= n,
            units@ + units_of(b@.skip(i as int)) == units_of(b@),
        decreases n - i,
    {
        let hi = b[i] as u16;
        if i + 1 < n {
            let u: u16 = hi * 256 + b[i + 1] as u16;
            assert(b@.skip(i as int).skip(2) == b@.skip(i + 2));
            units.push(u);
            assert(units_of(b@.skip(i as int)) == seq![u] + units_of(b@.skip(i + 2)));
            i += 2;
        } else {
            units.push(hi * 256);
            i += 1;
            assert(b@.skip(i as int).len() == 0);
        }
    }
    assert(b@.skip(n as int).len() == 0);
    let ghost all = units@;
    let mut out: Vec<char> = Vec::new();
    let mut k: usize = 0;
    let m = units.len();
    assert(all.skip(0) == all);
    while k < m
        invariant
            m == units@.len(),
            all == units@,
            k <= m,
            out@ + utf16_text(all.skip(k as int)) == utf16_text(all),
        decreases m - k,
    {
        let u = units[k];
        let ghost rest = all.skip(k as int);
        if 0xD800 <= u && u <= 0xDBFF && k + 1 < m && 0xDC00 <= units[k + 1] && units[k + 1] <= 0xDFFF {
            let v: u32 = 0x10000 + (u as u32 - 0xD800) * 0x400 + (units[k + 1] as u32 - 0xDC00);
            out.push(scalar_char(v));
            assert(rest.skip(2) == all.skip(k + 2));
            k += 2;
        } else if 0xD800 <= u && u <= 0xDFFF {
            out.push('\u{FFFD}');
            assert(rest.skip(1) == all.skip(k + 1));
            k += 1;
        } else {
            out.push(scalar_char(u as u32));
            assert(rest.skip(1) == all.skip(k + 1));
            k += 1;
        }
    }
    assert(all.skip(m as int).len() == 0);
    out
}

// ---------------------------------------------------------------------------
// Hex strings and codes
// ---------------------------------------------------------------------------

pub open spec fn is_hex_digit(c: char) -> bool {
    ('0' <= c && c <= '9') || ('a' <= c && c <= 'f') || ('A' <= c && c <= 'F')
}

pub open spec fn hex_value(c: char) -> int {
    if '0' <= c && c <= '9' {
        c as int - '0' as int
    } else if 'a' <= c && c <= 'f' {
        c as int - 'a' as int + 10
    } else {
        c as int - 'A' as int + 10
    }
}

/// The values of the hex digits in `s`, anything else passed over.
pub open spec fn hex_digits(s: Seq<char>) -> Seq<u8>
    decreases s.len(),
{
    if s.len() == 0 {
        Seq::empty()
    } else if is_hex_digit(s.last()) {
        hex_digits(s.drop_last()).push(hex_value(s.last()) as u8)
    } else {
        hex_digits(s.drop_last())
    }
}

/// Digits two at a time as bytes; an odd last digit is a byte's high half.
pub open spec fn digit_pairs(d: Seq<u8>) -> Seq<u8>
    decreases d.len(),
{
    if d.len() == 0 {
        Seq::empty()
    } else if d.len() == 1 {
        seq![(d[0] * 16) as u8]
    } else {
        seq![(d[0] * 16 + d[1]) as u8] + digit_pairs(d.skip(2))
    }
}

/// The bytes a hex string spells.
pub open spec fn hex_bytes_of(s: Seq<char>) -> Seq<u8> {
    digit_pairs(hex_digits(s))
}

/// The bytes a hex string spells: its hex digits, two to a byte.
pub fn hex_bytes(s: &Vec<char>) -> (r: Vec<u8>)
    ensures
        r@ == hex_bytes_of(s@),
{
    let mut d: Vec<u8> = Vec::new();
    let mut i: usize = 0;
    while i < s.len()
        invariant
            i <= s@.len(),
            d@ == hex_digits(s@.take(i as int)),
            forall|j: int| 0 <= j < d@.len() ==> d@[j] < 16,
        decreases s@.len() - i,
    {
        let c = s[i];
        assert(s@.take(i + 1).drop_last() == s@.take(i as int));
        if '0' <= c && c <= '9' {
            d.push((c as u32 - '0' as u32) as u8);
        } else if 'a' <= c && c <= 'f' {
            d.push((c as u32 - 'a' as u32 + 10) as u8);
        } else if 'A' <= c && c <= 'F' {
            d.push((c as u32 - 'A' as u32 + 10) as u8);
        }
        i += 1;
    }
    assert(s@.take(s@.len() as int) == s@);
    let ghost digits = d@;
    let mut out: Vec<u8> = Vec::new();
    let mut k: usize = 0;
    let m = d.len();
    assert(digits.skip(0) == digits);
    while k < m
        invariant
            m == digits.len(),
            digits == d@,
            forall|j: int| 0 <= j < digits.len() ==> digits[j] < 16,
            k <= m,
            out@ + digit_pairs(digits.skip(k as int)) == digit_pairs(digits),
        decreases m - k,
    {
        let hi = d[k];
        if k + 1 < m {
            let lo = d[k + 1];
            let b: u8 = hi * 16 + lo;
            out.push(b);
            assert(digits.skip(k as int).skip(2) == digits.skip(k + 2));
            k += 2;
        } else {
            out.push(hi * 16);
            k += 1;
        }
    }
    assert(digits.skip(m as int).len() == 0);
    out
}

/// Bytes as one big-endian number, kept to 32 bits as `u32` shifting keeps
/// it.
pub open spec fn code_of(b: Seq<u8>) -> int
    decreases b.len(),
{
    if b.len() == 0 {
        0
    } else {
        (code_of(b.drop_last()) * 256 + b.last()) % 0x1_0000_0000
    }
}

pub fn code_value(b: &Vec<u8>) -> (r: u32)
    ensures
        r == code_of(b@),
{
    let mut acc: u32 = 0;
    let mut i: usize = 0;
    while i < b.len()
        invariant
            i <= b@.len(),
            acc == code_of(b@.take(i as int)),
        decreases b@.len() - i,
    {
        assert(b@.take(i + 1).drop_last() == b@.take(i as int));
        let wide: u64 = (acc as u64) * 256 + b[i] as u64;
        acc = (wide % 0x1_0000_0000) as u32;
        i += 1;
    }
    assert(b@.take(b@.len() as int) == b@);
    acc
}


// ---------------------------------------------------------------------------
// Tokens
// ---------------------------------------------------------------------------

/// What a CMap section is made of, as far as this reads it: `<hex>`
/// strings and `[ <hex> ... ]` lists.
pub enum Token {
    Hex(Vec<u8>),
    List(Vec<Vec<u8>>),
}

pub enum TokenView {
    Hex(Seq<u8>),
    List(Seq<Seq<u8>>),
}

pub open spec fn byte_views(v: Seq<Vec<u8>>) -> Seq<Seq<u8>> {
    v.map_values(|b: Vec<u8>| b@)
}

impl View for Token {
    type V = TokenView;

    open spec fn view(&self) -> TokenView {
        match self {
            Token::Hex(b) => TokenView::Hex(b@),
            Token::List(l) => TokenView::List(byte_views(l@)),
        }
    }
}

pub open spec fn token_views(v: Seq<Token>) -> Seq<TokenView> {
    v.map_values(|t: Token| t@)
}

/// Where the first `c` at or after `i` stands; the length when none does.
pub open spec fn find_char(s: Seq<char>, c: char, i: int) -> int {
    match first_at(s, seq![c], i) {
        Some(k) => k,
        None => s.len() as int,
    }
}

/// The hex strings of a list's inside: each piece after a `<`, up to its
/// `>`, that holds more than white space.
pub open spec fn list_items(parts: Seq<Seq<char>>) -> Seq<Seq<u8>>
    decreases parts.len(),
{
    if parts.len() == 0 {
        Seq::empty()
    } else {
        let p = parts.last();
        let head = p.take(find_char(p, '>', 0));
        if trim(head).len() > 0 {
            list_items(parts.drop_last()).push(hex_bytes_of(head))
        } else {
            list_items(parts.drop_last())
        }
    }
}

/// The tokens of a section from character `i` on.
pub open spec fn tokens_from(s: Seq<char>, i: int) -> Seq<TokenView>
    decreases s.len() - i,
    via tokens_decrease
{
    if i < 0 || i >= s.len() {
        Seq::empty()
    } else if s[i] == '<' {
        let e = find_char(s, '>', i);
        seq![TokenView::Hex(hex_bytes_of(s.subrange(i + 1, e)))] + tokens_from(s, e)
    } else if s[i] == '[' {
        let e = find_char(s, ']', i);
        seq![TokenView::List(list_items(pieces(s.subrange(i + 1, e), '<')))] + tokens_from(s, e)
    } else {
        tokens_from(s, i + 1)
    }
}

proof fn lemma_find_char(s: Seq<char>, c: char, i: int)
    requires
        0 <= i < s.len(),
        s[i] != c,
    ensures
        i < find_char(s, c, i) <= s.len(),
{
    lemma_first_at_some(s, seq![c], i);
    assert(s.subrange(i, i + 1)[0] == s[i]);
    assert(!crate::text::occurs_at(s, seq![c], i));
}

#[via_fn]
proof fn tokens_decrease(s: Seq<char>, i: int) {
    if 0 <= i < s.len() {
        if s[i] == '<' {
            lemma_find_char(s, '>', i);
        } else if s[i] == '[' {
            lemma_find_char(s, ']', i);
        }
    }
}

fn find_char_at(s: &Vec<char>, c: char, i: usize) -> (r: usize)
    requires
        i < s.len(),
        s@[i as int] != c,
    ensures
        r == find_char(s@, c, i as int),
        i < r <= s.len(),
{
    proof {
        lemma_find_char(s@, c, i as int);
    }
    let needle: Vec<char> = vec![c];
    assert(needle@ == seq![c]);
    match crate::text::find_from(s, &needle, i) {
        Some(k) => k,
        None => s.len(),
    }
}

/// The hex strings of a list's inside.
fn list_of(inner: &Vec<char>) -> (r: Vec<Vec<u8>>)
    ensures
        byte_views(r@) == list_items(pieces(inner@, '<')),
{
    let parts = split_on(inner, '<');
    let ghost ps = pieces(inner@, '<');
    assert(parts@.map_values(|p: Vec<char>| p@) == ps);
    let mut out: Vec<Vec<u8>> = Vec::new();
    let mut i: usize = 0;
    while i < parts.len()
        invariant
            i <= parts@.len(),
            parts@.map_values(|p: Vec<char>| p@) == ps,
            byte_views(out@) == list_items(ps.take(i as int)),
        decreases parts@.len() - i,
    {
        let p = &parts[i];
        assert(ps[i as int] == p@);
        assert(ps.take(i + 1).drop_last() == ps.take(i as int));
        assert(ps.take(i + 1).last() == p@);
        let k: usize = if p.len() == 0 {
            0
        } else if p[0] == '>' {
            proof {
                lemma_first_at_some(p@, seq!['>'], 0);
                assert(p@.subrange(0, 1) == seq!['>']);
            }
            0
        } else {
            find_char_at(p, '>', 0)
        };
        proof {
            if p.len() == 0 {
                assert(first_at(p@, seq!['>'], 0) is None);
            }
        }
        let head = slice(p, 0, k);
        assert(head@ == p@.take(k as int));
        if trimmed(&head).len() > 0 {
            let ghost before = byte_views(out@);
            let b = hex_bytes(&head);
            out.push(b);
            assert(byte_views(out@) =~= before.push(hex_bytes_of(head@)));
        }
        i += 1;
    }
    assert(ps.take(parts@.len() as int) == ps);
    out
}

/// The tokens of a CMap section.
pub fn cmap_tokens(s: &Vec<char>) -> (r: Vec<Token>)
    ensures
        token_views(r@) == tokens_from(s@, 0),
{
    let mut out: Vec<Token> = Vec::new();
    let mut i: usize = 0;
    while i < s.len()
        invariant
            i <= s@.len(),
            tokens_from(s@, 0) == token_views(out@) + tokens_from(s@, i as int),
        decreases s@.len() - i,
    {
        let ghost before = token_views(out@);
        if s[i] == '<' {
            let e = find_char_at(s, '>', i);
            let t = Token::Hex(hex_bytes(&slice(s, i + 1, e)));
            out.push(t);
            assert(token_views(out@) =~= before.push(t@));
            assert(before.push(t@) + tokens_from(s@, e as int) =~= before + (seq![t@] + tokens_from(s@, e as int)));
            i = e;
        } else if s[i] == '[' {
            let e = find_char_at(s, ']', i);
            let t = Token::List(list_of(&slice(s, i + 1, e)));
            out.push(t);
            assert(token_views(out@) =~= before.push(t@));
            assert(before.push(t@) + tokens_from(s@, e as int) =~= before + (seq![t@] + tokens_from(s@, e as int)));
            i = e;
        } else {
            i += 1;
        }
    }
    assert(tokens_from(s@, i as int) =~= Seq::<TokenView>::empty());
    assert(token_views(out@) + Seq::<TokenView>::empty() =~= token_views(out@));
    out
}


// ---------------------------------------------------------------------------
// What each code maps to
// ---------------------------------------------------------------------------

/// The text big-endian UTF-16 bytes spell.
pub open spec fn mapped(b: Seq<u8>) -> Seq<char> {
    utf16_text(units_of(b))
}

/// `code + k` as `u32` arithmetic wraps it.
pub open spec fn wrapped(code: int, k: int) -> int {
    (code + k) % 0x1_0000_0000
}

/// `c` moved `k` places along the scalar values, or `c` itself when that
/// lands on no character.
pub open spec fn shifted(c: char, k: int) -> char {
    let v = (c as u32) as int + k;
    if is_scalar(v) {
        (v as u32) as char
    } else {
        c
    }
}

/// Each code from `code + k` up to `hi` with `c` moved as far.
pub open spec fn range_from(code: int, hi: int, c: char, k: int) -> Seq<(int, Seq<char>)>
    decreases hi + 1 - code - k,
{
    if k < 0 || code + k > hi {
        Seq::empty()
    } else {
        seq![(code + k, seq![shifted(c, k)])] + range_from(code, hi, c, k + 1)
    }
}

pub open spec fn min_int(a: int, b: int) -> int {
    if a <= b {
        a
    } else {
        b
    }
}

/// What one `bfchar` entry (two tokens) or `bfrange` entry (three) maps:
/// a code to a string; a range of codes to consecutive characters when the
/// string is one character, else its first code to the whole string; or
/// each code of a range to the string at its place in a list.
pub open spec fn entry_inserts(e: Seq<TokenView>, ranged: bool) -> Seq<(int, Seq<char>)> {
    match e[0] {
        TokenView::Hex(cb) => {
            let code = code_of(cb);
            if !ranged {
                match e[1] {
                    TokenView::Hex(v) => seq![(code, mapped(v))],
                    TokenView::List(_) => Seq::empty(),
                }
            } else {
                match e[1] {
                    TokenView::Hex(lb) => match e[2] {
                        TokenView::Hex(v) => if mapped(v).len() == 1 {
                            range_from(code, min_int(code_of(lb), wrapped(code, 65535)), mapped(v)[0], 0)
                        } else {
                            seq![(code, mapped(v))]
                        },
                        TokenView::List(vs) => Seq::new(
                            vs.len(),
                            |k: int| (wrapped(code, k), mapped(vs[k])),
                        ),
                    },
                    TokenView::List(_) => Seq::empty(),
                }
            }
        },
        TokenView::List(_) => Seq::empty(),
    }
}

/// What the entries of a section map, its tokens taken two (`bfchar`) or
/// three (`bfrange`) at a time from `i` on; a short last entry is dropped.
pub open spec fn inserts_from(t: Seq<TokenView>, i: int, ranged: bool) -> Seq<(int, Seq<char>)>
    decreases t.len() - i,
{
    let step = if ranged {
        3int
    } else {
        2int
    };
    if i < 0 || i + step > t.len() {
        Seq::empty()
    } else {
        entry_inserts(t.subrange(i, i + step), ranged) + inserts_from(t, i + step, ranged)
    }
}

/// The text of each section from `pos` on that opens with `start`, up to
/// its `end` or the end of the text.
pub open spec fn sections_from(t: Seq<char>, start: Seq<char>, end: Seq<char>, pos: int) -> Seq<
    Seq<char>,
>
    decreases t.len() + 1 - pos,
{
    if start.len() == 0 || pos < 0 {
        Seq::empty()
    } else {
        match first_at(t, start, pos) {
            None => Seq::empty(),
            Some(f) => {
                let b = f + start.len();
                let to = match first_at(t, end, b) {
                    Some(k) => k,
                    None => t.len() as int,
                };
                if pos <= f && b <= to <= t.len() {
                    seq![t.subrange(b, to)] + sections_from(t, start, end, to)
                } else {
                    Seq::empty()
                }
            },
        }
    }
}

/// What the sections map, in order.
pub open spec fn section_inserts(secs: Seq<Seq<char>>, ranged: bool) -> Seq<(int, Seq<char>)>
    decreases secs.len(),
{
    if secs.len() == 0 {
        Seq::empty()
    } else {
        section_inserts(secs.drop_last(), ranged) + inserts_from(
            tokens_from(secs.last(), 0),
            0,
            ranged,
        )
    }
}

/// What a CMap's text maps, in the order a map takes them (a later code
/// replaces an earlier one): the `bfchar` sections, then the `bfrange`
/// ones.
pub open spec fn cmap_inserts(t: Seq<char>) -> Seq<(int, Seq<char>)> {
    section_inserts(sections_from(t, "beginbfchar"@, "endbfchar"@, 0), false) + section_inserts(
        sections_from(t, "beginbfrange"@, "endbfrange"@, 0),
        true,
    )
}

pub open spec fn insert_views(v: Seq<(u32, Vec<char>)>) -> Seq<(int, Seq<char>)> {
    v.map_values(|e: (u32, Vec<char>)| (e.0 as int, e.1@))
}

/// Appends each of `extra` to `out`.
fn append_inserts(out: &mut Vec<(u32, Vec<char>)>, extra: Vec<(u32, Vec<char>)>)
    ensures
        insert_views(final(out)@) == insert_views(old(out)@) + insert_views(extra@),
{
    let ghost start = insert_views(out@);
    let ghost ev = insert_views(extra@);
    let mut i: usize = 0;
    while i < extra.len()
        invariant
            i <= extra@.len(),
            ev == insert_views(extra@),
            insert_views(out@) == start + ev.take(i as int),
        decreases extra@.len() - i,
    {
        let ghost before = insert_views(out@);
        let e = (extra[i].0, extra[i].1.clone());
        out.push(e);
        assert(insert_views(out@) =~= before.push(ev[i as int]));
        assert(ev.take(i + 1) =~= ev.take(i as int).push(ev[i as int]));
        i += 1;
    }
    assert(ev.take(extra@.len() as int) =~= ev);
}

/// Each code from `code` up to `hi` with `c` moved as far.
fn range_inserts(code: u32, hi: u32, c: char) -> (r: Vec<(u32, Vec<char>)>)
    requires
        code <= hi ==> hi - code <= 65535,
    ensures
        insert_views(r@) == range_from(code as int, hi as int, c, 0),
{
    let mut out: Vec<(u32, Vec<char>)> = Vec::new();
    if code > hi {
        return out;
    }
    let mut k: u32 = 0;
    loop
        invariant_except_break
            range_from(code as int, hi as int, c, 0) == insert_views(out@) + range_from(
                code as int,
                hi as int,
                c,
                k as int,
            ),
        invariant
            code <= hi,
            hi - code <= 65535,
            code + k <= hi,
        ensures
            range_from(code as int, hi as int, c, 0) == insert_views(out@),
        decreases hi - code - k,
    {
        let cur = code + k;
        let v: u32 = c as u32 + k;
        let ch = match char_from(v) {
            Some(x) => x,
            None => c,
        };
        proof {
            if is_scalar(v as int) {
                vstd::utf8::char_u32_cast(ch, v);
            }
        }
        let mut text: Vec<char> = Vec::new();
        text.push(ch);
        let ghost before = insert_views(out@);
        out.push((cur, text));
        assert(insert_views(out@) =~= before.push((cur as int, seq![shifted(c, k as int)])));
        assert(range_from(code as int, hi as int, c, k as int) =~= seq![(cur as int, seq![shifted(c, k as int)])] + range_from(code as int, hi as int, c, k + 1));
        if cur == hi {
            assert(range_from(code as int, hi as int, c, k + 1) =~= Seq::<(int, Seq<char>)>::empty());
            break;
        }
        k += 1;
    }
    out
}

/// What one entry maps.
fn entry_of(e: &[Token], ranged: bool) -> (r: Vec<(u32, Vec<char>)>)
    requires
        e@.len() == (if ranged {
            3int
        } else {
            2int
        }),
    ensures
        insert_views(r@) == entry_inserts(token_views(e@), ranged),
{
    let ghost tv = token_views(e@);
    assert(tv[0] == e@[0]@);
    assert(tv[1] == e@[1]@);
    let mut out: Vec<(u32, Vec<char>)> = Vec::new();
    let code = match &e[0] {
        Token::Hex(b) => code_value(b),
        Token::List(_) => {
            return out;
        },
    };
    if !ranged {
        match &e[1] {
            Token::Hex(v) => {
                out.push((code, utf16be(v.as_slice())));
                assert(insert_views(out@) =~= seq![(code as int, mapped(v@))]);
            },
            Token::List(_) => {},
        }
        return out;
    }
    assert(tv[2] == e@[2]@);
    let last = match &e[1] {
        Token::Hex(b) => code_value(b),
        Token::List(_) => {
            return out;
        },
    };
    match &e[2] {
        Token::Hex(v) => {
            let base = utf16be(v.as_slice());
            if base.len() == 1 {
                let top: u32 = ((code as u64 + 65535) % 0x1_0000_0000) as u32;
                let hi = if last <= top {
                    last
                } else {
                    top
                };
                range_inserts(code, hi, base[0])
            } else {
                out.push((code, base));
                assert(insert_views(out@) =~= seq![(code as int, mapped(v@))]);
                out
            }
        },
        Token::List(vs) => {
            let ghost want = Seq::new(
                byte_views(vs@).len(),
                |k: int| (wrapped(code as int, k), mapped(byte_views(vs@)[k])),
            );
            let mut i: usize = 0;
            while i < vs.len()
                invariant
                    i <= vs@.len(),
                    want.len() == vs@.len(),
                    want == Seq::new(
                        byte_views(vs@).len(),
                        |k: int| (wrapped(code as int, k), mapped(byte_views(vs@)[k])),
                    ),
                    insert_views(out@) == want.take(i as int),
                decreases vs@.len() - i,
            {
                let k32: u64 = (i as u64) % 0x1_0000_0000;
                let at: u32 = ((code as u64 + k32) % 0x1_0000_0000) as u32;
                proof {
                    vstd::arithmetic::div_mod::lemma_add_mod_noop(code as int, i as int, 0x1_0000_0000);
                    vstd::arithmetic::div_mod::lemma_small_mod(code as nat, 0x1_0000_0000);
                }
                let ghost before = insert_views(out@);
                out.push((at, utf16be(vs[i].as_slice())));
                assert(byte_views(vs@)[i as int] == vs@[i as int]@);
                assert(insert_views(out@) =~= before.push(want[i as int]));
                assert(want.take(i + 1) =~= want.take(i as int).push(want[i as int]));
                i += 1;
            }
            assert(want.take(vs@.len() as int) =~= want);
            out
        },
    }
}

/// What the entries of a section's tokens map.
fn section_of(t: &Vec<Token>, ranged: bool) -> (r: Vec<(u32, Vec<char>)>)
    ensures
        insert_views(r@) == inserts_from(token_views(t@), 0, ranged),
{
    let step: usize = if ranged {
        3
    } else {
        2
    };
    let ghost tv = token_views(t@);
    let mut out: Vec<(u32, Vec<char>)> = Vec::new();
    let mut i: usize = 0;
    while step <= t.len() - i
        invariant
            step == (if ranged {
                3int
            } else {
                2int
            }),
            tv == token_views(t@),
            i <= t@.len(),
            inserts_from(tv, 0, ranged) == insert_views(out@) + inserts_from(tv, i as int, ranged),
        decreases t@.len() - i,
    {
        let e = &t.as_slice()[i..i + step];
        assert(e@ == t@.subrange(i as int, i + step));
        assert(token_views(e@) =~= tv.subrange(i as int, i + step));
        let more = entry_of(e, ranged);
        let ghost before = insert_views(out@);
        append_inserts(&mut out, more);
        assert(insert_views(out@) + inserts_from(tv, i + step, ranged) =~= before + (entry_inserts(
            tv.subrange(i as int, i + step),
            ranged,
        ) + inserts_from(tv, i + step, ranged)));
        i += step;
    }
    assert(inserts_from(tv, i as int, ranged) =~= Seq::<(int, Seq<char>)>::empty());
    assert(insert_views(out@) + Seq::<(int, Seq<char>)>::empty() =~= insert_views(out@));
    out
}


pub open spec fn char_views(v: Seq<Vec<char>>) -> Seq<Seq<char>> {
    v.map_values(|c: Vec<char>| c@)
}

/// The text of each section of `t` that opens with `start`, up to its `end`.
fn sections(t: &Vec<char>, start: &str, end: &str) -> (r: Vec<Vec<char>>)
    requires
        start@.len() > 0,
    ensures
        char_views(r@) == sections_from(t@, start@, end@, 0),
{
    let s = chars_of(start);
    let e = chars_of(end);
    let n = t.len();
    let mut out: Vec<Vec<char>> = Vec::new();
    let mut pos: usize = 0;
    loop
        invariant_except_break
            sections_from(t@, start@, end@, 0) == char_views(out@) + sections_from(
                t@,
                start@,
                end@,
                pos as int,
            ),
        invariant
            s@ == start@,
            e@ == end@,
            start@.len() > 0,
            n == t@.len(),
            pos <= t@.len(),
        ensures
            sections_from(t@, start@, end@, 0) == char_views(out@),
        decreases t@.len() - pos,
    {
        match crate::text::find_from(t, &s, pos) {
            None => {
                assert(sections_from(t@, start@, end@, pos as int) =~= Seq::<Seq<char>>::empty());
                assert(char_views(out@) + Seq::<Seq<char>>::empty() =~= char_views(out@));
                break;
            },
            Some(f) => {
                proof {
                    lemma_first_at_some(t@, s@, pos as int);
                    let k = first_at(t@, s@, pos as int).unwrap();
                    assert(crate::text::occurs_at(t@, s@, k));
                    assert(0 <= k <= n);
                    assert(k == f as int);
                }
                let b = f + s.len();
                let to = match crate::text::find_from(t, &e, b) {
                    Some(k) => {
                        proof {
                            lemma_first_at_some(t@, e@, b as int);
                            let j = first_at(t@, e@, b as int).unwrap();
                            assert(crate::text::occurs_at(t@, e@, j));
                            assert(0 <= j <= n);
                            assert(j == k as int);
                        }
                        k
                    },
                    None => t.len(),
                };
                let piece = slice(t, b, to);
                let ghost before = char_views(out@);
                out.push(piece);
                assert(char_views(out@) =~= before.push(piece@));
                assert(before.push(piece@) + sections_from(t@, start@, end@, to as int) =~= before + (
                seq![piece@] + sections_from(t@, start@, end@, to as int)));
                pos = to;
            },
        }
    }
    out
}

pub open spec fn string_inserts(v: Seq<(u32, String)>) -> Seq<(int, Seq<char>)> {
    v.map_values(|e: (u32, String)| (e.0 as int, e.1@))
}

/// What the sections map.
fn sections_inserts(
    out: &mut Vec<(u32, Vec<char>)>,
    t: &Vec<char>,
    start: &str,
    end: &str,
    ranged: bool,
)
    requires
        start@.len() > 0,
    ensures
        insert_views(final(out)@) == insert_views(old(out)@) + section_inserts(
            sections_from(t@, start@, end@, 0),
            ranged,
        ),
{
    let secs = sections(t, start, end);
    let ghost sv = char_views(secs@);
    let ghost first = insert_views(out@);
    let mut i: usize = 0;
    while i < secs.len()
        invariant
            i <= secs@.len(),
            sv == char_views(secs@),
            insert_views(out@) == first + section_inserts(sv.take(i as int), ranged),
        decreases secs@.len() - i,
    {
        let toks = cmap_tokens(&secs[i]);
        let more = section_of(&toks, ranged);
        let ghost before = insert_views(out@);
        append_inserts(out, more);
        assert(sv.take(i + 1).drop_last() =~= sv.take(i as int));
        assert(sv.take(i + 1).last() == secs@[i as int]@);
        assert(insert_views(out@) =~= first + section_inserts(sv.take(i + 1), ranged));
        i += 1;
    }
    assert(sv.take(secs@.len() as int) =~= sv);
}

/// Reads a `/ToUnicode` CMap: each code with the text it stands for, in
/// the order a map takes them, so that a later entry for a code replaces
/// an earlier one. The bytes are read as UTF-8, invalid sequences replaced.
pub fn to_unicode(cmap: &[u8]) -> (r: Vec<(u32, String)>)
    ensures
        string_inserts(r@) == cmap_inserts(utf8_lossy(cmap@)),
{
    let text = from_utf8_lossy(cmap);
    let t = chars_of(text.as_str());
    proof {
        reveal_strlit("beginbfchar");
        reveal_strlit("beginbfrange");
    }
    let mut all: Vec<(u32, Vec<char>)> = Vec::new();
    assert(insert_views(all@) =~= Seq::<(int, Seq<char>)>::empty());
    sections_inserts(&mut all, &t, "beginbfchar", "endbfchar", false);
    sections_inserts(&mut all, &t, "beginbfrange", "endbfrange", true);
    let ghost iv = insert_views(all@);
    let mut out: Vec<(u32, String)> = Vec::new();
    let mut i: usize = 0;
    while i < all.len()
        invariant
            i <= all@.len(),
            iv == insert_views(all@),
            string_inserts(out@) == iv.take(i as int),
        decreases all@.len() - i,
    {
        let ghost before = string_inserts(out@);
        out.push((all[i].0, string_of(all[i].1.as_slice())));
        assert(string_inserts(out@) =~= before.push(iv[i as int]));
        assert(iv.take(i + 1) =~= iv.take(i as int).push(iv[i as int]));
        i += 1;
    }
    assert(iv.take(all@.len() as int) =~= iv);
    out
}

} // verus!
