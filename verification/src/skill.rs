//! The stamp a generated skill carries: which binary wrote it, and hashes
//! that let any later binary tell a pristine install from an edited one.
//! Reading and writing the files is the caller's; everything decided about
//! their contents is here.
use vstd::prelude::*;
use vstd::string::StringSliceAdditionalSpecFns;
use vstd::utf8::encode_utf8;
use crate::text::{
    chars_of, contains, first_at, has_prefix, has_suffix, hex_char, hex_digit, lemma_first_at_some, lemma_line_end,
    line_at, line_end, next_line, occurs_at, parse_u32, push_all, push_str, read_line, slice,
    starts_with, string_of, trim_end, trim_start, trimmed_end, trimmed_start, unsigned_value,
};

verus! {

// ---------------------------------------------------------------------------
// FNV-1a and its hex form
// ---------------------------------------------------------------------------

/// FNV-1a, 64-bit, over bytes.
pub open spec fn fnv(b: Seq<u8>) -> u64
    decreases b.len(),
{
    if b.len() == 0 {
        0xcbf2_9ce4_8422_2325u64
    } else {
        (fnv(b.drop_last()) ^ (b.last() as u64)).wrapping_mul(0x0000_0100_0000_01b3u64)
    }
}

/// FNV-1a over a string's UTF-8 bytes. Fixed, unlike `DefaultHasher`: a
/// stamp written by one release has to verify under the next.
pub fn fnv1a(s: &str) -> (h: u64)
    ensures
        h == fnv(s.spec_bytes()),
{
    let b = s.as_bytes();
    let mut h: u64 = 0xcbf2_9ce4_8422_2325;
    let mut i: usize = 0;
    while i < b.len()
        invariant
            i <= b@.len(),
            h == fnv(b@.take(i as int)),
        decreases b@.len() - i,
    {
        assert(b@.take(i + 1).drop_last() == b@.take(i as int));
        h = (h ^ (b[i] as u64)).wrapping_mul(0x0000_0100_0000_01b3);
        i += 1;
    }
    assert(b@.take(b@.len() as int) == b@);
    h
}

/// The last `k` hex digits of `h`, most significant first.
pub open spec fn hex_digits(h: nat, k: nat) -> Seq<char>
    decreases k,
{
    if k == 0 {
        Seq::empty()
    } else {
        hex_digits(h / 16, (k - 1) as nat).push(hex_digit((h % 16) as u32))
    }
}

/// `h` as sixteen lowercase hex digits (`{:016x}`).
pub open spec fn hex16(h: u64) -> Seq<char> {
    hex_digits(h as nat, 16)
}

fn push_hex(out: &mut Vec<char>, h: u64, k: u32)
    ensures
        final(out)@ == old(out)@ + hex_digits(h as nat, k as nat),
    decreases k,
{
    if k > 0 {
        push_hex(out, h / 16, k - 1);
        let c = hex_char((h % 16) as u32);
        out.push(c);
        assert(final(out)@ =~= old(out)@ + hex_digits(h as nat, k as nat));
    }
}

/// Sixteen lowercase hex digits.
pub fn hex(h: u64) -> (r: String)
    ensures
        r@ == hex16(h),
{
    let mut out: Vec<char> = Vec::new();
    push_hex(&mut out, h, 16);
    string_of(out.as_slice())
}

// ---------------------------------------------------------------------------
// Writing the stamp
// ---------------------------------------------------------------------------

/// The machine-readable line of the stamp.
pub open spec fn stamp_line_of(version: Seq<char>, hash: Seq<char>, card: Seq<char>) -> Seq<char> {
    "<!-- mirzam-skill version=\""@ + version + "\" hash=\""@ + hash + "\" card=\""@ + card
        + "\" -->"@
}

/// The stamp line; its shape may never change, or older stamps stop
/// verifying.
pub fn stamp_line(version: &str, hash: &str, card: &str) -> (r: String)
    ensures
        r@ == stamp_line_of(version@, hash@, card@),
{
    let mut out: Vec<char> = Vec::new();
    push_str(&mut out, "<!-- mirzam-skill version=\"");
    push_str(&mut out, version);
    push_str(&mut out, "\" hash=\"");
    push_str(&mut out, hash);
    push_str(&mut out, "\" card=\"");
    push_str(&mut out, card);
    push_str(&mut out, "\" -->");
    string_of(out.as_slice())
}

/// The skill body and the sentence that says, for a person, which binary
/// wrote it.
pub open spec fn stamp_head(version: Seq<char>, body: Seq<char>) -> Seq<char> {
    trim_end(body) + sentence_opening() + version + sentence_closing()
}

/// The sentence up to the version.
pub open spec fn sentence_opening() -> Seq<char> {
    "\n\n## This skill's version\n\nWritten by **mirzam "@
}

/// The sentence after the version.
pub open spec fn sentence_closing() -> Seq<char> {
    "**, which embedded the syntax card beside it. It is generated: do not edit it. After upgrading the binary run `mirzam skill install` again - and if you forget, `mirzam check` and `mirzam build` say so, because they compare this stamp with their own version.\n\n"@
}


/// A skill as a binary of `version` writes it, with `card` beside it: the
/// body, the sentence, then the stamp line whose hash covers the whole file
/// with that hash left blank.
pub open spec fn stamped_of(version: Seq<char>, body: Seq<char>, card: Seq<char>) -> Seq<char> {
    let card_hash = hex16(fnv(encode_utf8(card)));
    let head = stamp_head(version, body);
    let blank = head + stamp_line_of(version, Seq::empty(), card_hash) + "\n"@;
    head + stamp_line_of(version, hex16(fnv(encode_utf8(blank))), card_hash) + "\n"@
}

/// Stamps `body` as the binary of `version` would, with `card` the syntax
/// card installed beside it.
pub fn stamped_by(version: &str, body: &str, card: &str) -> (r: String)
    ensures
        r@ == stamped_of(version@, body@, card@),
{
    let card_hash = hex(fnv1a(card));
    let mut head: Vec<char> = trimmed_end(&chars_of(body));
    push_str(&mut head, "\n\n## This skill's version\n\nWritten by **mirzam ");
    push_str(&mut head, version);
    push_str(
        &mut head,
        "**, which embedded the syntax card beside it. It is generated: do not edit it. After upgrading the binary run `mirzam skill install` again - and if you forget, `mirzam check` and `mirzam build` say so, because they compare this stamp with their own version.\n\n",
    );
    let mut blank = head.clone();
    let blank_line = stamp_line(version, "", card_hash.as_str());
    push_str(&mut blank, blank_line.as_str());
    push_str(&mut blank, "\n");
    proof {
        reveal_strlit("");
    }
    let blank_text = string_of(blank.as_slice());
    let hash = hex(fnv1a(blank_text.as_str()));
    assert(card_hash@ == hex16(fnv(encode_utf8(card@))));
    assert(head@ == stamp_head(version@, body@));
    assert(blank_text@ == head@ + stamp_line_of(version@, Seq::empty(), card_hash@) + "\n"@);
    assert(hash@ == hex16(fnv(encode_utf8(blank_text@))));
    let mut out = head;
    let line = stamp_line(version, hash.as_str(), card_hash.as_str());
    push_str(&mut out, line.as_str());
    push_str(&mut out, "\n");
    string_of(out.as_slice())
}

// ---------------------------------------------------------------------------
// Reading the stamp
// ---------------------------------------------------------------------------

/// What the stamp line starts with, once its indentation is set aside.
pub open spec fn stamp_marker() -> Seq<char> {
    "<!-- mirzam-skill "@
}

/// The first line at or after `from` that is a stamp line.
pub open spec fn stamp_line_from(s: Seq<char>, from: int) -> Option<Seq<char>>
    decreases s.len() + 1 - from,
{
    if 0 <= from < s.len() {
        let l = line_at(s, from)->0;
        if has_prefix(trim_start(l), stamp_marker()) {
            Some(l)
        } else if from < next_line(s, from) <= s.len() + 1 {
            stamp_line_from(s, next_line(s, from))
        } else {
            None
        }
    } else {
        None
    }
}

/// `key="value"` out of a stamp line: the text between the quotes.
pub open spec fn attr_of(line: Seq<char>, key: Seq<char>) -> Option<Seq<char>> {
    match first_at(line, key + "=\""@, 0) {
        None => None,
        Some(p) => {
            let at = p + key.len() + 2;
            match first_at(line, "\""@, at) {
                None => None,
                Some(e) => Some(line.subrange(at, e)),
            }
        },
    }
}

/// A stamp as read: version, hash, card hash, and the line it came from.
pub open spec fn stamp_of(text: Seq<char>) -> Option<(Seq<char>, Seq<char>, Seq<char>, Seq<char>)> {
    match stamp_line_from(text, 0) {
        None => None,
        Some(l) => match attr_of(l, "version"@) {
            None => None,
            Some(v) => match attr_of(l, "hash"@) {
                None => None,
                Some(h) => Some(
                    (
                        v,
                        h,
                        match attr_of(l, "card"@) {
                            Some(c) => c,
                            None => Seq::empty(),
                        },
                        l,
                    ),
                ),
            },
        },
    }
}

/// The stamp of a generated skill.
pub struct Stamp {
    pub version: String,
    pub hash: String,
    pub card: String,
    /// The stamp line exactly as it appeared, so it can be blanked again.
    pub line: String,
}

/// `key="value"` out of the stamp line.
pub fn attr(line: &str, key: &str) -> (r: Option<String>)
    ensures
        match r {
            Some(v) => attr_of(line@, key@) == Some(v@),
            None => attr_of(line@, key@) is None,
        },
{
    let l = chars_of(line);
    let ll = l.len();
    let kc = chars_of(key);
    let mut needle = kc.clone();
    push_str(&mut needle, "=\"");
    proof {
        reveal_strlit("=\"");
        reveal_strlit("\"");
    }
    let p = match crate::text::find_from(&l, &needle, 0) {
        Some(p) => p,
        None => return None,
    };
    proof {
        lemma_first_at_some(l@, needle@, 0);
    }
    let at = p + kc.len() + 2;
    let quote = chars_of("\"");
    let e = match crate::text::find_from(&l, &quote, at) {
        Some(e) => e,
        None => return None,
    };
    proof {
        lemma_first_at_some(l@, quote@, at as int);
    }
    Some(string_of(slice(&l, at, e).as_slice()))
}

/// Reads the stamp out of a `SKILL.md`: `None` when no line of it is a
/// stamp line carrying a version and a hash — a hand-written skill, or one
/// from before stamps.
pub fn parse_stamp(text: &str) -> (r: Option<Stamp>)
    ensures
        match r {
            Some(s) => stamp_of(text@) == Some((s.version@, s.hash@, s.card@, s.line@)),
            None => stamp_of(text@) is None,
        },
{
    let cs = chars_of(text);
    let marker = chars_of("<!-- mirzam-skill ");
    let mut from: usize = 0;
    let mut found: Option<Vec<char>> = None;
    loop
        invariant
            from <= cs@.len(),
            cs@ == text@,
            marker@ == stamp_marker(),
            stamp_line_from(cs@, 0) == stamp_line_from(cs@, from as int),
        ensures
            match found {
                Some(l) => stamp_line_from(cs@, 0) == Some(l@),
                None => stamp_line_from(cs@, 0) is None,
            },
        decreases cs@.len() - from,
    {
        if from >= cs.len() {
            found = None;
            break;
        }
        let (line, end) = read_line(&cs, from);
        if starts_with(&trimmed_start(&line), &marker) {
            found = Some(line);
            break;
        }
        proof {
            lemma_line_end(cs@, from as int);
        }
        if end >= cs.len() {
            assert(stamp_line_from(cs@, next_line(cs@, from as int)) is None);
            found = None;
            break;
        }
        from = end + 1;
    }
    let l = match found {
        Some(l) => string_of(l.as_slice()),
        None => return None,
    };
    let version = match attr(l.as_str(), "version") {
        Some(v) => v,
        None => return None,
    };
    let hash = match attr(l.as_str(), "hash") {
        Some(h) => h,
        None => return None,
    };
    let card = match attr(l.as_str(), "card") {
        Some(c) => c,
        None => String::new(),
    };
    Some(Stamp { version, hash, card, line: l })
}

// ---------------------------------------------------------------------------
// Verifying the stamp
// ---------------------------------------------------------------------------

/// `s` from `i` on with every occurrence of `p` replaced by `t`, left to
/// right (`str::replace`, for a pattern that is not empty).
pub open spec fn replaced_from(s: Seq<char>, p: Seq<char>, t: Seq<char>, i: int) -> Seq<char>
    decreases s.len() - i,
{
    if 0 <= i <= s.len() {
        match first_at(s, p, i) {
            None => s.skip(i),
            Some(k) => if i <= k && p.len() > 0 && k + p.len() <= s.len() {
                s.subrange(i, k) + t + replaced_from(s, p, t, k + p.len())
            } else {
                s.skip(i)
            },
        }
    } else {
        Seq::empty()
    }
}

/// `s` with its first occurrence of `p` replaced by `t` (`str::replacen`
/// with a count of one).
pub open spec fn replaced_once(s: Seq<char>, p: Seq<char>, t: Seq<char>) -> Seq<char> {
    match first_at(s, p, 0) {
        None => s,
        Some(k) => s.take(k) + t + s.skip(k + p.len()),
    }
}

/// Whether `text` is exactly what a pristine install of some version wrote:
/// with the recorded hash blanked back out of its stamp line, the file hashes
/// to that hash.
pub open spec fn stamp_matches(hash: Seq<char>, line: Seq<char>, text: Seq<char>) -> bool {
    let blanked_line = replaced_from(line, "hash=\""@ + hash + "\""@, "hash=\"\""@, 0);
    let blanked = replaced_once(text, line, blanked_line);
    hex16(fnv(encode_utf8(blanked))) == hash
}

fn replace_all(s: &Vec<char>, p: &Vec<char>, t: &Vec<char>) -> (r: Vec<char>)
    requires
        p@.len() > 0,
    ensures
        r@ == replaced_from(s@, p@, t@, 0),
{
    let n = s.len();
    let mut out: Vec<char> = Vec::new();
    let mut i: usize = 0;
    loop
        invariant
            i <= n == s@.len(),
            p@.len() > 0,
            out@ + replaced_from(s@, p@, t@, i as int) == replaced_from(s@, p@, t@, 0),
        decreases n - i,
    {
        match crate::text::find_from(s, p, i) {
            None => {
                let rest = slice(s, i, n);
                push_all(&mut out, &rest);
                assert(out@ =~= replaced_from(s@, p@, t@, 0));
                return out;
            },
            Some(k) => {
                proof {
                    lemma_first_at_some(s@, p@, i as int);
                }
                let before = slice(s, i, k);
                push_all(&mut out, &before);
                push_all(&mut out, t);
                assert(out@ + replaced_from(s@, p@, t@, (k + p@.len()) as int) =~= replaced_from(
                    s@,
                    p@,
                    t@,
                    0,
                ));
                i = k + p.len();
            },
        }
    }
}

fn replace_once(s: &Vec<char>, p: &Vec<char>, t: &Vec<char>) -> (r: Vec<char>)
    ensures
        r@ == replaced_once(s@, p@, t@),
{
    match crate::text::find_from(s, p, 0) {
        None => s.clone(),
        Some(k) => {
            proof {
                lemma_first_at_some(s@, p@, 0);
            }
            let mut out = slice(s, 0, k);
            push_all(&mut out, t);
            let rest = slice(s, k + p.len(), s.len());
            push_all(&mut out, &rest);
            out
        },
    }
}

impl Stamp {
    /// Whether `text` is exactly what a pristine install of some version
    /// would have produced.
    pub fn matches(&self, text: &str) -> (r: bool)
        ensures
            r == stamp_matches(self.hash@, self.line@, text@),
    {
        let mut pattern = chars_of("hash=\"");
        push_str(&mut pattern, self.hash.as_str());
        push_str(&mut pattern, "\"");
        proof {
            reveal_strlit("hash=\"");
        }
        let blank_attr = chars_of("hash=\"\"");
        let line = chars_of(self.line.as_str());
        let blanked_line = replace_all(&line, &pattern, &blank_attr);
        let blanked = replace_once(&chars_of(text), &line, &blanked_line);
        let blanked_text = string_of(blanked.as_slice());
        let h = hex(fnv1a(blanked_text.as_str()));
        let hc = chars_of(h.as_str());
        let own = chars_of(self.hash.as_str());
        crate::text::same(&hc, &own)
    }
}

// ---------------------------------------------------------------------------
// Versions
// ---------------------------------------------------------------------------

/// `major.minor.patch`, each a `u32`; nothing else (no pre-release suffix).
pub open spec fn semver_of(v: Seq<char>) -> Option<(u32, u32, u32)> {
    match first_at(v, "."@, 0) {
        None => None,
        Some(a) => match first_at(v, "."@, a + 1) {
            None => None,
            Some(b) => if first_at(v, "."@, b + 1) is Some {
                None
            } else {
                match (
                    unsigned_value(v.take(a), u32::MAX as int),
                    unsigned_value(v.subrange(a + 1, b), u32::MAX as int),
                    unsigned_value(v.skip(b + 1), u32::MAX as int),
                ) {
                    (Some(x), Some(y), Some(z)) => Some((x as u32, y as u32, z as u32)),
                    _ => None,
                }
            },
        },
    }
}

/// A version as three numbers, for comparing by number rather than text.
pub fn semver(v: &str) -> (r: Option<(u32, u32, u32)>)
    ensures
        r == semver_of(v@),
{
    let cs = chars_of(v);
    let dot = chars_of(".");
    proof {
        reveal_strlit(".");
    }
    let a = match crate::text::find_from(&cs, &dot, 0) {
        Some(a) => a,
        None => return None,
    };
    proof {
        lemma_first_at_some(cs@, dot@, 0);
    }
    let b = match crate::text::find_from(&cs, &dot, a + 1) {
        Some(b) => b,
        None => return None,
    };
    proof {
        lemma_first_at_some(cs@, dot@, a + 1);
    }
    if crate::text::find_from(&cs, &dot, b + 1).is_some() {
        return None;
    }
    let major = match parse_u32(&slice(&cs, 0, a)) {
        Some(x) => x,
        None => return None,
    };
    let minor = match parse_u32(&slice(&cs, a + 1, b)) {
        Some(x) => x,
        None => return None,
    };
    let patch = match parse_u32(&slice(&cs, b + 1, cs.len())) {
        Some(x) => x,
        None => return None,
    };
    Some((major, minor, patch))
}

/// `a` comes before `b`, comparing the numbers in order.
pub open spec fn older(a: (u32, u32, u32), b: (u32, u32, u32)) -> bool {
    a.0 < b.0 || (a.0 == b.0 && (a.1 < b.1 || (a.1 == b.1 && a.2 < b.2)))
}

/// A version's place in release order as one number: the major version
/// counts for more than any minor, the minor for more than any patch.
pub open spec fn release_rank(v: (u32, u32, u32)) -> int {
    v.0 * 0x1_0000_0000_0000_0000 + v.1 * 0x1_0000_0000 + v.2
}

/// One version is older than another exactly when it comes first in
/// release order: by major, then minor, then patch, a patch alone
/// deciding when the rest agree.
pub proof fn lemma_older_is_release_order(a: (u32, u32, u32), b: (u32, u32, u32))
    ensures
        older(a, b) <==> release_rank(a) < release_rank(b),
        a.0 == b.0 && a.1 == b.1 ==> (older(a, b) <==> a.2 < b.2),
        !(older(a, b) && older(b, a)),
        a != b ==> older(a, b) || older(b, a),
{
    let (a0, a1, a2) = (a.0 as int, a.1 as int, a.2 as int);
    let (b0, b1, b2) = (b.0 as int, b.1 as int, b.2 as int);
    assert(0 <= a1 * 0x1_0000_0000 + a2 < 0x1_0000_0000_0000_0000) by (nonlinear_arith)
        requires
            0 <= a1 < 0x1_0000_0000,
            0 <= a2 < 0x1_0000_0000,
    ;
    assert(0 <= b1 * 0x1_0000_0000 + b2 < 0x1_0000_0000_0000_0000) by (nonlinear_arith)
        requires
            0 <= b1 < 0x1_0000_0000,
            0 <= b2 < 0x1_0000_0000,
    ;
    assert(a0 < b0 ==> a0 * 0x1_0000_0000_0000_0000 + 0x1_0000_0000_0000_0000 <= b0 * 0x1_0000_0000_0000_0000)
        by (nonlinear_arith);
    assert(b0 < a0 ==> b0 * 0x1_0000_0000_0000_0000 + 0x1_0000_0000_0000_0000 <= a0 * 0x1_0000_0000_0000_0000)
        by (nonlinear_arith);
    assert(a1 < b1 ==> a1 * 0x1_0000_0000 + 0x1_0000_0000 <= b1 * 0x1_0000_0000) by (nonlinear_arith);
    assert(b1 < a1 ==> b1 * 0x1_0000_0000 + 0x1_0000_0000 <= a1 * 0x1_0000_0000) by (nonlinear_arith);
}

/// For two versions that read, the card is the stale side exactly when its
/// version comes first in release order.
pub proof fn lemma_stale_card_is_the_earlier(found: Seq<char>, ours: Seq<char>)
    requires
        semver_of(found) is Some,
        semver_of(ours) is Some,
    ensures
        card_is_stale(found, ours) <==> release_rank(semver_of(found)->0) < release_rank(
            semver_of(ours)->0,
        ),
{
    lemma_older_is_release_order(semver_of(found)->0, semver_of(ours)->0);
}

/// Whether the card, not the binary, is the stale side: its version is the
/// older one, or either version cannot be read (rewriting the card is the
/// cheap, reversible repair).
pub open spec fn card_is_stale(found: Seq<char>, ours: Seq<char>) -> bool {
    match (semver_of(found), semver_of(ours)) {
        (Some(f), Some(o)) => older(f, o),
        _ => true,
    }
}

pub open spec fn drift_message(card: Seq<char>, found: Seq<char>, ours: Seq<char>) -> Seq<char> {
    if card_is_stale(found, ours) {
        "skill card "@ + card + " was written by mirzam "@ + found + ", but this binary is "@
            + ours + " - run `mirzam skill install` to update it"@
    } else {
        "skill card "@ + card + " was written by mirzam "@ + found + ", and this binary is only "@
            + ours + " - this binary is older than the skill card; upgrade the binary"@
    }
}

/// The warning for a skill card at `card` written by mirzam `found`, read by
/// a binary of version `ours`: nothing when the two agree, otherwise which
/// side to repair.
pub fn drift_warning(card: &str, found: &str, ours: &str) -> (r: Option<String>)
    ensures
        found@ == ours@ <==> r is None,
        r matches Some(w) ==> w@ == drift_message(card@, found@, ours@),
{
    let f = chars_of(found);
    let o = chars_of(ours);
    if crate::text::same(&f, &o) {
        return None;
    }
    let stale = match (semver(found), semver(ours)) {
        (Some(x), Some(y)) => x.0 < y.0 || (x.0 == y.0 && (x.1 < y.1 || (x.1 == y.1 && x.2 < y.2))),
        _ => true,
    };
    let mut out: Vec<char> = Vec::new();
    push_str(&mut out, "skill card ");
    push_str(&mut out, card);
    push_str(&mut out, " was written by mirzam ");
    push_str(&mut out, found);
    if stale {
        push_str(&mut out, ", but this binary is ");
        push_str(&mut out, ours);
        push_str(&mut out, " - run `mirzam skill install` to update it");
    } else {
        push_str(&mut out, ", and this binary is only ");
        push_str(&mut out, ours);
        push_str(&mut out, " - this binary is older than the skill card; upgrade the binary");
    }
    Some(string_of(out.as_slice()))
}

// ---------------------------------------------------------------------------
// Edits
// ---------------------------------------------------------------------------

/// Which installed file somebody has edited.
#[derive(Debug, Clone, Copy, PartialEq, Eq, Structural)]
pub enum Edited {
    Skill,
    Card,
}

pub open spec fn edited_of(skill: Option<Seq<char>>, card: Option<Seq<char>>) -> Option<Edited> {
    match skill {
        None => None,
        Some(text) => match stamp_of(text) {
            None => Some(Edited::Skill),
            Some((_, hash, card_hash, line)) => if !stamp_matches(hash, line, text) {
                Some(Edited::Skill)
            } else {
                match card {
                    Some(c) => if hex16(fnv(encode_utf8(c))) != card_hash {
                        Some(Edited::Card)
                    } else {
                        None
                    },
                    None => None,
                }
            },
        },
    }
}

/// Which of the two installed files, if either, has been edited since it was
/// installed, given what each holds (`None` for a file that is not there).
/// A file that is not there is not an edit; a `SKILL.md` without a stamp, or
/// whose stamp does not match it, is; so is a card whose hash is not the one
/// the stamp recorded.
pub fn edited_file(skill: Option<&str>, card: Option<&str>) -> (r: Option<Edited>)
    ensures
        r == edited_of(
            match skill {
                Some(s) => Some(s@),
                None => None,
            },
            match card {
                Some(c) => Some(c@),
                None => None,
            },
        ),
{
    let text = match skill {
        Some(t) => t,
        None => return None,
    };
    let stamp = match parse_stamp(text) {
        None => return Some(Edited::Skill),
        Some(s) => s,
    };
    if !stamp.matches(text) {
        return Some(Edited::Skill);
    }
    match card {
        Some(c) => {
            let h = hex(fnv1a(c));
            if crate::text::same(&chars_of(h.as_str()), &chars_of(stamp.card.as_str())) {
                None
            } else {
                Some(Edited::Card)
            }
        },
        None => None,
    }
}

// ---------------------------------------------------------------------------
// Installing
// ---------------------------------------------------------------------------

/// Default name for `--zip` with no path.
pub const ZIP_NAME: &'static str = "mirzam-writing-skill.zip";

/// Where `skill install` writes.
#[derive(Debug, Clone, Copy, PartialEq, Eq, Structural)]
pub enum Destination {
    /// The skill folder of the repository the working directory is in,
    /// loaded for that project alone.
    Project,
    /// The skill folder in the home directory, loaded in every directory.
    User,
}

/// What an install wrote, so the caller can say it.
pub struct Installed {
    pub skill: String,
    pub card: String,
}

/// `name` inside the folder `root`, as a path joins a relative name.
pub open spec fn joined(root: Seq<char>, name: Seq<char>) -> Seq<char> {
    if root.len() == 0 {
        name
    } else if root.last() == '/' {
        root + name
    } else {
        root + "/"@ + name
    }
}

/// `name` inside the folder `root`.
pub fn join_path(root: &str, name: &str) -> (r: String)
    ensures
        r@ == joined(root@, name@),
{
    let mut out = chars_of(root);
    let n = out.len();
    if n > 0 && out[n - 1] != '/' {
        out.push('/');
        proof {
            reveal_strlit("/");
        }
    }
    push_str(&mut out, name);
    proof {
        if n > 0 && root@.last() != '/' {
            assert(out@ =~= root@ + "/"@ + name@);
        }
    }
    string_of(out.as_slice())
}

/// Why an install refuses to overwrite an edited file.
pub open spec fn edited_message(file: Seq<char>, root: Seq<char>) -> Seq<char> {
    file + " has been edited since it was installed.\n       `mirzam skill install --force` overwrites it (your edits are lost); deleting "@
        + root + " first does the same thing more visibly."@
}

pub open spec fn opt_view(s: Option<&str>) -> Option<Seq<char>> {
    match s {
        Some(t) => Some(t@),
        None => None,
    }
}

/// `skill install` once the skill folder `root` is known and what its two
/// files hold has been read (`None` for a file that is not there or cannot
/// be read): what to write, or why not.
///
/// Without `force`, a `SKILL.md` or card edited since it was installed is
/// refused, since an edited skill is somebody's work; an unmodified older
/// version is replaced without a word. On success the result names the two
/// files and gives what `SKILL.md` is to hold, `template` stamped by
/// `version` beside `card`; the card file is to hold `card` itself.
pub fn install(
    root: &str,
    force: bool,
    existing_skill: Option<&str>,
    existing_card: Option<&str>,
    template: &str,
    card: &str,
    version: &str,
) -> (r: Result<(Installed, String), String>)
    ensures
        r is Err <==> !force && edited_of(opt_view(existing_skill), opt_view(existing_card))
            is Some,
        r matches Err(e) ==> e@ == edited_message(
            joined(
                root@,
                if edited_of(opt_view(existing_skill), opt_view(existing_card)) == Some(
                    Edited::Skill,
                ) {
                    "SKILL.md"@
                } else {
                    "references/llms.md"@
                },
            ),
            root@,
        ),
        r matches Ok((i, contents)) ==> {
            &&& i.skill@ == joined(root@, "SKILL.md"@)
            &&& i.card@ == joined(root@, "references/llms.md"@)
            &&& contents@ == stamped_of(version@, template@, card@)
        },
{
    let skill_path = join_path(root, "SKILL.md");
    let card_path = join_path(root, "references/llms.md");
    if !force {
        let edited = edited_file(existing_skill, existing_card);
        assert(opt_view(existing_skill) == match existing_skill {
            Some(s) => Some(s@),
            None => None::<Seq<char>>,
        });
        match edited {
            Some(which) => {
                let path = match which {
                    Edited::Skill => &skill_path,
                    Edited::Card => &card_path,
                };
                let mut msg = chars_of(path.as_str());
                push_str(
                    &mut msg,
                    " has been edited since it was installed.\n       `mirzam skill install --force` overwrites it (your edits are lost); deleting ",
                );
                push_str(&mut msg, root);
                push_str(&mut msg, " first does the same thing more visibly.");
                return Err(string_of(msg.as_slice()));
            },
            None => {},
        }
    }
    let contents = stamped_by(version, template, card);
    Ok((Installed { skill: skill_path, card: card_path }, contents))
}

/// The writing skill's two files, each with its path inside the archive:
/// one folder at the root, `SKILL.md` directly in it.
pub fn writing_skill_files(template: &str, card: &str, version: &str) -> (r: Vec<(String, String)>)
    ensures
        r@.len() == 2,
        r@[0].0@ == "mirzam-writing/SKILL.md"@,
        r@[0].1@ == stamped_of(version@, template@, card@),
        r@[1].0@ == "mirzam-writing/references/llms.md"@,
        r@[1].1@ == card@,
{
    let skill = stamped_by(version, template, card);
    let card_text = string_of(chars_of(card).as_slice());
    let mut out: Vec<(String, String)> = Vec::new();
    out.push((string_of(chars_of("mirzam-writing/SKILL.md").as_slice()), skill));
    out.push((string_of(chars_of("mirzam-writing/references/llms.md").as_slice()), card_text));
    out
}



// ---------------------------------------------------------------------------
// A pristine install reads back as pristine
// ---------------------------------------------------------------------------

/// A version the stamp line can carry and give back: no quote or line
/// break inside it, and no ending that would read as the start of the next
/// attribute.
pub open spec fn stampable_version(v: Seq<char>) -> bool {
    &&& forall|i: int| 0 <= i < v.len() ==> v[i] != '"' && v[i] != '\n'
    &&& !has_suffix(v, "hash="@)
    &&& !has_suffix(v, "card="@)
}

pub open spec fn is_hex_char(c: char) -> bool {
    ('0' <= c && c <= '9') || ('a' <= c && c <= 'f')
}

proof fn lemma_hex_digits_chars(h: nat, k: nat)
    ensures
        hex_digits(h, k).len() == k,
        forall|j: int| 0 <= j < k ==> #[trigger] is_hex_char(hex_digits(h, k)[j]),
    decreases k,
{
    if k > 0 {
        lemma_hex_digits_chars(h / 16, (k - 1) as nat);
        let v = (h % 16) as u32;
        assert(is_hex_char(hex_digit(v)));
        assert forall|j: int| 0 <= j < k implies #[trigger] is_hex_char(hex_digits(h, k)[j]) by {
            if j < k - 1 {
                assert(hex_digits(h, k)[j] == hex_digits(h / 16, (k - 1) as nat)[j]);
            }
        }
    }
}

proof fn lemma_sentence_chars()
    ensures
        sentence_closing().len() > 30,
        sentence_closing()[sentence_closing().len() - 1] == '\n',
        sentence_closing()[sentence_closing().len() - 2] == '\n',
        forall|i: int| 0 <= i < sentence_closing().len() - 2 ==> sentence_closing()[i] != '\n',
        forall|i: int|
            0 <= i < sentence_closing().len() ==> sentence_closing()[i] != '<'
                && sentence_closing()[i] != '"',
        sentence_opening().len() == 47,
        forall|i: int| 0 <= i < 47 ==> sentence_opening()[i] != '<',
        forall|i: int|
            0 <= i < 47 && sentence_opening()[i] == '\n' ==> i == 0 || i == 1 || i == 25 || i
                == 26,
        sentence_opening()[0] == '\n',
        sentence_opening()[1] == '\n',
        sentence_opening()[2] == '#',
        sentence_opening()[26] == '\n',
        sentence_opening()[27] == 'W',
{
    reveal_strlit("**, which embedded the syntax card beside it. It is generated: do not edit it. After upgrading the binary run `mirzam skill install` again - and if you forget, `mirzam check` and `mirzam build` say so, because they compare this stamp with their own version.\n\n");
    reveal_strlit("\n\n## This skill's version\n\nWritten by **mirzam ");
}

proof fn lemma_line_literals()
    ensures
        stamp_marker().len() == 18,
        stamp_marker()[0] == '<',
        forall|j: int| 0 <= j < 18 ==> stamp_marker()[j] != '\n',
        "<!-- mirzam-skill version=\""@.len() == 27,
        "<!-- mirzam-skill version=\""@.subrange(0, 18) == stamp_marker(),
        "<!-- mirzam-skill version=\""@.subrange(18, 27) == "version"@ + "=\""@,
        forall|j: int|
            0 <= j < 27 && "<!-- mirzam-skill version=\""@[j] == '"' ==> j == 26,
        "<!-- mirzam-skill version=\""@[21] == 's',
        "<!-- mirzam-skill version=\""@[22] == 'i',
        "<!-- mirzam-skill version=\""@[23] == 'o',
        "<!-- mirzam-skill version=\""@[24] == 'n',
        "<!-- mirzam-skill version=\""@[25] == '=',
        "\" hash=\""@.len() == 8,
        "\" hash=\""@.subrange(2, 8) == "hash"@ + "=\""@,
        "\" hash=\""@[0] == '"',
        "\" hash=\""@[2] == 'h',
        forall|j: int| 0 <= j < 8 && "\" hash=\""@[j] == '"' ==> j == 0 || j == 7,
        forall|j: int| 0 <= j < 8 && "\" hash=\""@[j] == '=' ==> j == 6,
        forall|j: int| 0 <= j < 8 ==> "\" hash=\""@[j] != '\n',
        "\" card=\""@.len() == 8,
        "\" card=\""@.subrange(2, 8) == "card"@ + "=\""@,
        "\" card=\""@[0] == '"',
        "\" card=\""@[2] == 'c',
        forall|j: int| 0 <= j < 8 && "\" card=\""@[j] == '"' ==> j == 0 || j == 7,
        forall|j: int| 0 <= j < 8 && "\" card=\""@[j] == '=' ==> j == 6,
        forall|j: int| 0 <= j < 8 ==> "\" card=\""@[j] != '\n',
        "\" -->"@.len() == 5,
        "\" -->"@[4] == '>',
        forall|j: int| 0 <= j < 5 ==> "\" -->"@[j] != '=' && "\" -->"@[j] != '\n',
        forall|j: int| 0 <= j < 27 ==> "<!-- mirzam-skill version=\""@[j] != '\n',
        "hash"@ + "=\""@ == "hash="@ + "\""@,
        "card"@ + "=\""@ == "card="@ + "\""@,
        ("hash"@ + "=\""@).len() == 6,
        ("hash="@).len() == 5,
        ("card="@).len() == 5,
        "\""@.len() == 1,
        "\""@[0] == '"',
        ("version"@ + "=\""@).len() == 9,
        "hash=\"\""@ == ("hash"@ + "=\""@) + "\""@,
        "\n"@.len() == 1,
        "\n"@[0] == '\n',
        "version"@.len() == 7,
        "hash"@.len() == 4,
        "card"@.len() == 4,
        "hash="@[0] == 'h',
        "card="@[0] == 'c',
        "<!-- mirzam-skill version=\""@[26] == '"',
        "=\""@.len() == 2,
        "=\""@[0] == '=',
        "=\""@[1] == '"',
        "hash"@[0] == 'h',
        "card"@[0] == 'c',
        "\" -->"@[0] == '"',
        "hash=\""@ == "hash"@ + "=\""@,
{
    reveal_strlit("<!-- mirzam-skill ");
    reveal_strlit("<!-- mirzam-skill version=\"");
    reveal_strlit("version");
    reveal_strlit("=\"");
    reveal_strlit("\" hash=\"");
    reveal_strlit("\" card=\"");
    reveal_strlit("\" -->");
    reveal_strlit("hash");
    reveal_strlit("card");
    reveal_strlit("hash=");
    reveal_strlit("card=");
    reveal_strlit("\"");
    reveal_strlit("hash=\"\"");
    reveal_strlit("\n");
    reveal_strlit("hash=\"");
}


proof fn lemma_first_at_is(hs: Seq<char>, n: Seq<char>, from: int, k: int)
    requires
        0 <= from <= k,
        occurs_at(hs, n, k),
        forall|i: int| from <= i < k ==> !occurs_at(hs, n, i),
    ensures
        first_at(hs, n, from) == Some(k),
    decreases k - from,
{
    if from < k {
        lemma_first_at_is(hs, n, from + 1, k);
    }
}

proof fn lemma_first_at_never(hs: Seq<char>, n: Seq<char>, from: int)
    requires
        0 <= from,
        forall|i: int| from <= i ==> !occurs_at(hs, n, i),
    ensures
        first_at(hs, n, from) is None,
    decreases hs.len() + 1 - from,
{
    if from + n.len() <= hs.len() {
        lemma_first_at_never(hs, n, from + 1);
    }
}

/// Where each piece of a stamp line sits.
proof fn lemma_line_layout(version: Seq<char>, hash: Seq<char>, card: Seq<char>)
    requires
        hash.len() == 16,
        card.len() == 16,
    ensures
        ({
            let line = stamp_line_of(version, hash, card);
            let m = version.len() as int;
            &&& line.len() == 80 + m
            &&& forall|j: int| 0 <= j < 27 ==> line[j] == "<!-- mirzam-skill version=\""@[j]
            &&& forall|j: int| 0 <= j < m ==> line[27 + j] == version[j]
            &&& forall|j: int| 0 <= j < 8 ==> line[27 + m + j] == "\" hash=\""@[j]
            &&& forall|j: int| 0 <= j < 16 ==> line[35 + m + j] == hash[j]
            &&& forall|j: int| 0 <= j < 8 ==> line[51 + m + j] == "\" card=\""@[j]
            &&& forall|j: int| 0 <= j < 16 ==> line[59 + m + j] == card[j]
            &&& forall|j: int| 0 <= j < 5 ==> line[75 + m + j] == "\" -->"@[j]
        }),
{
    lemma_line_literals();
}


/// No `hash="` in a stamp line before the one its writer put there.
proof fn lemma_no_early_hash(version: Seq<char>, hash: Seq<char>, card: Seq<char>)
    requires
        stampable_version(version),
        hash.len() == 16,
        card.len() == 16,
    ensures
        forall|i: int|
            0 <= i < 29 + version.len() ==> !occurs_at(
                stamp_line_of(version, hash, card),
                "hash"@ + "=\""@,
                i,
            ),
{
    lemma_line_literals();
    lemma_line_layout(version, hash, card);
    let line = stamp_line_of(version, hash, card);
    let m = version.len() as int;
    let needle = "hash"@ + "=\""@;
    assert forall|i: int| 0 <= i < 29 + m implies !occurs_at(line, needle, i) by {
        if occurs_at(line, needle, i) {
            assert(line.subrange(i, i + 6)[5] == line[i + 5]);
            assert(line.subrange(i, i + 6)[0] == line[i]);
            assert(line[i + 5] == '"');
            assert(line[i] == 'h');
            if i + 5 < 27 {
                assert(false);
            } else if i + 5 < 27 + m {
                assert(line[i + 5] == version[i + 5 - 27]);
            } else if i + 5 == 27 + m {
                if m >= 5 {
                    assert forall|j: int| 0 <= j < 5 implies version.subrange(m - 5, m)[j]
                        == "hash="@[j] by {
                        assert(line.subrange(i, i + 6)[j] == line[i + j]);
                        assert(line[i + j] == version[m - 5 + j]);
                        assert(needle[j] == "hash="@[j]);
                    }
                    assert(version.subrange(m - 5, m) =~= "hash="@);
                } else {
                    assert(line[i] == "<!-- mirzam-skill version=\""@[i]);
                }
            } else {
                assert(line[i + 5] == "\" hash=\""@[i + 5 - 27 - m]);
            }
        }
    }
}

/// A stamp line gives back each attribute its writer put in it.
proof fn lemma_line_reads_back(version: Seq<char>, hash: Seq<char>, card: Seq<char>)
    requires
        stampable_version(version),
        hash.len() == 16,
        card.len() == 16,
        forall|j: int| 0 <= j < 16 ==> #[trigger] is_hex_char(hash[j]),
        forall|j: int| 0 <= j < 16 ==> #[trigger] is_hex_char(card[j]),
    ensures
        attr_of(stamp_line_of(version, hash, card), "version"@) == Some(version),
        attr_of(stamp_line_of(version, hash, card), "hash"@) == Some(hash),
        attr_of(stamp_line_of(version, hash, card), "card"@) == Some(card),
{
    lemma_line_literals();
    lemma_line_layout(version, hash, card);
    lemma_no_early_hash(version, hash, card);
    let line = stamp_line_of(version, hash, card);
    let m = version.len() as int;
    let quote = "\""@;
    // version
    let vn = "version"@ + "=\""@;
    assert(line.subrange(18, 27) =~= vn) by {
        assert forall|j: int| 0 <= j < 9 implies line.subrange(18, 27)[j] == vn[j] by {
            assert(line[18 + j] == "<!-- mirzam-skill version=\""@[18 + j]);
            assert("<!-- mirzam-skill version=\""@.subrange(18, 27)[j]
                == "<!-- mirzam-skill version=\""@[18 + j]);
        }
    }
    assert forall|i: int| 0 <= i < 18 implies !occurs_at(line, vn, i) by {
        if occurs_at(line, vn, i) {
            assert(line.subrange(i, i + 9)[8] == line[i + 8]);
            assert(line[i + 8] == "<!-- mirzam-skill version=\""@[i + 8]);
        }
    }
    lemma_first_at_is(line, vn, 0, 18);
    assert(line.subrange(27 + m, 28 + m) =~= quote);
    assert forall|i: int| 27 <= i < 27 + m implies !occurs_at(line, quote, i) by {
        if occurs_at(line, quote, i) {
            assert(line.subrange(i, i + 1)[0] == line[i]);
            assert(line[i] == version[i - 27]);
        }
    }
    lemma_first_at_is(line, quote, 27, 27 + m);
    assert(line.subrange(27, 27 + m) =~= version);
    // hash
    let hn = "hash"@ + "=\""@;
    assert(line.subrange(29 + m, 35 + m) =~= hn) by {
        assert forall|j: int| 0 <= j < 6 implies line.subrange(29 + m, 35 + m)[j] == hn[j] by {
            assert(line[29 + m + j] == "\" hash=\""@[2 + j]);
            assert("\" hash=\""@.subrange(2, 8)[j] == "\" hash=\""@[2 + j]);
        }
    }
    lemma_first_at_is(line, hn, 0, 29 + m);
    assert(line.subrange(51 + m, 52 + m) =~= quote);
    assert forall|i: int| 35 + m <= i < 51 + m implies !occurs_at(line, quote, i) by {
        if occurs_at(line, quote, i) {
            assert(line.subrange(i, i + 1)[0] == line[i]);
            assert(line[i] == hash[i - 35 - m]);
            assert(is_hex_char(hash[i - 35 - m]));
        }
    }
    lemma_first_at_is(line, quote, 35 + m, 51 + m);
    assert(line.subrange(35 + m, 51 + m) =~= hash);
    // card
    let cn = "card"@ + "=\""@;
    assert(line.subrange(53 + m, 59 + m) =~= cn) by {
        assert forall|j: int| 0 <= j < 6 implies line.subrange(53 + m, 59 + m)[j] == cn[j] by {
            assert(line[53 + m + j] == "\" card=\""@[2 + j]);
            assert("\" card=\""@.subrange(2, 8)[j] == "\" card=\""@[2 + j]);
        }
    }
    assert forall|i: int| 0 <= i < 53 + m implies !occurs_at(line, cn, i) by {
        if occurs_at(line, cn, i) {
            assert(line.subrange(i, i + 6)[5] == line[i + 5]);
            assert(line.subrange(i, i + 6)[4] == line[i + 4]);
            assert(line.subrange(i, i + 6)[0] == line[i]);
            assert(line[i + 5] == '"');
            assert(line[i + 4] == '=');
            assert(line[i] == 'c');
            if i + 5 < 27 {
                assert(false);
            } else if i + 5 < 27 + m {
                assert(line[i + 5] == version[i + 5 - 27]);
            } else if i + 5 == 27 + m {
                if m >= 5 {
                    assert forall|j: int| 0 <= j < 5 implies version.subrange(m - 5, m)[j]
                        == "card="@[j] by {
                        assert(line.subrange(i, i + 6)[j] == line[i + j]);
                        assert(line[i + j] == version[m - 5 + j]);
                        assert(cn[j] == "card="@[j]);
                    }
                    assert(version.subrange(m - 5, m) =~= "card="@);
                } else {
                    assert(line[i] == "<!-- mirzam-skill version=\""@[i]);
                }
            } else if i + 5 < 35 + m {
                assert(line[i + 5] == "\" hash=\""@[i + 5 - 27 - m]);
                if i + 5 == 34 + m {
                    assert(line[i] == "\" hash=\""@[2]);
                }
            } else if i + 5 < 51 + m {
                assert(line[i + 5] == hash[i + 5 - 35 - m]);
                assert(is_hex_char(hash[i + 5 - 35 - m]));
            } else if i + 5 == 51 + m {
                assert(line[i + 4] == hash[15]);
                assert(is_hex_char(hash[15]));
            } else {
                assert(line[i + 5] == "\" card=\""@[i + 5 - 51 - m]);
            }
        }
    }
    lemma_first_at_is(line, cn, 0, 53 + m);
    assert(line.subrange(75 + m, 76 + m) =~= quote);
    assert forall|i: int| 59 + m <= i < 75 + m implies !occurs_at(line, quote, i) by {
        if occurs_at(line, quote, i) {
            assert(line.subrange(i, i + 1)[0] == line[i]);
            assert(line[i] == card[i - 59 - m]);
            assert(is_hex_char(card[i - 59 - m]));
        }
    }
    lemma_first_at_is(line, quote, 59 + m, 75 + m);
    assert(line.subrange(59 + m, 75 + m) =~= card);
}


proof fn lemma_line_end_within(s: Seq<char>, from: int, k: int)
    requires
        0 <= from <= k < s.len(),
        s[k] == '\n',
    ensures
        from <= line_end(s, from) <= k,
    decreases k - from,
{
    if s[from] != '\n' {
        lemma_line_end_within(s, from + 1, k);
    }
}

proof fn lemma_line_end_exact(s: Seq<char>, from: int, k: int)
    requires
        0 <= from <= k < s.len(),
        s[k] == '\n',
        forall|j: int| from <= j < k ==> s[j] != '\n',
    ensures
        line_end(s, from) == k,
    decreases k - from,
{
    if from < k {
        lemma_line_end_exact(s, from + 1, k);
    }
}

/// A line starts at `f`.
pub open spec fn starts_line(t: Seq<char>, f: int) -> bool {
    f == 0 || t[f - 1] == '\n'
}

/// The line starting at `f` is a stamp line.
pub open spec fn stamp_line_at(t: Seq<char>, f: int) -> bool {
    has_prefix(trim_start(line_at(t, f)->0), stamp_marker())
}

/// Looking for the stamp from a line start before `h` finds what looking
/// from `h` finds, when no line in between is a stamp line.
proof fn lemma_scan_to(t: Seq<char>, from: int, h: int)
    requires
        0 <= from <= h < t.len(),
        h > 0 ==> t[h - 1] == '\n',
        starts_line(t, from),
        forall|f: int| from <= f < h && starts_line(t, f) ==> !stamp_line_at(t, f),
    ensures
        stamp_line_from(t, from) == stamp_line_from(t, h),
    decreases h - from,
{
    if from < h {
        lemma_line_end_within(t, from, h - 1);
        lemma_line_end(t, from);
        let nx = next_line(t, from);
        assert(starts_line(t, nx));
        lemma_scan_to(t, nx, h);
    }
}

/// A line whose first character is neither white space nor `<` is no
/// stamp line.
proof fn lemma_not_stamp_line(t: Seq<char>, f: int)
    requires
        0 <= f < t.len(),
        t[f] == '\n' || (!crate::text::is_ws(t[f]) && t[f] != '<'),
    ensures
        !stamp_line_at(t, f),
{
    lemma_line_literals();
    lemma_line_end(t, f);
    let e = line_end(t, f);
    let raw = t.subrange(f, e);
    let l = line_at(t, f)->0;
    if t[f] == '\n' {
        assert(e == f);
        assert(l.len() == 0);
    } else {
        assert(e > f);
        assert(raw[0] == t[f]);
        if l.len() > 0 {
            assert(l[0] == raw[0]);
            assert(crate::text::lead(l, 0) == 0);
            assert(trim_start(l) =~= l);
            if has_prefix(trim_start(l), stamp_marker()) {
                assert(l.subrange(0, 18)[0] == l[0]);
            }
        }
    }
}

/// A line that starts inside a marker-free stretch and ends by its end is
/// no stamp line.
proof fn lemma_body_line_not_stamp(text: Seq<char>, body: Seq<char>, n: int, f: int)
    requires
        0 <= f < n <= body.len(),
        n < text.len(),
        text[n] == '\n',
        !contains(body, stamp_marker()),
        forall|j: int| 0 <= j < n ==> text[j] == body[j],
    ensures
        !stamp_line_at(text, f),
{
    lemma_line_literals();
    let marker = stamp_marker();
    lemma_line_end_within(text, f, n);
    let e = line_end(text, f);
    if stamp_line_at(text, f) {
        let l = line_at(text, f)->0;
        crate::text::lemma_lead(l, 0);
        let p = crate::text::lead(l, 0);
        assert(forall|k: int| 0 <= k < l.len() ==> l[k] == text[f + k]);
        assert(l.len() <= e - f);
        assert forall|k: int| 0 <= k < 18 implies body.subrange(f + p, f + p + 18)[k]
            == marker[k] by {
            assert(trim_start(l).subrange(0, 18)[k] == trim_start(l)[k]);
            assert(trim_start(l)[k] == l[p + k]);
        }
        assert(body.subrange(f + p, f + p + 18) =~= marker);
        assert(occurs_at(body, marker, f + p));
    }
}

/// No line of a written head is a stamp line.
proof fn lemma_head_has_no_stamp_line(
    text: Seq<char>,
    body: Seq<char>,
    version: Seq<char>,
    n: int,
    h: int,
)
    requires
        0 <= n <= body.len(),
        !contains(body, stamp_marker()),
        forall|i: int| 0 <= i < version.len() ==> version[i] != '\n',
        h == n + 47 + version.len() + sentence_closing().len(),
        h < text.len(),
        forall|j: int| 0 <= j < n ==> text[j] == body[j],
        forall|j: int| 0 <= j < 47 ==> text[n + j] == sentence_opening()[j],
        forall|j: int| 0 <= j < version.len() ==> text[n + 47 + j] == version[j],
        forall|j: int|
            0 <= j < sentence_closing().len() ==> text[n + 47 + version.len() + j]
                == sentence_closing()[j],
    ensures
        forall|f: int| 0 <= f < h && starts_line(text, f) ==> !stamp_line_at(text, f),
{
    lemma_sentence_chars();
    let s1 = sentence_opening();
    let s2 = sentence_closing();
    let m = version.len() as int;
    assert forall|f: int| 0 <= f < h && starts_line(text, f) implies !stamp_line_at(text, f) by {
        if f < n {
            assert(text[n] == s1[0]);
            lemma_body_line_not_stamp(text, body, n, f);
        } else if f == n {
            assert(text[n] == s1[0]);
            lemma_not_stamp_line(text, f);
        } else {
            assert(text[f - 1] == '\n');
            if f - 1 < n + 47 {
                assert(text[f - 1] == s1[f - 1 - n]);
                assert(s1[f - 1 - n] == '\n');
                assert(text[f] == s1[f - n]);
                lemma_not_stamp_line(text, f);
            } else if f - 1 < n + 47 + m {
                assert(text[f - 1] == version[f - 1 - n - 47]);
            } else {
                assert(text[f - 1] == s2[f - 1 - n - 47 - m]);
                assert(f == h - 1);
                assert(text[f] == s2[f - n - 47 - m]);
                lemma_not_stamp_line(text, f);
            }
        }
    }
}

/// A written line occurs nowhere in its head.
proof fn lemma_no_early_line(
    text: Seq<char>,
    body: Seq<char>,
    version: Seq<char>,
    line: Seq<char>,
    n: int,
    h: int,
)
    requires
        0 <= n <= body.len(),
        !contains(body, stamp_marker()),
        forall|i: int| 0 <= i < version.len() ==> version[i] != '"',
        h == n + 47 + version.len() + sentence_closing().len(),
        h <= text.len(),
        line.len() >= 27,
        forall|j: int| 0 <= j < 27 ==> line[j] == "<!-- mirzam-skill version=\""@[j],
        forall|j: int| 0 <= j < n ==> text[j] == body[j],
        text[n] == '\n',
        forall|j: int| 0 <= j < 47 ==> text[n + j] == sentence_opening()[j],
        forall|j: int| 0 <= j < version.len() ==> text[n + 47 + j] == version[j],
        forall|j: int|
            0 <= j < sentence_closing().len() ==> text[n + 47 + version.len() + j]
                == sentence_closing()[j],
    ensures
        forall|k: int| 0 <= k < h ==> !occurs_at(text, line, k),
{
    lemma_line_literals();
    lemma_sentence_chars();
    let marker = stamp_marker();
    let s1 = sentence_opening();
    let s2 = sentence_closing();
    let m = version.len() as int;
    let ll = line.len() as int;
    assert forall|k: int| 0 <= k < h implies !occurs_at(text, line, k) by {
        if occurs_at(text, line, k) {
            assert forall|j: int| 0 <= j < ll implies text[k + j] == line[j] by {
                assert(text.subrange(k, k + ll)[j] == text[k + j]);
            }
            assert(text[k] == line[0]);
            assert(text[k + 26] == line[26]);
            assert(text[k] == '<');
            assert(text[k + 26] == '"');
            if k < n {
                if k + 18 <= n {
                    assert forall|j: int| 0 <= j < 18 implies body.subrange(k, k + 18)[j]
                        == marker[j] by {
                        assert(text[k + j] == line[j]);
                        assert("<!-- mirzam-skill version=\""@.subrange(0, 18)[j]
                            == "<!-- mirzam-skill version=\""@[j]);
                    }
                    assert(body.subrange(k, k + 18) =~= marker);
                    assert(occurs_at(body, marker, k));
                } else {
                    assert(text[k + (n - k)] == line[n - k]);
                }
            } else if k < n + 47 {
                assert(text[k] == s1[k - n]);
            } else if k < n + 47 + m {
                if k + 26 < n + 47 + m {
                    assert(text[k + 26] == version[k + 26 - n - 47]);
                } else {
                    assert(text[k + 26] == s2[k + 26 - n - 47 - m]);
                }
            } else {
                assert(text[k] == s2[k - n - 47 - m]);
            }
        }
    }
}

/// In a skill as written, the first stamp line is the one its writer put at
/// the end, and that line occurs nowhere earlier.
proof fn lemma_stamp_line_found(
    version: Seq<char>,
    body: Seq<char>,
    hash: Seq<char>,
    card: Seq<char>,
)
    requires
        stampable_version(version),
        !contains(body, stamp_marker()),
        hash.len() == 16,
        card.len() == 16,
        forall|j: int| 0 <= j < 16 ==> #[trigger] is_hex_char(hash[j]),
        forall|j: int| 0 <= j < 16 ==> #[trigger] is_hex_char(card[j]),
    ensures
        ({
            let head = stamp_head(version, body);
            let line = stamp_line_of(version, hash, card);
            let text = head + line + "\n"@;
            &&& stamp_line_from(text, 0) == Some(line)
            &&& first_at(text, line, 0) == Some(head.len() as int)
        }),
{
    lemma_line_literals();
    lemma_sentence_chars();
    lemma_line_layout(version, hash, card);
    crate::text::lemma_trail(body, 0, body.len() as int);
    let marker = stamp_marker();
    let s1 = sentence_opening();
    let s2 = sentence_closing();
    let tb = trim_end(body);
    let n = tb.len() as int;
    let m = version.len() as int;
    let head = stamp_head(version, body);
    let line = stamp_line_of(version, hash, card);
    let text = head + line + "\n"@;
    let h = head.len() as int;
    let ll = line.len() as int;
    assert(h == n + 47 + m + s2.len());
    assert(text.len() == h + ll + 1);
    assert(forall|j: int| 0 <= j < n ==> text[j] == body[j]);
    assert(forall|j: int| 0 <= j < 47 ==> text[n + j] == s1[j]);
    assert(forall|j: int| 0 <= j < m ==> text[n + 47 + j] == version[j]);
    assert(forall|j: int| 0 <= j < s2.len() ==> text[n + 47 + m + j] == s2[j]);
    assert(forall|j: int| 0 <= j < ll ==> text[h + j] == line[j]);
    assert(text[h + ll] == '\n');
    assert(text[h - 1] == s2[s2.len() - 1]);
    assert(text[n] == s1[0]);
    lemma_head_has_no_stamp_line(text, body, version, n, h);
    lemma_scan_to(text, 0, h);
    lemma_line_has_no_break(version, hash, card);
    lemma_line_end_exact(text, h, h + ll);
    assert(text.subrange(h, h + ll) =~= line);
    assert(line[ll - 1] == '>');
    assert(crate::text::lead(line, 0) == 0);
    assert(trim_start(line) =~= line);
    assert(line.subrange(0, 18) =~= marker) by {
        assert forall|k: int| 0 <= k < 18 implies line.subrange(0, 18)[k] == marker[k] by {
            assert("<!-- mirzam-skill version=\""@.subrange(0, 18)[k]
                == "<!-- mirzam-skill version=\""@[k]);
        }
    }
    assert(stamp_line_from(text, h) == Some(line));
    assert(occurs_at(text, line, h));
    lemma_no_early_line(text, body, version, line, n, h);
    lemma_first_at_is(text, line, 0, h);
}

/// A stamp line carries no line break of its own.
proof fn lemma_line_has_no_break(version: Seq<char>, hash: Seq<char>, card: Seq<char>)
    requires
        forall|i: int| 0 <= i < version.len() ==> version[i] != '\n',
        hash.len() == 16,
        card.len() == 16,
        forall|j: int| 0 <= j < 16 ==> #[trigger] is_hex_char(hash[j]),
        forall|j: int| 0 <= j < 16 ==> #[trigger] is_hex_char(card[j]),
    ensures
        forall|j: int|
            0 <= j < stamp_line_of(version, hash, card).len() ==> stamp_line_of(
                version,
                hash,
                card,
            )[j] != '\n',
{
    lemma_line_literals();
    lemma_line_layout(version, hash, card);
    let line = stamp_line_of(version, hash, card);
    let m = version.len() as int;
    assert forall|j: int| 0 <= j < line.len() implies line[j] != '\n' by {
        if j < 27 {
        } else if j < 27 + m {
            assert(line[j] == version[j - 27]);
        } else if j < 35 + m {
            assert(line[27 + m + (j - 27 - m)] == "\" hash=\""@[j - 27 - m]);
        } else if j < 51 + m {
            assert(line[35 + m + (j - 35 - m)] == hash[j - 35 - m]);
            assert(is_hex_char(hash[j - 35 - m]));
        } else if j < 59 + m {
            assert(line[51 + m + (j - 51 - m)] == "\" card=\""@[j - 51 - m]);
        } else if j < 75 + m {
            assert(line[59 + m + (j - 59 - m)] == card[j - 59 - m]);
            assert(is_hex_char(card[j - 59 - m]));
        } else {
            assert(line[75 + m + (j - 75 - m)] == "\" -->"@[j - 75 - m]);
        }
    }
}


/// Blanking the hash out of a stamp line gives the line its writer hashed.
proof fn lemma_blanked_line(version: Seq<char>, hash: Seq<char>, card: Seq<char>)
    requires
        stampable_version(version),
        hash.len() == 16,
        card.len() == 16,
        forall|j: int| 0 <= j < 16 ==> #[trigger] is_hex_char(hash[j]),
        forall|j: int| 0 <= j < 16 ==> #[trigger] is_hex_char(card[j]),
    ensures
        replaced_from(
            stamp_line_of(version, hash, card),
            "hash=\""@ + hash + "\""@,
            "hash=\"\""@,
            0,
        ) == stamp_line_of(version, Seq::empty(), card),
{
    lemma_line_literals();
    lemma_line_layout(version, hash, card);
    lemma_no_early_hash(version, hash, card);
    let line = stamp_line_of(version, hash, card);
    let m = version.len() as int;
    let pat = "hash=\""@ + hash + "\""@;
    let t = "hash=\"\""@;
    let needle = "hash"@ + "=\""@;
    assert(pat.len() == 23);
    assert(line.subrange(29 + m, 52 + m) =~= pat) by {
        assert forall|j: int| 0 <= j < 23 implies line.subrange(29 + m, 52 + m)[j] == pat[j] by {
            if j < 6 {
                assert(line[27 + m + (j + 2)] == "\" hash=\""@[j + 2]);
                assert("\" hash=\""@.subrange(2, 8)[j] == "\" hash=\""@[j + 2]);
            } else if j < 22 {
                assert(line[35 + m + (j - 6)] == hash[j - 6]);
            } else {
                assert(line[51 + m + 0] == "\" card=\""@[0]);
            }
        }
    }
    assert forall|i: int| 0 <= i < 29 + m implies !occurs_at(line, pat, i) by {
        if occurs_at(line, pat, i) {
            assert(line.subrange(i, i + 6) =~= needle) by {
                assert forall|j: int| 0 <= j < 6 implies line.subrange(i, i + 6)[j] == needle[j] by {
                    assert(line.subrange(i, i + 23)[j] == line[i + j]);
                    assert(pat[j] == needle[j]);
                }
            }
            assert(occurs_at(line, needle, i));
        }
    }
    lemma_first_at_is(line, pat, 0, 29 + m);
    assert forall|i: int| 52 + m <= i implies !occurs_at(line, pat, i) by {
        if occurs_at(line, pat, i) {
            assert(line.subrange(i, i + 23)[4] == line[i + 4]);
            assert(line.subrange(i, i + 23)[0] == line[i]);
            assert(pat[4] == '=');
            assert(pat[0] == 'h');
            if i + 4 < 59 + m {
                assert(line[51 + m + (i + 4 - 51 - m)] == "\" card=\""@[i + 4 - 51 - m]);
                if i + 4 == 57 + m {
                    assert(line[51 + m + 2] == "\" card=\""@[2]);
                }
            } else if i + 4 < 75 + m {
                assert(line[59 + m + (i + 4 - 59 - m)] == card[i + 4 - 59 - m]);
                assert(is_hex_char(card[i + 4 - 59 - m]));
            } else {
                assert(line[75 + m + (i + 4 - 75 - m)] == "\" -->"@[i + 4 - 75 - m]);
            }
        }
    }
    lemma_first_at_never(line, pat, 52 + m);
    assert(replaced_from(line, pat, t, 52 + m) == line.skip(52 + m));
    assert(replaced_from(line, pat, t, 0) == line.subrange(0, 29 + m) + t + line.skip(52 + m));
    let blank = stamp_line_of(version, Seq::empty(), card);
    assert(line.subrange(0, 29 + m) + t + line.skip(52 + m) =~= blank) by {
        let lhs = line.subrange(0, 29 + m) + t + line.skip(52 + m);
        assert(lhs.len() == blank.len());
        assert forall|j: int| 0 <= j < lhs.len() implies lhs[j] == blank[j] by {
            if j < 27 {
            } else if j < 27 + m {
            } else if j < 29 + m {
                assert(line[27 + m + (j - 27 - m)] == "\" hash=\""@[j - 27 - m]);
            } else if j < 36 + m {
                assert("hash=\"\""@ == ("hash"@ + "=\""@) + "\""@);
                if j < 35 + m {
                    assert(blank[j] == "\" hash=\""@[j - 27 - m]);
                    assert("\" hash=\""@.subrange(2, 8)[j - 29 - m] == "\" hash=\""@[j - 27 - m]);
                } else {
                    assert(blank[j] == "\" card=\""@[0]);
                }
            } else if j < 43 + m {
                assert(line[51 + m + (j - 35 - m)] == "\" card=\""@[j - 35 - m]);
            } else if j < 59 + m {
                assert(line[59 + m + (j - 43 - m)] == card[j - 43 - m]);
            } else {
                assert(line[75 + m + (j - 59 - m)] == "\" -->"@[j - 59 - m]);
            }
        }
    }
}

/// A skill exactly as a binary of `version` writes it, with the card it was
/// written beside, reads back as pristine: its stamp gives back that version
/// and the card's hash, and neither file counts as edited, so a later
/// install replaces it without a word.
pub proof fn lemma_pristine_install_is_not_an_edit(
    version: Seq<char>,
    body: Seq<char>,
    card: Seq<char>,
)
    requires
        stampable_version(version),
        !contains(body, stamp_marker()),
    ensures
        stamp_of(stamped_of(version, body, card)) matches Some((v, _, c, _)) && v == version && c
            == hex16(fnv(encode_utf8(card))),
        edited_of(Some(stamped_of(version, body, card)), Some(card)) is None,
{
    lemma_line_literals();
    let ch = hex16(fnv(encode_utf8(card)));
    let head = stamp_head(version, body);
    let blank_line = stamp_line_of(version, Seq::empty(), ch);
    let blank = head + blank_line + "\n"@;
    let hh = hex16(fnv(encode_utf8(blank)));
    let line = stamp_line_of(version, hh, ch);
    let text = head + line + "\n"@;
    assert(stamped_of(version, body, card) == text);
    lemma_hex_digits_chars(fnv(encode_utf8(card)) as nat, 16);
    lemma_hex_digits_chars(fnv(encode_utf8(blank)) as nat, 16);
    lemma_stamp_line_found(version, body, hh, ch);
    lemma_line_reads_back(version, hh, ch);
    lemma_blanked_line(version, hh, ch);
    let h = head.len() as int;
    assert(text.take(h) =~= head);
    assert(text.skip(h + line.len()) =~= "\n"@);
    assert(replaced_once(text, line, blank_line) =~= blank);
    assert(stamp_matches(hh, line, text));
}

} // verus!
