//! Reading a `.bib` file.
//!
//! The parser is deliberately forgiving: anything unrecognised is skipped with
//! a warning, anything recognised is kept. Every function here is stated as a
//! walk over the characters from a position, and returns where it stopped.
use vstd::prelude::*;
use crate::strmap::StrMap;
use crate::text::{
    all_ascii, alnum, chars_of, is, is_alnum, is_space, is_ws, lead, lead_end, lower, push_all, push_str,
    slice, string_of, to_lowercase, trim, trimmed, lemma_lead, lemma_trail, trail,
};
use crate::annot::ascii_lowered;
use crate::cite::entry::{Entry, EntryView};


verus! {

/// The character classes the reader takes runs of.
pub enum Class {
    /// An entry type: letters, digits, `_`.
    Word,
    /// A citation key: anything up to `,`, the entry's closing bracket, or a
    /// line break.
    Key(char),
    /// A field name: letters, digits, `_`, `-`, `.`.
    Name,
    /// A bare value token: anything up to `,`, the closing bracket, `#` or
    /// white space.
    Bare(char),
}

pub open spec fn in_class(cl: Class, c: char) -> bool {
    match cl {
        Class::Word => alnum(c) || c == '_',
        Class::Key(close) => c != ',' && c != close && c != '\n',
        Class::Name => alnum(c) || c == '_' || c == '-' || c == '.',
        Class::Bare(close) => c != ',' && c != close && c != '#' && !is_ws(c),
    }
}

fn class_holds(cl: &Class, c: char) -> (b: bool)
    ensures
        b == in_class(*cl, c),
{
    match cl {
        Class::Word => is_alnum(c) || c == '_',
        Class::Key(close) => c != ',' && c != *close && c != '\n',
        Class::Name => is_alnum(c) || c == '_' || c == '-' || c == '.',
        Class::Bare(close) => c != ',' && c != *close && c != '#' && !is_space(c),
    }
}

// ---------------------------------------------------------------------------
// The walks, as specifications
// ---------------------------------------------------------------------------

/// Where the run of `cl` characters starting at `i` ends.
pub open spec fn run_end(cs: Seq<char>, i: int, cl: Class) -> int
    decreases cs.len() - i,
{
    if 0 <= i < cs.len() && in_class(cl, cs[i]) {
        run_end(cs, i + 1, cl)
    } else {
        i
    }
}

/// Just past the end of the current entry, counting braces.
pub open spec fn close_end(cs: Seq<char>, i: int, close: char, depth: nat) -> int
    decreases cs.len() - i,
{
    if !(0 <= i < cs.len()) {
        i
    } else if cs[i] == '{' {
        close_end(cs, i + 1, close, depth + 1)
    } else if cs[i] == '}' && depth > 0 {
        close_end(cs, i + 1, close, (depth - 1) as nat)
    } else if cs[i] == close && depth == 0 {
        i + 1
    } else {
        close_end(cs, i + 1, close, depth)
    }
}

/// The next field boundary: past a top-level `,`, or at the closing bracket.
pub open spec fn separator_end(cs: Seq<char>, i: int, close: char, depth: nat) -> int
    decreases cs.len() - i,
{
    if !(0 <= i < cs.len()) {
        i
    } else if cs[i] == '{' {
        separator_end(cs, i + 1, close, depth + 1)
    } else if cs[i] == '}' && depth > 0 {
        separator_end(cs, i + 1, close, (depth - 1) as nat)
    } else if cs[i] == ',' && depth == 0 {
        i + 1
    } else if cs[i] == close && depth == 0 {
        i
    } else {
        separator_end(cs, i + 1, close, depth)
    }
}

/// A `{braced}` value from just inside its opening brace: its text, and where
/// the reading stopped.
pub open spec fn braced(cs: Seq<char>, i: int, depth: nat, out: Seq<char>) -> (Seq<char>, int)
    decreases cs.len() - i,
{
    if !(0 <= i < cs.len()) {
        (out, i)
    } else if cs[i] == '{' {
        braced(cs, i + 1, depth + 1, out.push('{'))
    } else if cs[i] == '}' {
        if depth <= 1 {
            (out, i + 1)
        } else {
            braced(cs, i + 1, (depth - 1) as nat, out.push('}'))
        }
    } else {
        braced(cs, i + 1, depth, out.push(cs[i]))
    }
}

/// A `"quoted"` value from just inside its opening quote. A `"` inside braces
/// is text.
pub open spec fn quoted(cs: Seq<char>, i: int, depth: nat, out: Seq<char>) -> (Seq<char>, int)
    decreases cs.len() - i,
{
    if !(0 <= i < cs.len()) {
        (out, i)
    } else if cs[i] == '{' {
        quoted(cs, i + 1, depth + 1, out.push('{'))
    } else if cs[i] == '}' {
        quoted(cs, i + 1, if depth > 0 { (depth - 1) as nat } else { 0 }, out.push('}'))
    } else if cs[i] == '"' && depth == 0 {
        (out, i + 1)
    } else {
        quoted(cs, i + 1, depth, out.push(cs[i]))
    }
}

/// One piece of a value at `i`: braced, quoted, a bare token, or nothing.
pub open spec fn piece(cs: Seq<char>, i: int, close: char, out: Seq<char>) -> (Seq<char>, int) {
    if 0 <= i < cs.len() && cs[i] == '{' {
        braced(cs, i + 1, 1, out)
    } else if 0 <= i < cs.len() && cs[i] == '"' {
        quoted(cs, i + 1, 0, out)
    } else if 0 <= i < cs.len() && cs[i] != ',' && cs[i] != close {
        let e = run_end(cs, i, Class::Bare(close));
        (out + cs.subrange(i, e), e)
    } else {
        (out, i)
    }
}

/// A field's value from `i`: pieces joined with `#`, appended to `out`.
pub open spec fn value_from(cs: Seq<char>, i: int, close: char, out: Seq<char>) -> (Seq<char>, int)
    decreases cs.len() - i,
{
    let i1 = lead(cs, i);
    let p = piece(cs, i1, close, out);
    let i3 = lead(cs, p.1);
    if 0 <= i3 < cs.len() && cs[i3] == '#' {
        if i3 + 1 > i {
            value_from(cs, i3 + 1, close, p.0)
        } else {
            (p.0, i3)
        }
    } else {
        (p.0, i3)
    }
}

// ---------------------------------------------------------------------------
// Cleaning a value
// ---------------------------------------------------------------------------

/// The characters a backslash escapes.
pub open spec fn escapable(c: char) -> bool {
    c == '&' || c == '%' || c == '$' || c == '#' || c == '_' || c == '{' || c == '}'
}

/// Case-protecting braces dropped, ties made spaces, LaTeX escapes resolved.
pub open spec fn unescape(v: Seq<char>, i: int, out: Seq<char>) -> Seq<char>
    decreases v.len() - i,
{
    if !(0 <= i < v.len()) {
        out
    } else if v[i] == '{' || v[i] == '}' {
        unescape(v, i + 1, out)
    } else if v[i] == '~' {
        unescape(v, i + 1, out.push(' '))
    } else if v[i] == '\\' {
        if i + 1 < v.len() && escapable(v[i + 1]) {
            unescape(v, i + 2, out.push(v[i + 1]))
        } else {
            unescape(v, i + 1, out.push('\\'))
        }
    } else {
        unescape(v, i + 1, out.push(v[i]))
    }
}

/// The words of `s[i..]` appended to `out`, one space between each
/// (`split_whitespace` then `join(" ")`). `gap` says white space was seen
/// since the last word.
pub open spec fn squash(s: Seq<char>, i: int, out: Seq<char>, gap: bool) -> Seq<char>
    decreases s.len() - i,
{
    if !(0 <= i < s.len()) {
        out
    } else if is_ws(s[i]) {
        squash(s, i + 1, out, true)
    } else if gap && out.len() > 0 {
        squash(s, i + 1, out.push(' ').push(s[i]), false)
    } else {
        squash(s, i + 1, out.push(s[i]), false)
    }
}

/// A field value as it should read: one line, no case-protecting braces, and
/// the LaTeX escapes a bibliography actually contains.
pub open spec fn clean_spec(v: Seq<char>) -> Seq<char> {
    squash(unescape(v, 0, Seq::empty()), 0, Seq::empty(), false)
}

// ---------------------------------------------------------------------------
// Entries and the file
// ---------------------------------------------------------------------------

/// The fields of an entry from `i` to its closing bracket, added to `m`; and
/// where the entry ends.
pub open spec fn fields_from(cs: Seq<char>, i: int, close: char, m: Map<Seq<char>, Seq<char>>) -> (
    Map<Seq<char>, Seq<char>>,
    int,
)
    decreases cs.len() - i,
{
    let i1 = lead(cs, i);
    if !(0 <= i1 < cs.len()) {
        (m, i1)
    } else if cs[i1] == close {
        (m, i1 + 1)
    } else if cs[i1] == ',' {
        if i1 + 1 > i {
            fields_from(cs, i1 + 1, close, m)
        } else {
            (m, i1)
        }
    } else {
        let e = run_end(cs, i1, Class::Name);
        let name = lower(trim(cs.subrange(i1, e)));
        let i2 = lead(cs, e);
        if !(0 <= i2 < cs.len() && cs[i2] == '=') {
            let i3 = if name.len() == 0 && i2 < cs.len() {
                i2 + 1
            } else {
                i2
            };
            let i4 = separator_end(cs, i3, close, 0);
            if i4 > i && i4 <= cs.len() {
                fields_from(cs, i4, close, m)
            } else {
                (m, i4)
            }
        } else {
            let (v, i5) = value_from(cs, i2 + 1, close, Seq::empty());
            let m2 = if name.len() > 0 {
                m.insert(name, clean_spec(v))
            } else {
                m
            };
            if i5 > i && i5 <= cs.len() {
                fields_from(cs, i5, close, m2)
            } else {
                (m2, i5)
            }
        }
    }
}

/// The warning for an entry with no key.
pub open spec fn no_key_warning(kind: Seq<char>) -> Seq<char> {
    "a `@"@ + kind + "` entry has no citation key; skipped"@
}

/// The warning for a key defined a second time.
pub open spec fn twice_warning(key: Seq<char>) -> Seq<char> {
    "`"@ + key + "` is defined twice; the later entry is the one cited"@
}

/// Whether an entry type is one whose body is read past, not into.
pub open spec fn is_skipped_kind(kind: Seq<char>) -> bool {
    kind == "comment"@ || kind == "preamble"@ || kind == "string"@
}

/// The entries and warnings from `i` to the end of the file, added to what
/// was read before it.
pub open spec fn bib_from(
    cs: Seq<char>,
    i: int,
    m: Map<Seq<char>, EntryView>,
    w: Seq<Seq<char>>,
) -> (Map<Seq<char>, EntryView>, Seq<Seq<char>>)
    decreases cs.len() - i,
{
    if !(0 <= i < cs.len()) {
        (m, w)
    } else if cs[i] != '@' {
        bib_from(cs, i + 1, m, w)
    } else {
        let e = run_end(cs, i + 1, Class::Word);
        let kind = lower(cs.subrange(i + 1, e));
        let j = lead(cs, e);
        if !(0 <= j < cs.len() && (cs[j] == '{' || cs[j] == '(')) {
            if j > i && j <= cs.len() {
                bib_from(cs, j, m, w)
            } else {
                (m, w)
            }
        } else {
            let close = if cs[j] == '{' {
                '}'
            } else {
                ')'
            };
            let k = j + 1;
            if is_skipped_kind(kind) {
                let n = close_end(cs, k, close, 0);
                if n > i && n <= cs.len() {
                    bib_from(cs, n, m, w)
                } else {
                    (m, w)
                }
            } else {
                let ke = run_end(cs, k, Class::Key(close));
                let key = trim(cs.subrange(k, ke));
                if key.len() == 0 {
                    let n = close_end(cs, ke, close, 0);
                    if n > i && n <= cs.len() {
                        bib_from(cs, n, m, w.push(no_key_warning(kind)))
                    } else {
                        (m, w)
                    }
                } else {
                    let (fields, n) = fields_from(cs, ke, close, Map::empty());
                    let entry = EntryView { key, kind, fields };
                    let w2 = if m.contains_key(key) {
                        w.push(twice_warning(key))
                    } else {
                        w
                    };
                    if n > i && n <= cs.len() {
                        bib_from(cs, n, m.insert(key, entry), w2)
                    } else {
                        (m.insert(key, entry), w2)
                    }
                }
            }
        }
    }
}

/// What `parse_bibtex` reads from a file's characters.
pub open spec fn bibtex_spec(src: Seq<char>) -> (Map<Seq<char>, EntryView>, Seq<Seq<char>>) {
    bib_from(src, 0, Map::empty(), Seq::empty())
}

// ---------------------------------------------------------------------------
// Monotonicity: every walk ends where it started or later
// ---------------------------------------------------------------------------

pub proof fn lemma_run_end(cs: Seq<char>, i: int, cl: Class)
    ensures
        run_end(cs, i, cl) >= i,
        0 <= i <= cs.len() ==> run_end(cs, i, cl) <= cs.len(),
    decreases cs.len() - i,
{
    if 0 <= i < cs.len() && in_class(cl, cs[i]) {
        lemma_run_end(cs, i + 1, cl);
    }
}

proof fn lemma_run_in_class(cs: Seq<char>, i: int, cl: Class, j: int)
    requires
        0 <= i <= j < run_end(cs, i, cl),
    ensures
        in_class(cl, cs[j]),
    decreases cs.len() - i,
{
    if 0 <= i < cs.len() && in_class(cl, cs[i]) && j > i {
        lemma_run_in_class(cs, i + 1, cl, j);
    }
}

/// A key as an entry may carry it: not empty, with no comma or line break
/// in it and no white space at either end.
pub open spec fn key_shaped(k: Seq<char>) -> bool {
    &&& k.len() > 0
    &&& !is_ws(k[0])
    &&& !is_ws(k.last())
    &&& forall|i: int| 0 <= i < k.len() ==> #[trigger] k[i] != ',' && k[i] != '\n'
}

/// Text in one line of words: no `~`, and white space only as single
/// spaces between two other characters.
pub open spec fn well_spaced(v: Seq<char>) -> bool {
    &&& forall|i: int| 0 <= i < v.len() ==> #[trigger] v[i] != '~'
    &&& forall|i: int|
        0 <= i < v.len() && is_ws(#[trigger] v[i]) ==> v[i] == ' ' && 0 < i < v.len() - 1 && !is_ws(
            v[i - 1],
        ) && !is_ws(v[i + 1])
}

proof fn lemma_unescape_no_tie(v: Seq<char>, i: int, out: Seq<char>)
    requires
        forall|k: int| 0 <= k < out.len() ==> #[trigger] out[k] != '~',
    ensures
        forall|k: int| 0 <= k < unescape(v, i, out).len() ==> #[trigger] unescape(v, i, out)[k] != '~',
    decreases v.len() - i,
{
    if !(0 <= i < v.len()) {
    } else {
        let (next, o) = if v[i] == '{' || v[i] == '}' {
            (i + 1, out)
        } else if v[i] == '~' {
            (i + 1, out.push(' '))
        } else if v[i] == '\\' {
            if i + 1 < v.len() && escapable(v[i + 1]) {
                (i + 2, out.push(v[i + 1]))
            } else {
                (i + 1, out.push('\\'))
            }
        } else {
            (i + 1, out.push(v[i]))
        };
        assert(unescape(v, i, out) == unescape(v, next, o));
        assert forall|k: int| 0 <= k < o.len() implies #[trigger] o[k] != '~' by {
            if k < out.len() {
                assert(o[k] == out[k]);
            }
        }
        lemma_unescape_no_tie(v, next, o);
    }
}

proof fn lemma_squash_spaced(s: Seq<char>, i: int, out: Seq<char>, gap: bool)
    requires
        forall|k: int| 0 <= k < s.len() ==> #[trigger] s[k] != '~',
        well_spaced(out),
        out.len() > 0 ==> !is_ws(out.last()),
    ensures
        well_spaced(squash(s, i, out, gap)),
    decreases s.len() - i,
{
    if !(0 <= i < s.len()) {
    } else if is_ws(s[i]) {
        lemma_squash_spaced(s, i + 1, out, true);
    } else if gap && out.len() > 0 {
        let o = out.push(' ').push(s[i]);
        assert(is_ws(' '));
        assert forall|k: int| 0 <= k < o.len() && is_ws(#[trigger] o[k]) implies o[k] == ' ' && 0 < k
            < o.len() - 1 && !is_ws(o[k - 1]) && !is_ws(o[k + 1]) by {
            if k < out.len() {
                assert(o[k] == out[k]);
                assert(k < out.len() - 1);
                assert(o[k + 1] == out[k + 1]);
                assert(o[k - 1] == out[k - 1]);
            } else if k == out.len() {
                assert(o[k - 1] == out.last());
                assert(o[k + 1] == s[i]);
            } else {
                assert(o[k] == s[i]);
            }
        }
        assert forall|k: int| 0 <= k < o.len() implies #[trigger] o[k] != '~' by {
            if k < out.len() {
                assert(o[k] == out[k]);
            }
        }
        lemma_squash_spaced(s, i + 1, o, false);
    } else {
        let o = out.push(s[i]);
        assert forall|k: int| 0 <= k < o.len() && is_ws(#[trigger] o[k]) implies o[k] == ' ' && 0 < k
            < o.len() - 1 && !is_ws(o[k - 1]) && !is_ws(o[k + 1]) by {
            if k < out.len() {
                assert(o[k] == out[k]);
                assert(k < out.len() - 1);
                assert(o[k + 1] == out[k + 1]);
                assert(o[k - 1] == out[k - 1]);
            }
        }
        assert forall|k: int| 0 <= k < o.len() implies #[trigger] o[k] != '~' by {
            if k < out.len() {
                assert(o[k] == out[k]);
            }
        }
        lemma_squash_spaced(s, i + 1, o, false);
    }
}

/// A cleaned value is one line of words: no `~`, and white space only as
/// single spaces between words.
pub proof fn lemma_clean_is_well_spaced(v: Seq<char>)
    ensures
        well_spaced(clean_spec(v)),
{
    lemma_unescape_no_tie(v, 0, Seq::empty());
    lemma_squash_spaced(unescape(v, 0, Seq::empty()), 0, Seq::empty(), false);
}

/// Every field has a name, and its value is one line of words.
pub open spec fn names_filled(f: Map<Seq<char>, Seq<char>>) -> bool {
    forall|n: Seq<char>| #[trigger] f.contains_key(n) ==> n.len() > 0 && well_spaced(f[n])
}

/// Every entry is filed under its own key, that key is key-shaped, and
/// every field of it has a name.
pub open spec fn keys_shaped(m: Map<Seq<char>, EntryView>) -> bool {
    forall|k: Seq<char>|
        #[trigger] m.contains_key(k) ==> m[k].key == k && key_shaped(k) && names_filled(m[k].fields)
}

proof fn lemma_fields_named(cs: Seq<char>, i: int, close: char, m: Map<Seq<char>, Seq<char>>)
    requires
        names_filled(m),
    ensures
        names_filled(fields_from(cs, i, close, m).0),
    decreases cs.len() - i,
{
    let i1 = lead(cs, i);
    if !(0 <= i1 < cs.len()) {
    } else if cs[i1] == close {
    } else if cs[i1] == ',' {
        if i1 + 1 > i {
            lemma_fields_named(cs, i1 + 1, close, m);
        }
    } else {
        let e = run_end(cs, i1, Class::Name);
        let name = lower(trim(cs.subrange(i1, e)));
        let i2 = lead(cs, e);
        if !(0 <= i2 < cs.len() && cs[i2] == '=') {
            let i3 = if name.len() == 0 && i2 < cs.len() {
                i2 + 1
            } else {
                i2
            };
            let i4 = separator_end(cs, i3, close, 0);
            if i4 > i && i4 <= cs.len() {
                lemma_fields_named(cs, i4, close, m);
            }
        } else {
            let (v, i5) = value_from(cs, i2 + 1, close, Seq::empty());
            let m2 = if name.len() > 0 {
                m.insert(name, clean_spec(v))
            } else {
                m
            };
            lemma_clean_is_well_spaced(v);
            assert(names_filled(m2));
            if i5 > i && i5 <= cs.len() {
                lemma_fields_named(cs, i5, close, m2);
            }
        }
    }
}

proof fn lemma_trimmed_key(cs: Seq<char>, k: int, close: char)
    requires
        0 <= k <= cs.len(),
        trim(cs.subrange(k, run_end(cs, k, Class::Key(close)))).len() > 0,
    ensures
        key_shaped(trim(cs.subrange(k, run_end(cs, k, Class::Key(close))))),
{
    let ke = run_end(cs, k, Class::Key(close));
    lemma_run_end(cs, k, Class::Key(close));
    let sub = cs.subrange(k, ke);
    lemma_lead(sub, 0);
    let lo = lead(sub, 0);
    lemma_trail(sub, lo, sub.len() as int);
    let hi = trail(sub, lo, sub.len() as int);
    let t = trim(sub);
    assert(t == sub.subrange(lo, hi));
    assert forall|i: int| 0 <= i < t.len() implies #[trigger] t[i] != ',' && t[i] != '\n' by {
        assert(t[i] == cs[k + lo + i]);
        lemma_run_in_class(cs, k, Class::Key(close), k + lo + i);
    }
    assert(t[0] == sub[lo]);
    assert(t.last() == sub[hi - 1]);
}

/// What a walk from `i` adds keeps every entry under its own key-shaped
/// key.
proof fn lemma_bib_from_keys(cs: Seq<char>, i: int, m: Map<Seq<char>, EntryView>, w: Seq<Seq<char>>)
    requires
        keys_shaped(m),
    ensures
        keys_shaped(bib_from(cs, i, m, w).0),
    decreases cs.len() - i,
{
    if !(0 <= i < cs.len()) {
    } else if cs[i] != '@' {
        lemma_bib_from_keys(cs, i + 1, m, w);
    } else {
        let e = run_end(cs, i + 1, Class::Word);
        let kind = lower(cs.subrange(i + 1, e));
        let j = lead(cs, e);
        lemma_run_end(cs, i + 1, Class::Word);
        lemma_lead_ge(cs, e);
        if !(0 <= j < cs.len() && (cs[j] == '{' || cs[j] == '(')) {
            if j > i && j <= cs.len() {
                lemma_bib_from_keys(cs, j, m, w);
            }
        } else {
            let close = if cs[j] == '{' {
                '}'
            } else {
                ')'
            };
            let k = j + 1;
            if is_skipped_kind(kind) {
                let n = close_end(cs, k, close, 0);
                if n > i && n <= cs.len() {
                    lemma_bib_from_keys(cs, n, m, w);
                }
            } else {
                let ke = run_end(cs, k, Class::Key(close));
                let key = trim(cs.subrange(k, ke));
                if key.len() == 0 {
                    let n = close_end(cs, ke, close, 0);
                    if n > i && n <= cs.len() {
                        lemma_bib_from_keys(cs, n, m, w.push(no_key_warning(kind)));
                    }
                } else {
                    let (fields, n) = fields_from(cs, ke, close, Map::empty());
                    let entry = EntryView { key, kind, fields };
                    lemma_trimmed_key(cs, k, close);
                    lemma_fields_named(cs, ke, close, Map::empty());
                    let m2 = m.insert(key, entry);
                    assert(keys_shaped(m2));
                    let w2 = if m.contains_key(key) {
                        w.push(twice_warning(key))
                    } else {
                        w
                    };
                    if n > i && n <= cs.len() {
                        lemma_bib_from_keys(cs, n, m2, w2);
                    }
                }
            }
        }
    }
}

/// Every entry `parse_bibtex` reads is filed under its own key; the key is
/// not empty, holds no comma or line break, and has no white space at
/// either end; and every field of the entry has a name and a value that
/// is one line of words, with no `~` and single spaces between words.
pub proof fn lemma_bibtex_keys(src: Seq<char>)
    ensures
        keys_shaped(bibtex_spec(src).0),
{
    lemma_bib_from_keys(src, 0, Map::empty(), Seq::empty());
}

/// Every field name is its own ASCII lowercase.
pub open spec fn fields_lowered(f: Map<Seq<char>, Seq<char>>) -> bool {
    forall|n: Seq<char>| #[trigger] f.contains_key(n) ==> ascii_lowered(n) == n
}

/// Every entry's kind and field names are their own ASCII lowercase.
pub open spec fn names_lowered(m: Map<Seq<char>, EntryView>) -> bool {
    forall|k: Seq<char>|
        #[trigger] m.contains_key(k) ==> ascii_lowered(m[k].kind) == m[k].kind && fields_lowered(
            m[k].fields,
        )
}

/// A stretch of ASCII text, lowered, stays lowered.
proof fn lemma_lower_part(cs: Seq<char>, a: int, b: int, trimmed_too: bool)
    requires
        all_ascii(cs),
        0 <= a <= b <= cs.len(),
    ensures
        ({
            let part = if trimmed_too {
                trim(cs.subrange(a, b))
            } else {
                cs.subrange(a, b)
            };
            ascii_lowered(lower(part)) == lower(part)
        }),
{
    let sub = cs.subrange(a, b);
    let part = if trimmed_too {
        trim(sub)
    } else {
        sub
    };
    if trimmed_too {
        lemma_lead(sub, 0);
        lemma_trail(sub, lead(sub, 0), sub.len() as int);
    }
    assert(all_ascii(part)) by {
        assert forall|i: int| 0 <= i < part.len() implies (#[trigger] part[i] as u32) < 128 by {
            if trimmed_too {
                assert(part[i] == cs[a + lead(sub, 0) + i]);
            } else {
                assert(part[i] == cs[a + i]);
            }
        }
    }
    let l = ascii_lowered(part);
    assert(ascii_lowered(l) =~= l);
}

proof fn lemma_fields_lowered(cs: Seq<char>, i: int, close: char, m: Map<Seq<char>, Seq<char>>)
    requires
        all_ascii(cs),
        fields_lowered(m),
    ensures
        fields_lowered(fields_from(cs, i, close, m).0),
    decreases cs.len() - i,
{
    let i1 = lead(cs, i);
    lemma_lead_ge(cs, i);
    if !(0 <= i1 < cs.len()) {
    } else if cs[i1] == close {
    } else if cs[i1] == ',' {
        if i1 + 1 > i {
            lemma_fields_lowered(cs, i1 + 1, close, m);
        }
    } else {
        let e = run_end(cs, i1, Class::Name);
        lemma_run_end(cs, i1, Class::Name);
        let name = lower(trim(cs.subrange(i1, e)));
        lemma_lower_part(cs, i1, e, true);
        let i2 = lead(cs, e);
        if !(0 <= i2 < cs.len() && cs[i2] == '=') {
            let i3 = if name.len() == 0 && i2 < cs.len() {
                i2 + 1
            } else {
                i2
            };
            let i4 = separator_end(cs, i3, close, 0);
            if i4 > i && i4 <= cs.len() {
                lemma_fields_lowered(cs, i4, close, m);
            }
        } else {
            let (v, i5) = value_from(cs, i2 + 1, close, Seq::empty());
            let m2 = if name.len() > 0 {
                m.insert(name, clean_spec(v))
            } else {
                m
            };
            assert(fields_lowered(m2));
            if i5 > i && i5 <= cs.len() {
                lemma_fields_lowered(cs, i5, close, m2);
            }
        }
    }
}

proof fn lemma_bib_lowered(cs: Seq<char>, i: int, m: Map<Seq<char>, EntryView>, w: Seq<Seq<char>>)
    requires
        all_ascii(cs),
        names_lowered(m),
    ensures
        names_lowered(bib_from(cs, i, m, w).0),
    decreases cs.len() - i,
{
    if !(0 <= i < cs.len()) {
    } else if cs[i] != '@' {
        lemma_bib_lowered(cs, i + 1, m, w);
    } else {
        let e = run_end(cs, i + 1, Class::Word);
        lemma_run_end(cs, i + 1, Class::Word);
        let kind = lower(cs.subrange(i + 1, e));
        lemma_lower_part(cs, i + 1, e, false);
        let j = lead(cs, e);
        lemma_lead_ge(cs, e);
        if !(0 <= j < cs.len() && (cs[j] == '{' || cs[j] == '(')) {
            if j > i && j <= cs.len() {
                lemma_bib_lowered(cs, j, m, w);
            }
        } else {
            let close = if cs[j] == '{' {
                '}'
            } else {
                ')'
            };
            let k = j + 1;
            if is_skipped_kind(kind) {
                let n = close_end(cs, k, close, 0);
                if n > i && n <= cs.len() {
                    lemma_bib_lowered(cs, n, m, w);
                }
            } else {
                let ke = run_end(cs, k, Class::Key(close));
                let key = trim(cs.subrange(k, ke));
                if key.len() == 0 {
                    let n = close_end(cs, ke, close, 0);
                    if n > i && n <= cs.len() {
                        lemma_bib_lowered(cs, n, m, w.push(no_key_warning(kind)));
                    }
                } else {
                    let (fields, n) = fields_from(cs, ke, close, Map::empty());
                    let entry = EntryView { key, kind, fields };
                    lemma_fields_lowered(cs, ke, close, Map::empty());
                    let m2 = m.insert(key, entry);
                    assert(names_lowered(m2));
                    let w2 = if m.contains_key(key) {
                        w.push(twice_warning(key))
                    } else {
                        w
                    };
                    if n > i && n <= cs.len() {
                        lemma_bib_lowered(cs, n, m2, w2);
                    }
                }
            }
        }
    }
}

/// A file written in ASCII gives entries whose kinds and field names are
/// lowercase: `@ARTICLE{x, Title = ...}` reads as an `article` with a
/// `title`.
pub proof fn lemma_bibtex_lowercase(src: Seq<char>)
    requires
        all_ascii(src),
    ensures
        names_lowered(bibtex_spec(src).0),
{
    lemma_bib_lowered(src, 0, Map::empty(), Seq::empty());
}

pub proof fn lemma_lead_ge(cs: Seq<char>, i: int)
    ensures
        lead(cs, i) >= i,
        0 <= i <= cs.len() ==> lead(cs, i) <= cs.len(),
    decreases cs.len() - i,
{
    if 0 <= i < cs.len() && is_ws(cs[i]) {
        lemma_lead_ge(cs, i + 1);
    }
}

pub proof fn lemma_close_end(cs: Seq<char>, i: int, close: char, depth: nat)
    ensures
        close_end(cs, i, close, depth) >= i,
        0 <= i < cs.len() ==> close_end(cs, i, close, depth) > i,
        0 <= i <= cs.len() ==> close_end(cs, i, close, depth) <= cs.len(),
    decreases cs.len() - i,
{
    if !(0 <= i < cs.len()) {
    } else if cs[i] == '{' {
        lemma_close_end(cs, i + 1, close, depth + 1);
    } else if cs[i] == '}' && depth > 0 {
        lemma_close_end(cs, i + 1, close, (depth - 1) as nat);
    } else if cs[i] == close && depth == 0 {
    } else {
        lemma_close_end(cs, i + 1, close, depth);
    }
}

pub proof fn lemma_separator_end(cs: Seq<char>, i: int, close: char, depth: nat)
    ensures
        separator_end(cs, i, close, depth) >= i,
        0 <= i < cs.len() && !(cs[i] == close && depth == 0) ==> separator_end(
            cs,
            i,
            close,
            depth,
        ) > i,
        0 <= i <= cs.len() ==> separator_end(cs, i, close, depth) <= cs.len(),
    decreases cs.len() - i,
{
    if !(0 <= i < cs.len()) {
    } else if cs[i] == '{' {
        lemma_separator_end(cs, i + 1, close, depth + 1);
    } else if cs[i] == '}' && depth > 0 {
        lemma_separator_end(cs, i + 1, close, (depth - 1) as nat);
    } else if cs[i] == ',' && depth == 0 {
    } else if cs[i] == close && depth == 0 {
    } else {
        lemma_separator_end(cs, i + 1, close, depth);
    }
}

pub proof fn lemma_braced(cs: Seq<char>, i: int, depth: nat, out: Seq<char>)
    ensures
        braced(cs, i, depth, out).1 >= i,
        0 <= i <= cs.len() ==> braced(cs, i, depth, out).1 <= cs.len(),
    decreases cs.len() - i,
{
    if !(0 <= i < cs.len()) {
    } else if cs[i] == '{' {
        lemma_braced(cs, i + 1, depth + 1, out.push('{'));
    } else if cs[i] == '}' {
        if depth > 1 {
            lemma_braced(cs, i + 1, (depth - 1) as nat, out.push('}'));
        }
    } else {
        lemma_braced(cs, i + 1, depth, out.push(cs[i]));
    }
}

pub proof fn lemma_quoted(cs: Seq<char>, i: int, depth: nat, out: Seq<char>)
    ensures
        quoted(cs, i, depth, out).1 >= i,
        0 <= i <= cs.len() ==> quoted(cs, i, depth, out).1 <= cs.len(),
    decreases cs.len() - i,
{
    if !(0 <= i < cs.len()) {
    } else if cs[i] == '{' {
        lemma_quoted(cs, i + 1, depth + 1, out.push('{'));
    } else if cs[i] == '}' {
        lemma_quoted(cs, i + 1, if depth > 0 { (depth - 1) as nat } else { 0 }, out.push('}'));
    } else if cs[i] == '"' && depth == 0 {
    } else {
        lemma_quoted(cs, i + 1, depth, out.push(cs[i]));
    }
}

pub proof fn lemma_piece(cs: Seq<char>, i: int, close: char, out: Seq<char>)
    ensures
        piece(cs, i, close, out).1 >= i,
        0 <= i <= cs.len() ==> piece(cs, i, close, out).1 <= cs.len(),
{
    if 0 <= i < cs.len() && cs[i] == '{' {
        lemma_braced(cs, i + 1, 1, out);
    } else if 0 <= i < cs.len() && cs[i] == '"' {
        lemma_quoted(cs, i + 1, 0, out);
    } else if 0 <= i < cs.len() && cs[i] != ',' && cs[i] != close {
        lemma_run_end(cs, i, Class::Bare(close));
    }
}

pub proof fn lemma_value_from(cs: Seq<char>, i: int, close: char, out: Seq<char>)
    ensures
        value_from(cs, i, close, out).1 >= i,
        0 <= i <= cs.len() ==> value_from(cs, i, close, out).1 <= cs.len(),
    decreases cs.len() - i,
{
    let i1 = lead(cs, i);
    lemma_lead_ge(cs, i);
    lemma_piece(cs, i1, close, out);
    let p = piece(cs, i1, close, out);
    lemma_lead_ge(cs, p.1);
    let i3 = lead(cs, p.1);
    if 0 <= i3 < cs.len() && cs[i3] == '#' && i3 + 1 > i {
        lemma_value_from(cs, i3 + 1, close, p.0);
    }
}

pub proof fn lemma_fields_from(cs: Seq<char>, i: int, close: char, m: Map<Seq<char>, Seq<char>>)
    ensures
        fields_from(cs, i, close, m).1 >= i,
        0 <= i <= cs.len() ==> fields_from(cs, i, close, m).1 <= cs.len(),
    decreases cs.len() - i,
{
    let i1 = lead(cs, i);
    lemma_lead_ge(cs, i);
    if !(0 <= i1 < cs.len()) {
    } else if cs[i1] == close {
    } else if cs[i1] == ',' {
        if i1 + 1 > i {
            lemma_fields_from(cs, i1 + 1, close, m);
        }
    } else {
        let e = run_end(cs, i1, Class::Name);
        lemma_run_end(cs, i1, Class::Name);
        let name = lower(trim(cs.subrange(i1, e)));
        let i2 = lead(cs, e);
        lemma_lead_ge(cs, e);
        if !(0 <= i2 < cs.len() && cs[i2] == '=') {
            let i3 = if name.len() == 0 && i2 < cs.len() {
                i2 + 1
            } else {
                i2
            };
            let i4 = separator_end(cs, i3, close, 0);
            lemma_separator_end(cs, i3, close, 0);
            if i4 > i && i4 <= cs.len() {
                lemma_fields_from(cs, i4, close, m);
            }
        } else {
            let (v, i5) = value_from(cs, i2 + 1, close, Seq::empty());
            lemma_value_from(cs, i2 + 1, close, Seq::empty());
            let m2 = if name.len() > 0 {
                m.insert(name, clean_spec(v))
            } else {
                m
            };
            if i5 > i && i5 <= cs.len() {
                lemma_fields_from(cs, i5, close, m2);
            }
        }
    }
}

// ---------------------------------------------------------------------------
// The walks, executed
// ---------------------------------------------------------------------------

/// The run of `cl` characters from `i`, and where it ends.
fn take_while(cs: &Vec<char>, i: usize, cl: &Class) -> (r: (Vec<char>, usize))
    requires
        i <= cs.len(),
    ensures
        r.1 == run_end(cs@, i as int, *cl),
        i <= r.1 <= cs.len(),
        r.0@ == cs@.subrange(i as int, r.1 as int),
{
    let mut j = i;
    while j < cs.len() && class_holds(cl, cs[j])
        invariant
            i <= j <= cs.len(),
            run_end(cs@, i as int, *cl) == run_end(cs@, j as int, *cl),
        decreases cs.len() - j,
    {
        j += 1;
    }
    (slice(cs, i, j), j)
}

/// Past the white space at `i`.
fn skip_space(cs: &Vec<char>, i: usize) -> (r: usize)
    requires
        i <= cs.len(),
    ensures
        r == lead(cs@, i as int),
        i <= r <= cs.len(),
{
    lead_end(cs, i)
}

/// Past the end of the current entry, counting braces so a `}` inside a value
/// does not end it early.
fn skip_to_close(cs: &Vec<char>, i: usize, close: char) -> (r: usize)
    requires
        i <= cs.len(),
    ensures
        r == close_end(cs@, i as int, close, 0),
        i <= r <= cs.len(),
{
    let mut j = i;
    let mut depth: usize = 0;
    while j < cs.len()
        invariant
            i <= j <= cs.len(),
            depth <= j,
            close_end(cs@, i as int, close, 0) == close_end(cs@, j as int, close, depth as nat),
        decreases cs.len() - j,
    {
        let c = cs[j];
        if c == '{' {
            depth += 1;
        } else if c == '}' && depth > 0 {
            depth -= 1;
        } else if c == close && depth == 0 {
            return j + 1;
        }
        j += 1;
    }
    j
}

/// To the next field boundary, so one malformed line costs one field.
fn skip_to_separator(cs: &Vec<char>, i: usize, close: char) -> (r: usize)
    requires
        i <= cs.len(),
    ensures
        r == separator_end(cs@, i as int, close, 0),
        i <= r <= cs.len(),
{
    let mut j = i;
    let mut depth: usize = 0;
    while j < cs.len()
        invariant
            i <= j <= cs.len(),
            depth <= j,
            separator_end(cs@, i as int, close, 0) == separator_end(
                cs@,
                j as int,
                close,
                depth as nat,
            ),
        decreases cs.len() - j,
    {
        let c = cs[j];
        if c == '{' {
            depth += 1;
        } else if c == '}' && depth > 0 {
            depth -= 1;
        } else if c == ',' && depth == 0 {
            return j + 1;
        } else if c == close && depth == 0 {
            return j;
        }
        j += 1;
    }
    j
}

/// The text of a `{braced}` value, from just inside its opening brace.
fn read_braced(cs: &Vec<char>, i: usize, out: &mut Vec<char>) -> (r: usize)
    requires
        1 <= i <= cs.len(),
    ensures
        (final(out)@, r as int) == braced(cs@, i as int, 1, old(out)@),
        i <= r <= cs.len(),
{
    let mut j = i;
    let mut depth: usize = 1;
    while j < cs.len()
        invariant
            i <= j <= cs.len(),
            1 <= depth <= j,
            braced(cs@, i as int, 1, old(out)@) == braced(cs@, j as int, depth as nat, out@),
        decreases cs.len() - j,
    {
        let c = cs[j];
        if c == '{' {
            depth += 1;
            out.push(c);
        } else if c == '}' {
            if depth <= 1 {
                return j + 1;
            }
            depth -= 1;
            out.push(c);
        } else {
            out.push(c);
        }
        j += 1;
    }
    j
}

/// The text of a `"quoted"` value, from just inside its opening quote.
fn read_quoted(cs: &Vec<char>, i: usize, out: &mut Vec<char>) -> (r: usize)
    requires
        i <= cs.len(),
    ensures
        (final(out)@, r as int) == quoted(cs@, i as int, 0, old(out)@),
        i <= r <= cs.len(),
{
    let mut j = i;
    let mut depth: usize = 0;
    while j < cs.len()
        invariant
            i <= j <= cs.len(),
            depth <= j,
            quoted(cs@, i as int, 0, old(out)@) == quoted(cs@, j as int, depth as nat, out@),
        decreases cs.len() - j,
    {
        let c = cs[j];
        if c == '{' {
            depth += 1;
        } else if c == '}' {
            if depth > 0 {
                depth -= 1;
            }
        } else if c == '"' && depth == 0 {
            return j + 1;
        }
        out.push(c);
        j += 1;
    }
    j
}

/// A field's value: `{braced}`, `"quoted"`, a bare token, or several of those
/// joined with `#`.
fn read_value(cs: &Vec<char>, i: usize, close: char) -> (r: (Vec<char>, usize))
    requires
        i <= cs.len(),
    ensures
        (r.0@, r.1 as int) == value_from(cs@, i as int, close, Seq::empty()),
        i <= r.1 <= cs.len(),
{
    let mut out: Vec<char> = Vec::new();
    let mut j = i;
    loop
        invariant
            i <= j <= cs.len(),
            value_from(cs@, i as int, close, Seq::empty()) == value_from(
                cs@,
                j as int,
                close,
                out@,
            ),
        decreases cs.len() - j,
    {
        let ghost j0 = j as int;
        let ghost out0 = out@;
        j = skip_space(cs, j);
        if j < cs.len() && cs[j] == '{' {
            j = read_braced(cs, j + 1, &mut out);
        } else if j < cs.len() && cs[j] == '"' {
            j = read_quoted(cs, j + 1, &mut out);
        } else if j < cs.len() && cs[j] != ',' && cs[j] != close {
            let (tok, e) = take_while(cs, j, &Class::Bare(close));
            push_all(&mut out, &tok);
            j = e;
        }
        assert((out@, j as int) == piece(cs@, lead(cs@, j0), close, out0));
        j = skip_space(cs, j);
        if j < cs.len() && cs[j] == '#' {
            j += 1;
        } else {
            return (out, j);
        }
    }
}

/// A field value as it should read: one line, no case-protecting braces, and
/// the handful of LaTeX escapes a bibliography actually contains.
pub fn clean(value: &Vec<char>) -> (r: Vec<char>)
    ensures
        r@ == clean_spec(value@),
{
    let mut un: Vec<char> = Vec::new();
    let mut i: usize = 0;
    while i < value.len()
        invariant
            i <= value.len(),
            unescape(value@, 0, Seq::empty()) == unescape(value@, i as int, un@),
        decreases value.len() - i,
    {
        let c = value[i];
        if c == '{' || c == '}' {
            i += 1;
        } else if c == '~' {
            un.push(' ');
            i += 1;
        } else if c == '\\' {
            if i + 1 < value.len() {
                let e = value[i + 1];
                if e == '&' || e == '%' || e == '$' || e == '#' || e == '_' || e == '{' || e
                    == '}' {
                    un.push(e);
                    i += 2;
                    continue ;
                }
            }
            un.push('\\');
            i += 1;
        } else {
            un.push(c);
            i += 1;
        }
    }
    let mut out: Vec<char> = Vec::new();
    let mut gap = false;
    let mut k: usize = 0;
    while k < un.len()
        invariant
            k <= un.len(),
            clean_spec(value@) == squash(un@, k as int, out@, gap),
        decreases un.len() - k,
    {
        let c = un[k];
        if is_space(c) {
            gap = true;
        } else {
            if gap && out.len() > 0 {
                out.push(' ');
            }
            out.push(c);
            gap = false;
        }
        k += 1;
    }
    out
}

/// The lowercase spelling of some characters.
fn lowered(cs: &Vec<char>) -> (r: Vec<char>)
    ensures
        r@ == lower(cs@),
{
    let s = string_of(cs.as_slice());
    let l = to_lowercase(s.as_str());
    chars_of(l.as_str())
}

/// The fields of an entry up to its closing bracket, and where it ends.
fn read_fields(cs: &Vec<char>, i: usize, close: char) -> (r: (StrMap<String>, usize))
    requires
        i <= cs.len(),
    ensures
        (r.0@, r.1 as int) == fields_from(cs@, i as int, close, Map::empty()),
        i <= r.1 <= cs.len(),
{
    let mut fields: StrMap<String> = StrMap::new();
    let mut j = i;
    loop
        invariant
            i <= j <= cs.len(),
            fields_from(cs@, i as int, close, Map::empty()) == fields_from(
                cs@,
                j as int,
                close,
                fields@,
            ),
        decreases cs.len() - j,
    {
        let ghost j0 = j as int;
        j = skip_space(cs, j);
        if j >= cs.len() {
            return (fields, j);
        }
        if cs[j] == close {
            return (fields, j + 1);
        }
        if cs[j] == ',' {
            j += 1;
            continue ;
        }
        let (raw, e) = take_while(cs, j, &Class::Name);
        let t = trimmed(&raw);
        let name = lowered(&t);
        let i2 = skip_space(cs, e);
        if !(i2 < cs.len() && cs[i2] == '=') {
            let i3 = if name.len() == 0 && i2 < cs.len() {
                i2 + 1
            } else {
                i2
            };
            proof {
                lemma_separator_end(cs@, j as int, close, 0);
                lemma_separator_end(cs@, i3 as int, close, 0);
            }
            let i4 = skip_to_separator(cs, i3, close);
            j = i4;
            continue ;
        }
        let (v, i5) = read_value(cs, i2 + 1, close);
        if name.len() > 0 {
            let cleaned = clean(&v);
            fields.insert(string_of(name.as_slice()), string_of(cleaned.as_slice()));
        }
        j = i5;
    }
}

/// Parses a `.bib` file into entries, with a warning for anything skipped.
///
/// `@string`, `@preamble` and `@comment` are read past rather than expanded.
pub fn parse_bibtex(src: &str) -> (r: (StrMap<Entry>, Vec<String>))
    ensures
        r.0@ == bibtex_spec(src@).0,
        r.1@.map_values(|w: String| w@) == bibtex_spec(src@).1,
        forall|k: Seq<char>| #[trigger] r.0@.contains_key(k) ==> r.0@[k].key == k,
{
    let cs = chars_of(src);
    let mut out: StrMap<Entry> = StrMap::new();
    let mut warnings: Vec<String> = Vec::new();
    let mut i: usize = 0;
    assert(warnings@.map_values(|w: String| w@) =~= Seq::<Seq<char>>::empty());
    while i < cs.len()
        invariant
            i <= cs.len(),
            cs@ == src@,
            forall|k: Seq<char>| #[trigger] out@.contains_key(k) ==> out@[k].key == k,
            bibtex_spec(src@) == bib_from(
                cs@,
                i as int,
                out@,
                warnings@.map_values(|w: String| w@),
            ),
        decreases cs.len() - i,
    {
        let ghost w0 = warnings@.map_values(|w: String| w@);
        if cs[i] != '@' {
            i += 1;
            continue ;
        }
        let (raw_kind, e) = take_while(&cs, i + 1, &Class::Word);
        let kind = lowered(&raw_kind);
        let j = skip_space(&cs, e);
        if !(j < cs.len() && (cs[j] == '{' || cs[j] == '(')) {
            i = j;
            continue ;
        }
        let close = if cs[j] == '{' {
            '}'
        } else {
            ')'
        };
        let k = j + 1;
        if is(&kind, "comment") || is(&kind, "preamble") || is(&kind, "string") {
            proof {
                lemma_close_end(cs@, k as int, close, 0);
            }
            i = skip_to_close(&cs, k, close);
            continue ;
        }
        let (raw_key, ke) = take_while(&cs, k, &Class::Key(close));
        let key = trimmed(&raw_key);
        if key.len() == 0 {
            let mut msg: Vec<char> = Vec::new();
            push_str(&mut msg, "a `@");
            push_all(&mut msg, &kind);
            push_str(&mut msg, "` entry has no citation key; skipped");
            let m = string_of(msg.as_slice());
            warnings.push(m);
            proof {
                lemma_close_end(cs@, ke as int, close, 0);
                assert(warnings@.map_values(|w: String| w@) =~= w0.push(no_key_warning(kind@)));
            }
            i = skip_to_close(&cs, ke, close);
            continue ;
        }
        let (fields, n) = read_fields(&cs, ke, close);
        let entry = Entry { key: string_of(key.as_slice()), kind: string_of(kind.as_slice()), fields };
        let previous = out.insert(string_of(key.as_slice()), entry);
        if previous.is_some() {
            let mut msg: Vec<char> = Vec::new();
            push_str(&mut msg, "`");
            push_all(&mut msg, &key);
            push_str(&mut msg, "` is defined twice; the later entry is the one cited");
            let m = string_of(msg.as_slice());
            warnings.push(m);
            proof {
                assert(warnings@.map_values(|w: String| w@) =~= w0.push(twice_warning(key@)));
            }
        }
        proof {
            lemma_fields_from(cs@, ke as int, close, Map::empty());
            lemma_run_end(cs@, k as int, Class::Key(close));
        }
        i = n;
    }
    (out, warnings)
}

} // verus!
