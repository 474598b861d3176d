//! One reference and what it reads as.
use vstd::prelude::*;
use crate::strmap::StrMap;
use crate::text::{
    chars_of, find_from, first_at, has_prefix, is_space, is_ws, lowercase, push_all, push_str,
    slice, string_of, to_lowercase, trim, trimmed, is_digit, lemma_first_at_some, join,
};
use crate::cite::bibtex::{clean, clean_spec};

verus! {

/// How a citation is written where the claim is made.
#[derive(Debug, Clone, Copy, PartialEq, Eq, Structural)]
pub enum CiteStyle {
    /// `[1]`, numbered in order of first citation.
    Numeric,
    /// `[Vaswani+17]`, which says whose paper it is.
    Author,
}

impl Default for CiteStyle {
    fn default() -> (r: Self)
        ensures
            r == CiteStyle::Numeric,
    {
        CiteStyle::Numeric
    }
}

/// The message for a style name that is not one.
pub open spec fn style_error(name: Seq<char>) -> Seq<char> {
    "citation-style: `"@ + name + "` is not a style; use `numeric` or `author`"@
}

impl CiteStyle {
    /// Reads a style name, surrounding white space allowed.
    pub fn parse(src: &str) -> (r: Result<CiteStyle, String>)
        ensures
            ({
                let n = trim(src@);
                match r {
                    Ok(CiteStyle::Numeric) => n == "numeric"@ || n == "number"@ || n
                        == "numbered"@,
                    Ok(CiteStyle::Author) => n == "author"@ || n == "author-year"@ || n
                        == "alpha"@,
                    Err(e) => !(n == "numeric"@ || n == "number"@ || n == "numbered"@ || n
                        == "author"@ || n == "author-year"@ || n == "alpha"@) && e@
                        == style_error(n),
                }
            }),
    {
        let cs = chars_of(src);
        let n = trimmed(&cs);
        if crate::text::is(&n, "numeric") || crate::text::is(&n, "number")
            || crate::text::is(&n, "numbered") {
            Ok(CiteStyle::Numeric)
        } else if crate::text::is(&n, "author") || crate::text::is(&n, "author-year")
            || crate::text::is(&n, "alpha") {
            Ok(CiteStyle::Author)
        } else {
            let mut msg: Vec<char> = Vec::new();
            push_str(&mut msg, "citation-style: `");
            push_all(&mut msg, &n);
            push_str(&mut msg, "` is not a style; use `numeric` or `author`");
            Err(string_of(msg.as_slice()))
        }
    }
}

/// One reference: its citation key, its BibTeX entry type, and its fields with
/// their names lowercased.
pub struct Entry {
    pub key: String,
    /// `article`, `inproceedings`, … lowercased. Empty for an entry written in
    /// frontmatter, which has no type to give.
    pub kind: String,
    pub fields: StrMap<String>,
}

/// An entry as the contracts read it.
pub struct EntryView {
    pub key: Seq<char>,
    pub kind: Seq<char>,
    pub fields: Map<Seq<char>, Seq<char>>,
}

impl View for Entry {
    type V = EntryView;

    open spec fn view(&self) -> EntryView {
        EntryView { key: self.key@, kind: self.kind@, fields: self.fields@ }
    }
}

// ---------------------------------------------------------------------------
// What an entry reads as, stated
// ---------------------------------------------------------------------------

/// The first of `names` the entry has, if its value is non-empty.
pub open spec fn field_of(fields: Map<Seq<char>, Seq<char>>, names: Seq<Seq<char>>) -> Option<
    Seq<char>,
>
    decreases names.len(),
{
    if names.len() == 0 {
        None
    } else if fields.contains_key(names[0]) {
        if fields[names[0]].len() > 0 {
            Some(fields[names[0]])
        } else {
            None
        }
    } else {
        field_of(fields, names.drop_first())
    }
}

/// A field lookup gives the value of the first listed name the entry has,
/// never an empty value, and nothing when it has none of them.
pub proof fn lemma_field_is_first_listed(fields: Map<Seq<char>, Seq<char>>, names: Seq<Seq<char>>)
    ensures
        forall|i: int|
            0 <= i < names.len() && #[trigger] fields.contains_key(names[i]) && (forall|j: int|
                0 <= j < i ==> !fields.contains_key(names[j])) ==> field_of(fields, names) == (if fields[names[i]].len()
                > 0 {
                Some(fields[names[i]])
            } else {
                None
            }),
        (forall|i: int| 0 <= i < names.len() ==> !fields.contains_key(#[trigger] names[i]))
            ==> field_of(fields, names) is None,
        field_of(fields, names) matches Some(v) ==> v.len() > 0,
    decreases names.len(),
{
    if names.len() > 0 {
        let rest = names.drop_first();
        lemma_field_is_first_listed(fields, rest);
        assert forall|i: int|
            0 <= i < names.len() && #[trigger] fields.contains_key(names[i]) && (forall|j: int|
                0 <= j < i ==> !fields.contains_key(names[j])) implies field_of(fields, names) == (if fields[names[i]].len()
                > 0 {
                Some(fields[names[i]])
            } else {
                None
            }) by {
            if i > 0 {
                assert(!fields.contains_key(names[0]));
                assert(rest[i - 1] == names[i]);
                assert forall|j: int| 0 <= j < i - 1 implies !fields.contains_key(rest[j]) by {
                    assert(rest[j] == names[j + 1]);
                }
                assert(fields.contains_key(rest[i - 1]));
            }
        }
        if forall|i: int| 0 <= i < names.len() ==> !fields.contains_key(#[trigger] names[i]) {
            assert(!fields.contains_key(names[0]));
            assert forall|i: int| 0 <= i < rest.len() implies !fields.contains_key(#[trigger] rest[i]) by {
                assert(rest[i] == names[i + 1]);
            }
        }
    }
}

/// The four characters that would otherwise close a tag or an attribute.
pub open spec fn escape_char(c: char) -> Seq<char> {
    if c == '&' {
        "&amp;"@
    } else if c == '<' {
        "&lt;"@
    } else if c == '>' {
        "&gt;"@
    } else if c == '"' {
        "&quot;"@
    } else {
        seq![c]
    }
}

/// `s` with `&`, `<`, `>` and `"` written as entities.
pub open spec fn escape_spec(s: Seq<char>) -> Seq<char>
    decreases s.len(),
{
    if s.len() == 0 {
        Seq::empty()
    } else {
        escape_spec(s.drop_last()) + escape_char(s.last())
    }
}

pub open spec fn ascii_lower(c: char) -> char {
    if 'A' <= c && c <= 'Z' {
        ((c as u32) + 32) as char
    } else {
        c
    }
}

pub open spec fn et_al_needle() -> Seq<char> {
    seq!['e', 't', ' ', 'a', 'l']
}

/// `et al`, in any case, starts at `i`.
pub open spec fn et_al_at(f: Seq<char>, i: int) -> bool {
    0 <= i && i + 5 <= f.len() && forall|k: int|
        0 <= k < 5 ==> ascii_lower(#[trigger] f[i + k]) == et_al_needle()[k]
}

/// The first `et al`, in any case, at or after `i`.
pub open spec fn et_al_from(f: Seq<char>, i: int) -> Option<int>
    decreases f.len() - i,
{
    if !(0 <= i && i + 5 <= f.len()) {
        None
    } else if et_al_at(f, i) {
        Some(i)
    } else {
        et_al_from(f, i + 1)
    }
}

/// `s` without trailing characters that `drop` holds.
pub open spec fn strip_end(s: Seq<char>, a: char, b: char) -> Seq<char>
    decreases s.len(),
{
    if s.len() > 0 && (s.last() == a || s.last() == b) {
        strip_end(s.drop_last(), a, b)
    } else {
        s
    }
}

/// The names in front of an `et al.`, when the field carries one.
pub open spec fn et_al_head(f: Seq<char>) -> Option<Seq<char>> {
    match et_al_from(f, 0) {
        Some(at) => Some(trim(strip_end(trim(f.subrange(0, at)), ',', ','))),
        None => None,
    }
}

pub open spec fn and_sep() -> Seq<char> {
    seq![' ', 'a', 'n', 'd', ' ']
}

/// The pieces of `s[from..]` between ` and `s, each trimmed.
pub open spec fn and_pieces(s: Seq<char>, from: int) -> Seq<Seq<char>>
    decreases s.len() - from,
{
    match first_at(s, and_sep(), from) {
        Some(at) => if from <= at && at + 5 <= s.len() {
            seq![trim(s.subrange(from, at))] + and_pieces(s, at + 5)
        } else {
            Seq::empty()
        },
        None => if 0 <= from <= s.len() {
            seq![trim(s.subrange(from, s.len() as int))]
        } else {
            Seq::empty()
        },
    }
}

/// `ps` without its empty members.
pub open spec fn non_empty(ps: Seq<Seq<char>>) -> Seq<Seq<char>>
    decreases ps.len(),
{
    if ps.len() == 0 {
        Seq::empty()
    } else if ps.last().len() > 0 {
        non_empty(ps.drop_last()).push(ps.last())
    } else {
        non_empty(ps.drop_last())
    }
}

/// The authors in a BibTeX name list: split on ` and `, which is a word.
pub open spec fn split_authors_spec(list: Seq<char>) -> Seq<Seq<char>> {
    non_empty(and_pieces(list, 0))
}

/// Where the last word of `s` (ending at `j`) starts.
pub open spec fn word_start(s: Seq<char>, j: int) -> int
    decreases j,
{
    if 0 < j <= s.len() && !is_ws(s[j - 1]) {
        word_start(s, j - 1)
    } else {
        j
    }
}

/// The first `,` in `s`.
pub open spec fn comma_in(s: Seq<char>) -> Option<int> {
    first_at(s, seq![','], 0)
}

/// One author's surname: `Vaswani, Ashish` and `Ashish Vaswani` both give
/// `Vaswani`; a name of one word is its own surname.
pub open spec fn surname_spec(name: Seq<char>) -> Seq<char> {
    let n = trim(strip_end(trim(name), '.', ','));
    match comma_in(n) {
        Some(p) => trim(n.subrange(0, p)),
        None => n.subrange(word_start(n, n.len() as int), n.len() as int),
    }
}

/// The non-empty surnames of the names in `ps`.
pub open spec fn surname_list(ps: Seq<Seq<char>>) -> Seq<Seq<char>>
    decreases ps.len(),
{
    if ps.len() == 0 {
        Seq::empty()
    } else {
        let s = surname_spec(ps.last());
        if s.len() > 0 {
            surname_list(ps.drop_last()).push(s)
        } else {
            surname_list(ps.drop_last())
        }
    }
}

pub open spec fn author_names() -> Seq<Seq<char>> {
    seq!["author"@, "editor"@]
}

/// Every author's surname, and whether the list was cut short.
pub open spec fn surnames_spec(e: EntryView) -> (Seq<Seq<char>>, bool) {
    match field_of(e.fields, author_names()) {
        None => (Seq::empty(), false),
        Some(f) => match et_al_head(f) {
            Some(h) => (surname_list(split_authors_spec(h)), true),
            None => (surname_list(split_authors_spec(f)), false),
        },
    }
}

/// `parts` joined by `sep`.

/// Authors as a reference list writes them: at most three surnames, then
/// `et al.`
pub open spec fn author_display_spec(e: EntryView) -> Option<Seq<char>> {
    let (names, truncated) = surnames_spec(e);
    let shown = names.take(if names.len() < 3 { names.len() as int } else { 3 });
    if shown.len() == 0 {
        None
    } else {
        Some(join(shown, ", "@) + if truncated || names.len() > 3 {
            " et al."@
        } else {
            Seq::empty()
        })
    }
}

/// A reference list names every author when there are at most three and
/// the field does not cut the list short, with no `et al.`; it shows the
/// first three and adds ` et al.` exactly when more were written or the
/// field itself says `et al.`; and it names no one when no name is left.
pub proof fn lemma_author_display_cut(e: EntryView)
    ensures
        ({
            let (names, cut) = surnames_spec(e);
            &&& names.len() == 0 ==> author_display_spec(e) is None
            &&& 0 < names.len() <= 3 && !cut ==> author_display_spec(e) == Some(join(names, ", "@))
            &&& names.len() > 0 && (cut || names.len() > 3) ==> author_display_spec(e) == Some(
                join(names.take(if names.len() < 3 { names.len() as int } else { 3 }), ", "@)
                    + " et al."@,
            )
            &&& cut <==> (field_of(e.fields, author_names()) matches Some(f) && et_al_head(f) is Some)
        }),
{
    let (names, cut) = surnames_spec(e);
    if names.len() <= 3 {
        assert(names.take(names.len() as int) =~= names);
    }
    assert(join(names.take(names.len() as int), ", "@) + Seq::<char>::empty() =~= join(
        names.take(names.len() as int),
        ", "@,
    ));
}

pub open spec fn year_spec(e: EntryView) -> Option<Seq<char>> {
    field_of(e.fields, seq!["year"@, "date"@])
}

/// Where the first digit at or after `i` is.
pub open spec fn digit_start(s: Seq<char>, i: int) -> int
    decreases s.len() - i,
{
    if 0 <= i < s.len() && !is_digit(s[i]) {
        digit_start(s, i + 1)
    } else {
        i
    }
}

/// Where the run of digits at `i` ends.
pub open spec fn digit_end(s: Seq<char>, i: int) -> int
    decreases s.len() - i,
{
    if 0 <= i < s.len() && is_digit(s[i]) {
        digit_end(s, i + 1)
    } else {
        i
    }
}

/// The last two digits of the year's first run of digits.
pub open spec fn short_year_spec(e: EntryView) -> Option<Seq<char>> {
    match year_spec(e) {
        None => None,
        Some(y) => {
            let a = digit_start(y, 0);
            let b = digit_end(y, a);
            if b - a >= 2 {
                Some(y.subrange(b - 2, b))
            } else {
                None
            }
        },
    }
}

/// What `[@key]` reads as in the author style: `Vaswani+17`.
pub open spec fn label_spec(e: EntryView) -> Seq<char> {
    let (names, truncated) = surnames_spec(e);
    if names.len() == 0 {
        e.key
    } else {
        names[0] + (if truncated || names.len() > 1 {
            "+"@
        } else {
            Seq::empty()
        }) + match short_year_spec(e) {
            Some(y) => y,
            None => Seq::empty(),
        }
    }
}

/// `s` with every leading copy of `p` removed.
pub open spec fn strip_all_prefix(s: Seq<char>, p: Seq<char>) -> Seq<char>
    decreases s.len(),
{
    if p.len() > 0 && has_prefix(s, p) {
        strip_all_prefix(s.skip(p.len() as int), p)
    } else {
        s
    }
}

/// Where to read it: the DOI, else an http(s) URL, else the arXiv identifier.
pub open spec fn link_spec(e: EntryView) -> Option<(Seq<char>, Seq<char>)> {
    match field_of(e.fields, seq!["doi"@]) {
        Some(doi) => {
            let bare = trim(
                strip_all_prefix(
                    strip_all_prefix(strip_all_prefix(doi, "https://doi.org/"@), "http://doi.org/"@),
                    "doi:"@,
                ),
            );
            Some(("doi:"@ + bare, "https://doi.org/"@ + bare))
        },
        None => match field_of(e.fields, seq!["url"@, "howpublished"@]) {
            Some(u) if has_prefix(u, "https://"@) || has_prefix(u, "http://"@) => Some((u, u)),
            _ => match field_of(e.fields, seq!["eprint"@, "arxiv"@]) {
                Some(p) => Some(("arXiv:"@ + p, "https://arxiv.org/abs/"@ + p)),
                None => None,
            },
        },
    }
}

/// `s` with each `--` set as one en dash, left to right.
pub open spec fn dashed(s: Seq<char>) -> Seq<char>
    decreases s.len(),
{
    if s.len() >= 2 && s[0] == '-' && s[1] == '-' {
        seq!['\u{2013}'] + dashed(s.skip(2))
    } else if s.len() > 0 {
        seq![s[0]] + dashed(s.skip(1))
    } else {
        Seq::empty()
    }
}

/// Volume, issue and pages: `29(5), 502–528`.
pub open spec fn locator_spec(e: EntryView) -> Seq<char> {
    let head = match (field_of(e.fields, seq!["volume"@]), field_of(e.fields, seq!["number"@, "issue"@])) {
        (Some(v), Some(n)) => escape_spec(v) + "("@ + escape_spec(n) + ")"@,
        (Some(v), None) => escape_spec(v),
        (None, Some(n)) => "no. "@ + escape_spec(n),
        (None, None) => Seq::empty(),
    };
    match field_of(e.fields, seq!["pages"@]) {
        Some(p) => (if head.len() > 0 {
            head + ", "@
        } else {
            head
        }) + escape_spec(dashed(p)),
        None => head,
    }
}

pub open spec fn container_names() -> Seq<Seq<char>> {
    seq![
        "journal"@,
        "booktitle"@,
        "venue"@,
        "publisher"@,
        "school"@,
        "institution"@,
        "howpublished"@,
        "series"@,
    ]
}

/// Venue, locators and year as one clause.
pub open spec fn clause_spec(e: EntryView) -> Seq<char> {
    let c0 = match field_of(e.fields, container_names()) {
        Some(c) => escape_spec(c),
        None => Seq::empty(),
    };
    let loc = locator_spec(e);
    let c1 = if loc.len() > 0 {
        (if c0.len() > 0 {
            c0.push(' ')
        } else {
            c0
        }) + loc
    } else {
        c0
    };
    match year_spec(e) {
        Some(y) => (if c1.len() > 0 {
            c1 + ", "@
        } else {
            c1
        }) + escape_spec(y),
        None => c1,
    }
}

/// The parts of a reference: authors, title, the clause — each when present.
pub open spec fn parts_spec(e: EntryView) -> Seq<Seq<char>> {
    let p0: Seq<Seq<char>> = match author_display_spec(e) {
        Some(a) => seq![escape_spec(a)],
        None => Seq::empty(),
    };
    let p1 = match field_of(e.fields, seq!["title"@]) {
        Some(t) => p0.push("<em>"@ + escape_spec(t) + "</em>"@),
        None => p0,
    };
    let c = clause_spec(e);
    if c.len() > 0 {
        p1.push(c)
    } else {
        p1
    }
}

/// Clauses separated by a full stop and a space — one stop, even after a
/// clause that already ends in one.
pub open spec fn sentences(parts: Seq<Seq<char>>) -> Seq<char>
    decreases parts.len(),
{
    if parts.len() == 0 {
        Seq::empty()
    } else {
        let o = sentences(parts.drop_last());
        if o.len() == 0 {
            parts.last()
        } else {
            (if o.last() == '.' {
                o
            } else {
                o.push('.')
            }).push(' ') + parts.last()
        }
    }
}

/// The reference as it reads in the list.
pub open spec fn html_spec(e: EntryView) -> Seq<char> {
    let s = sentences(parts_spec(e));
    let t = if s.len() > 0 && s.last() != '.' {
        s.push('.')
    } else {
        s
    };
    let u = match link_spec(e) {
        Some((text, href)) => (if t.len() > 0 {
            t.push(' ')
        } else {
            t
        }) + "<a href=\""@ + escape_spec(href) + "\">"@ + escape_spec(text) + "</a>"@,
        None => t,
    };
    if u.len() == 0 {
        escape_spec(e.key)
    } else {
        u
    }
}

/// The fields of an entry assembled from name/value pairs, names trimmed and
/// lowercased and values cleaned, a later pair winning over an earlier one.
pub open spec fn assembled(keys: Seq<Seq<char>>, vals: Seq<Seq<char>>) -> Map<Seq<char>, Seq<char>>
    decreases keys.len(),
{
    if keys.len() == 0 || vals.len() != keys.len() {
        Map::empty()
    } else {
        assembled(keys.drop_last(), vals.drop_last()).insert(
            lowercase(trim(keys.last())),
            clean_spec(vals.last()),
        )
    }
}

// ---------------------------------------------------------------------------
// Executed
// ---------------------------------------------------------------------------

/// The four characters that would otherwise close a tag or an attribute.
fn escape_chars(s: &Vec<char>) -> (r: Vec<char>)
    ensures
        r@ == escape_spec(s@),
{
    let mut out: Vec<char> = Vec::new();
    let mut i: usize = 0;
    while i < s.len()
        invariant
            i <= s.len(),
            out@ == escape_spec(s@.subrange(0, i as int)),
        decreases s.len() - i,
    {
        let c = s[i];
        if c == '&' {
            push_str(&mut out, "&amp;");
        } else if c == '<' {
            push_str(&mut out, "&lt;");
        } else if c == '>' {
            push_str(&mut out, "&gt;");
        } else if c == '"' {
            push_str(&mut out, "&quot;");
        } else {
            out.push(c);
        }
        assert(s@.subrange(0, i + 1).drop_last() == s@.subrange(0, i as int));
        i += 1;
    }
    assert(s@.subrange(0, s@.len() as int) == s@);
    out
}

/// The four characters that would otherwise close a tag or an attribute.
pub fn escape(s: &str) -> (r: String)
    ensures
        r@ == escape_spec(s@),
{
    let cs = chars_of(s);
    let e = escape_chars(&cs);
    string_of(e.as_slice())
}

/// Text with the four entities `escape` writes read back, left to right:
/// `&amp;`, `&lt;`, `&gt;` and `&quot;` each one character, anything else
/// itself.
pub open spec fn unescaped(t: Seq<char>) -> Seq<char>
    decreases t.len(),
{
    if t.len() == 0 {
        Seq::empty()
    } else if t.len() >= 5 && t.take(5) == "&amp;"@ {
        seq!['&'] + unescaped(t.skip(5))
    } else if t.len() >= 4 && t.take(4) == "&lt;"@ {
        seq!['<'] + unescaped(t.skip(4))
    } else if t.len() >= 4 && t.take(4) == "&gt;"@ {
        seq!['>'] + unescaped(t.skip(4))
    } else if t.len() >= 6 && t.take(6) == "&quot;"@ {
        seq!['"'] + unescaped(t.skip(6))
    } else {
        seq![t[0]] + unescaped(t.skip(1))
    }
}

proof fn lemma_escape_concat(a: Seq<char>, b: Seq<char>)
    ensures
        escape_spec(a + b) == escape_spec(a) + escape_spec(b),
    decreases b.len(),
{
    if b.len() == 0 {
        assert(a + b =~= a);
        assert(escape_spec(a) + escape_spec(b) =~= escape_spec(a));
    } else {
        lemma_escape_concat(a, b.drop_last());
        assert((a + b).drop_last() =~= a + b.drop_last());
        assert((a + b).last() == b.last());
    }
}

proof fn lemma_entities()
    ensures
        "&amp;"@ =~= seq!['&', 'a', 'm', 'p', ';'],
        "&lt;"@ =~= seq!['&', 'l', 't', ';'],
        "&gt;"@ =~= seq!['&', 'g', 't', ';'],
        "&quot;"@ =~= seq!['&', 'q', 'u', 'o', 't', ';'],
{
    reveal_strlit("&amp;");
    reveal_strlit("&lt;");
    reveal_strlit("&gt;");
    reveal_strlit("&quot;");
}

/// What [`escape`] writes holds no `<`, `>` or `"`, and reading its
/// entities back gives the text it was given.
pub proof fn lemma_escape_reads_back(s: Seq<char>)
    ensures
        forall|i: int|
            0 <= i < escape_spec(s).len() ==> #[trigger] escape_spec(s)[i] != '<'
                && escape_spec(s)[i] != '>' && escape_spec(s)[i] != '"',
        unescaped(escape_spec(s)) == s,
    decreases s.len(),
{
    lemma_entities();
    if s.len() > 0 {
        let rest = s.skip(1);
        lemma_escape_reads_back(rest);
        assert(s =~= seq![s[0]] + rest);
        lemma_escape_concat(seq![s[0]], rest);
        assert(seq![s[0]].drop_last() =~= Seq::<char>::empty());
        let head = escape_char(s[0]);
        assert(escape_spec(Seq::<char>::empty()) =~= Seq::<char>::empty());
        assert(escape_spec(seq![s[0]]) == escape_spec(seq![s[0]].drop_last()) + escape_char(
            seq![s[0]].last(),
        ));
        assert(escape_spec(seq![s[0]]) =~= head);
        let t = head + escape_spec(rest);
        assert(escape_spec(s) == t);
        assert(t.take(head.len() as int) =~= head);
        assert(t.skip(head.len() as int) =~= escape_spec(rest));
        if s[0] == '&' || s[0] == '<' || s[0] == '>' || s[0] == '"' {
            assert(t.take(head.len() as int) == head);
        } else {
            assert(head =~= seq![s[0]]);
            assert(t[0] == s[0]);
            if t.len() >= 5 {
                assert(t.take(5)[0] == s[0]);
            }
            if t.len() >= 4 {
                assert(t.take(4)[0] == s[0]);
            }
            if t.len() >= 6 {
                assert(t.take(6)[0] == s[0]);
            }
        }
        assert(unescaped(t) =~= seq![s[0]] + rest);
        assert forall|i: int| 0 <= i < t.len() implies #[trigger] t[i] != '<' && t[i] != '>'
            && t[i] != '"' by {
            if i >= head.len() {
                assert(t[i] == escape_spec(rest)[i - head.len()]);
            }
        }
    }
}

/// Whether `et al` in any case starts at `i`.
fn et_al_here(f: &Vec<char>, i: usize) -> (b: bool)
    ensures
        b == et_al_at(f@, i as int),
{
    if i > f.len() || f.len() - i < 5 {
        return false;
    }
    let n = ['e', 't', ' ', 'a', 'l'];
    let mut k: usize = 0;
    while k < 5
        invariant
            i + 5 <= f.len(),
            k <= 5,
            n@ == et_al_needle(),
            forall|q: int| 0 <= q < k ==> ascii_lower(#[trigger] f@[i + q]) == et_al_needle()[q],
        decreases 5 - k,
    {
        let c = f[i + k];
        let l = if 'A' <= c && c <= 'Z' {
            ((c as u32) + 32) as u8 as char
        } else {
            c
        };
        assert(l == ascii_lower(c)) by {
            if 'A' <= c && c <= 'Z' {
                assert(((c as u32) + 32) as u8 as char == ((c as u32) + 32) as char);
            }
        }
        if l != n[k] {
            return false;
        }
        k += 1;
    }
    true
}

/// The names in front of an `et al.`, when the field carries one.
fn find_et_al(field: &Vec<char>) -> (r: Option<Vec<char>>)
    ensures
        match r {
            Some(h) => et_al_head(field@) == Some(h@),
            None => et_al_head(field@) is None,
        },
{
    let mut i: usize = 0;
    while field.len() >= 5 && i <= field.len() - 5
        invariant
            i <= field.len(),
            et_al_from(field@, 0) == et_al_from(field@, i as int),
        decreases field.len() - i,
    {
        if et_al_here(field, i) {
            let head = slice(field, 0, i);
            let t = trimmed(&head);
            let s = strip_trailing(&t, ',', ',');
            return Some(trimmed(&s));
        }
        i += 1;
    }
    None
}

/// `s` without trailing `a`s and `b`s.
fn strip_trailing(s: &Vec<char>, a: char, b: char) -> (r: Vec<char>)
    ensures
        r@ == strip_end(s@, a, b),
{
    let mut j = s.len();
    assert(s@.subrange(0, s@.len() as int) == s@);
    while j > 0 && (s[j - 1] == a || s[j - 1] == b)
        invariant
            j <= s.len(),
            strip_end(s@, a, b) == strip_end(s@.subrange(0, j as int), a, b),
        decreases j,
    {
        assert(s@.subrange(0, j as int).drop_last() == s@.subrange(0, j - 1));
        j -= 1;
    }
    assert(s@.subrange(0, s@.len() as int) == s@);
    slice(s, 0, j)
}

pub open spec fn views(v: Seq<Vec<char>>) -> Seq<Seq<char>> {
    v.map_values(|x: Vec<char>| x@)
}

/// Splits on BibTeX's ` and ` separator.
fn split_authors(list: &Vec<char>) -> (r: Vec<Vec<char>>)
    ensures
        views(r@) == split_authors_spec(list@),
{
    let sep = vec![' ', 'a', 'n', 'd', ' '];
    assert(sep@ == and_sep());
    let mut pieces: Vec<Vec<char>> = Vec::new();
    let mut from: usize = 0;
    loop
        invariant_except_break
            from <= list.len(),
            sep@ == and_sep(),
            and_pieces(list@, 0) == views(pieces@) + and_pieces(list@, from as int),
        ensures
            views(pieces@) == and_pieces(list@, 0),
        decreases list.len() - from,
    {
        proof {
            lemma_first_at_some(list@, sep@, from as int);
        }
        match find_from(list, &sep, from) {
            Some(at) => {
                let piece = slice(list, from, at);
                let t = trimmed(&piece);
                let ghost before = views(pieces@);
                pieces.push(t);
                assert(views(pieces@) == before.push(t@));
                assert(and_pieces(list@, from as int) == seq![t@] + and_pieces(
                    list@,
                    at + 5,
                ));
                assert(views(pieces@) + and_pieces(list@, at + 5) == before + and_pieces(
                    list@,
                    from as int,
                ));
                from = at + 5;
            },
            None => {
                let piece = slice(list, from, list.len());
                let t = trimmed(&piece);
                let ghost before = views(pieces@);
                pieces.push(t);
                assert(views(pieces@) == before.push(t@));
                assert(and_pieces(list@, from as int) == seq![t@]);
                assert(views(pieces@) =~= and_pieces(list@, 0));
                break ;
            },
        }
    }
    let mut out: Vec<Vec<char>> = Vec::new();
    let mut i: usize = 0;
    while i < pieces.len()
        invariant
            i <= pieces.len(),
            views(out@) == non_empty(views(pieces@).take(i as int)),
        decreases pieces.len() - i,
    {
        let ghost before = views(out@);
        assert(views(pieces@).take(i + 1).drop_last() == views(pieces@).take(i as int));
        if pieces[i].len() > 0 {
            out.push(pieces[i].clone());
            assert(views(out@) == before.push(pieces@[i as int]@));
        }
        i += 1;
    }
    assert(views(pieces@).take(pieces.len() as int) == views(pieces@));
    out
}

/// One author's surname.
fn surname(name: &Vec<char>) -> (r: Vec<char>)
    ensures
        r@ == surname_spec(name@),
{
    let t = trimmed(name);
    let s = strip_trailing(&t, '.', ',');
    let n = trimmed(&s);
    let comma = vec![','];
    assert(comma@ == seq![',']);
    proof {
        lemma_first_at_some(n@, comma@, 0);
    }
    match find_from(&n, &comma, 0) {
        Some(p) => {
            let head = slice(&n, 0, p);
            trimmed(&head)
        },
        None => {
            let mut j = n.len();
            while j > 0 && !is_space(n[j - 1])
                invariant
                    j <= n.len(),
                    word_start(n@, n@.len() as int) == word_start(n@, j as int),
                decreases j,
            {
                j -= 1;
            }
            slice(&n, j, n.len())
        },
    }
}

impl Entry {
    /// The entry's fields are its own.
    pub open spec fn fields_view(&self) -> Map<Seq<char>, Seq<char>> {
        self.fields@
    }

    /// An entry assembled from name/value pairs rather than parsed, which is
    /// how a bibliography written straight into frontmatter arrives.
    pub fn from_fields(key: &str, fields: &StrMap<String>) -> (r: Entry)
        ensures
            r.key@ == key@,
            r.kind@ == Seq::<char>::empty(),
            r.fields@ == assembled(fields.keys(), fields.values()),
    {
        let mut out: StrMap<String> = StrMap::new();
        let mut i: usize = 0;
        proof {
            fields.lemma_keys_len();
        }
        while i < fields.len()
            invariant
                i <= fields.spec_len(),
                fields.keys().len() == fields.spec_len(),
                fields.values().len() == fields.spec_len(),
                out@ == assembled(fields.keys().take(i as int), fields.values().take(i as int)),
            decreases fields.spec_len() - i,
        {
            let k = chars_of(fields.key_at(i).as_str());
            let v = chars_of(fields.value_at(i).as_str());
            let kt = trimmed(&k);
            let ks = string_of(kt.as_slice());
            let kl = to_lowercase(ks.as_str());
            let vc = clean(&v);
            out.insert(kl, string_of(vc.as_slice()));
            assert(fields.keys().take(i + 1).drop_last() == fields.keys().take(i as int));
            assert(fields.values().take(i + 1).drop_last() == fields.values().take(i as int));
            i += 1;
        }
        assert(fields.keys().take(i as int) == fields.keys());
        assert(fields.values().take(i as int) == fields.values());
        Entry { key: string_of(chars_of(key).as_slice()), kind: String::new(), fields: out }
    }

    /// The first of `names` this entry has, non-empty.
    pub fn field(&self, names: &[&str]) -> (r: Option<&str>)
        ensures
            match r {
                Some(v) => field_of(self.fields@, names@.map_values(|n: &str| n@)) == Some(v@),
                None => field_of(self.fields@, names@.map_values(|n: &str| n@)) is None,
            },
    {
        let ghost all = names@.map_values(|n: &str| n@);
        let mut i: usize = 0;
        assert(all.skip(0) == all);
        while i < names.len()
            invariant
                i <= names.len(),
                all == names@.map_values(|n: &str| n@),
                field_of(self.fields@, all) == field_of(self.fields@, all.skip(i as int)),
            decreases names.len() - i,
        {
            assert(all.skip(i as int).drop_first() == all.skip(i + 1));
            match self.fields.get(names[i]) {
                Some(v) => {
                    if v.as_str().is_empty() {
                        return None;
                    }
                    return Some(v.as_str());
                },
                None => {},
            }
            i += 1;
        }
        None
    }

    /// A field's characters, by the names it may go by.
    fn field_chars(&self, names: &[&str]) -> (r: Option<Vec<char>>)
        ensures
            match r {
                Some(v) => field_of(self.fields@, names@.map_values(|n: &str| n@)) == Some(v@),
                None => field_of(self.fields@, names@.map_values(|n: &str| n@)) is None,
            },
    {
        match self.field(names) {
            Some(v) => Some(chars_of(v)),
            None => None,
        }
    }

    /// Every author's surname, and whether the list was cut short — either by
    /// the field saying `et al.` itself or by this returning what it could.
    fn surnames(&self) -> (r: (Vec<Vec<char>>, bool))
        ensures
            (views(r.0@), r.1) == surnames_spec(self@),
    {
        let names = ["author", "editor"];
        assert(names@.map_values(|n: &str| n@) =~= author_names());
        let field = match self.field_chars(&names) {
            None => {
                let empty: Vec<Vec<char>> = Vec::new();
                assert(views(empty@) =~= Seq::<Seq<char>>::empty());
                return (empty, false);
            },
            Some(f) => f,
        };
        let (list, truncated) = match find_et_al(&field) {
            Some(h) => (h, true),
            None => (field, false),
        };
        let ps = split_authors(&list);
        let mut out: Vec<Vec<char>> = Vec::new();
        let mut i: usize = 0;
        while i < ps.len()
            invariant
                i <= ps.len(),
                views(out@) == surname_list(views(ps@).take(i as int)),
            decreases ps.len() - i,
        {
            let ghost before = views(out@);
            assert(views(ps@).take(i + 1).drop_last() == views(ps@).take(i as int));
            let sn = surname(&ps[i]);
            if sn.len() > 0 {
                out.push(sn);
                assert(views(out@) == before.push(sn@));
            }
            i += 1;
        }
        assert(views(ps@).take(ps.len() as int) == views(ps@));
        (out, truncated)
    }

    /// Authors as a reference list writes them: surnames only, at most three,
    /// then `et al.`, separated by commas and never by `and`.
    pub fn author_display(&self) -> (r: Option<String>)
        ensures
            match r {
                Some(a) => author_display_spec(self@) == Some(a@),
                None => author_display_spec(self@) is None,
            },
    {
        match self.author_display_chars() {
            Some(a) => Some(string_of(a.as_slice())),
            None => None,
        }
    }

    fn author_display_chars(&self) -> (r: Option<Vec<char>>)
        ensures
            match r {
                Some(a) => author_display_spec(self@) == Some(a@),
                None => author_display_spec(self@) is None,
            },
    {
        let (names, truncated) = self.surnames();
        let n = if names.len() < 3 {
            names.len()
        } else {
            3
        };
        if n == 0 {
            return None;
        }
        let ghost shown = views(names@).take(n as int);
        let mut out: Vec<char> = Vec::new();
        let mut i: usize = 0;
        while i < n
            invariant
                i <= n <= names.len(),
                shown == views(names@).take(n as int),
                out@ == join(shown.take(i as int), ", "@),
            decreases n - i,
        {
            assert(shown.take(i + 1).drop_last() == shown.take(i as int));
            if i > 0 {
                push_str(&mut out, ", ");
            } else {
                assert(shown.take(1) == seq![shown[0]]);
            }
            push_all(&mut out, &names[i]);
            i += 1;
        }
        assert(shown.take(n as int) == shown);
        if truncated || names.len() > 3 {
            push_str(&mut out, " et al.");
        } else {
            assert(out@ + Seq::<char>::empty() == out@);
        }
        Some(out)
    }

    /// What `[@key]` reads as under the author style: `Vaswani+17`. An entry
    /// with no author falls back to its own key.
    pub fn label(&self) -> (r: String)
        ensures
            r@ == label_spec(self@),
    {
        let (names, truncated) = self.surnames();
        if names.len() == 0 {
            return self.key.clone();
        }
        let mut out: Vec<char> = Vec::new();
        push_all(&mut out, &names[0]);
        if truncated || names.len() > 1 {
            push_str(&mut out, "+");
        } else {
            assert(out@ + Seq::<char>::empty() == out@);
        }
        match self.short_year() {
            Some(y) => push_all(&mut out, &y),
            None => {
                assert(out@ + Seq::<char>::empty() == out@);
            },
        }
        string_of(out.as_slice())
    }

    fn year(&self) -> (r: Option<Vec<char>>)
        ensures
            match r {
                Some(y) => year_spec(self@) == Some(y@),
                None => year_spec(self@) is None,
            },
    {
        let names = ["year", "date"];
        assert(names@.map_values(|n: &str| n@) =~= seq!["year"@, "date"@]);
        self.field_chars(&names)
    }

    /// The last two digits of the year, for a label.
    fn short_year(&self) -> (r: Option<Vec<char>>)
        ensures
            match r {
                Some(y) => short_year_spec(self@) == Some(y@),
                None => short_year_spec(self@) is None,
            },
    {
        let y = match self.year() {
            Some(y) => y,
            None => return None,
        };
        let mut a: usize = 0;
        while a < y.len() && !('0' <= y[a] && y[a] <= '9')
            invariant
                a <= y.len(),
                digit_start(y@, 0) == digit_start(y@, a as int),
            decreases y.len() - a,
        {
            a += 1;
        }
        let mut b: usize = a;
        while b < y.len() && '0' <= y[b] && y[b] <= '9'
            invariant
                a <= b <= y.len(),
                digit_end(y@, a as int) == digit_end(y@, b as int),
            decreases y.len() - b,
        {
            b += 1;
        }
        if b - a >= 2 {
            Some(slice(&y, b - 2, b))
        } else {
            None
        }
    }

    /// Where to read it: the DOI if there is one, else the URL, else the arXiv
    /// identifier. The text to show and the address to go to.
    fn link(&self) -> (r: Option<(Vec<char>, Vec<char>)>)
        ensures
            match r {
                Some((t, h)) => link_spec(self@) == Some((t@, h@)),
                None => link_spec(self@) is None,
            },
    {
        let doi_names = ["doi"];
        assert(doi_names@.map_values(|n: &str| n@) =~= seq!["doi"@]);
        if let Some(doi) = self.field_chars(&doi_names) {
            let a = strip_prefixes(&doi, &chars_of("https://doi.org/"));
            let b = strip_prefixes(&a, &chars_of("http://doi.org/"));
            let c = strip_prefixes(&b, &chars_of("doi:"));
            let bare = trimmed(&c);
            let mut text: Vec<char> = Vec::new();
            push_str(&mut text, "doi:");
            push_all(&mut text, &bare);
            let mut href: Vec<char> = Vec::new();
            push_str(&mut href, "https://doi.org/");
            push_all(&mut href, &bare);
            return Some((text, href));
        }
        let url_names = ["url", "howpublished"];
        assert(url_names@.map_values(|n: &str| n@) =~= seq!["url"@, "howpublished"@]);
        if let Some(u) = self.field_chars(&url_names) {
            if crate::text::starts_with(&u, &chars_of("https://")) || crate::text::starts_with(
                &u,
                &chars_of("http://"),
            ) {
                return Some((u.clone(), u));
            }
        }
        let eprint_names = ["eprint", "arxiv"];
        assert(eprint_names@.map_values(|n: &str| n@) =~= seq!["eprint"@, "arxiv"@]);
        match self.field_chars(&eprint_names) {
            Some(p) => {
                let mut text: Vec<char> = Vec::new();
                push_str(&mut text, "arXiv:");
                push_all(&mut text, &p);
                let mut href: Vec<char> = Vec::new();
                push_str(&mut href, "https://arxiv.org/abs/");
                push_all(&mut href, &p);
                Some((text, href))
            },
            None => None,
        }
    }

    /// Volume, issue and pages as a reference list writes them: `29(5),
    /// 502–528`. Empty when the entry carries none.
    fn locator(&self) -> (r: Vec<char>)
        ensures
            r@ == locator_spec(self@),
    {
        let vol_names = ["volume"];
        assert(vol_names@.map_values(|n: &str| n@) =~= seq!["volume"@]);
        let num_names = ["number", "issue"];
        assert(num_names@.map_values(|n: &str| n@) =~= seq!["number"@, "issue"@]);
        let page_names = ["pages"];
        assert(page_names@.map_values(|n: &str| n@) =~= seq!["pages"@]);
        let mut out: Vec<char> = Vec::new();
        match (self.field_chars(&vol_names), self.field_chars(&num_names)) {
            (Some(v), Some(n)) => {
                push_all(&mut out, &escape_chars(&v));
                push_str(&mut out, "(");
                push_all(&mut out, &escape_chars(&n));
                push_str(&mut out, ")");
            },
            (Some(v), None) => {
                push_all(&mut out, &escape_chars(&v));
            },
            (None, Some(n)) => {
                push_str(&mut out, "no. ");
                push_all(&mut out, &escape_chars(&n));
            },
            (None, None) => {},
        }
        if let Some(p) = self.field_chars(&page_names) {
            if out.len() > 0 {
                push_str(&mut out, ", ");
            }
            let d = en_dashes(&p);
            push_all(&mut out, &escape_chars(&d));
        }
        out
    }

    /// The reference as it reads in the list: authors, title, where it
    /// appeared, and a link to it. HTML, with every field escaped.
    pub fn html(&self) -> (r: String)
        ensures
            r@ == html_spec(self@),
    {
        let mut parts: Vec<Vec<char>> = Vec::new();
        if let Some(a) = self.author_display_chars() {
            parts.push(escape_chars(&a));
        }
        let title_names = ["title"];
        assert(title_names@.map_values(|n: &str| n@) =~= seq!["title"@]);
        if let Some(t) = self.field_chars(&title_names) {
            let mut p: Vec<char> = Vec::new();
            push_str(&mut p, "<em>");
            push_all(&mut p, &escape_chars(&t));
            push_str(&mut p, "</em>");
            parts.push(p);
        }
        let clause = self.clause();
        if clause.len() > 0 {
            parts.push(clause);
        }
        assert(views(parts@) =~= parts_spec(self@));
        let mut out: Vec<char> = Vec::new();
        let mut i: usize = 0;
        while i < parts.len()
            invariant
                i <= parts.len(),
                out@ == sentences(views(parts@).take(i as int)),
            decreases parts.len() - i,
        {
            assert(views(parts@).take(i + 1).drop_last() == views(parts@).take(i as int));
            if out.len() > 0 {
                if out[out.len() - 1] != '.' {
                    out.push('.');
                }
                out.push(' ');
            }
            push_all(&mut out, &parts[i]);
            i += 1;
        }
        assert(views(parts@).take(parts.len() as int) == views(parts@));
        if out.len() > 0 && out[out.len() - 1] != '.' {
            out.push('.');
        }
        if let Some((text, href)) = self.link() {
            if out.len() > 0 {
                out.push(' ');
            }
            push_str(&mut out, "<a href=\"");
            push_all(&mut out, &escape_chars(&href));
            push_str(&mut out, "\">");
            push_all(&mut out, &escape_chars(&text));
            push_str(&mut out, "</a>");
        }
        if out.len() == 0 {
            return escape(self.key.as_str());
        }
        string_of(out.as_slice())
    }

    /// Where it appeared, as one clause: venue, locators, year.
    fn clause(&self) -> (r: Vec<char>)
        ensures
            r@ == clause_spec(self@),
    {
        let names = [
            "journal",
            "booktitle",
            "venue",
            "publisher",
            "school",
            "institution",
            "howpublished",
            "series",
        ];
        assert(names@.map_values(|n: &str| n@) =~= container_names());
        let mut clause: Vec<char> = match self.field_chars(&names) {
            Some(c) => escape_chars(&c),
            None => Vec::new(),
        };
        let loc = self.locator();
        if loc.len() > 0 {
            if clause.len() > 0 {
                clause.push(' ');
            }
            push_all(&mut clause, &loc);
        }
        if let Some(y) = self.year() {
            if clause.len() > 0 {
                push_str(&mut clause, ", ");
            }
            push_all(&mut clause, &escape_chars(&y));
        }
        clause
    }
}

/// `s` with every leading copy of `p` removed.
fn strip_prefixes(s: &Vec<char>, p: &Vec<char>) -> (r: Vec<char>)
    ensures
        r@ == strip_all_prefix(s@, p@),
{
    let mut i: usize = 0;
    if p.len() == 0 {
        return slice(s, 0, s.len());
    }
    assert(s@.skip(0) == s@);
    loop
        invariant
            i <= s.len(),
            p.len() > 0,
            strip_all_prefix(s@, p@) == strip_all_prefix(s@.skip(i as int), p@),
        decreases s.len() - i,
    {
        if crate::text::matches_at(s, p, i) {
            assert(s@.skip(i as int).subrange(0, p@.len() as int) == s@.subrange(i as int, i + p@.len()));
            assert(s@.skip(i as int).skip(p@.len() as int) == s@.skip(i + p@.len()));
            i += p.len();
        } else {
            assert(!has_prefix(s@.skip(i as int), p@)) by {
                if has_prefix(s@.skip(i as int), p@) {
                    assert(s@.skip(i as int).subrange(0, p@.len() as int) == s@.subrange(i as int, i + p@.len()));
                }
            }
            return slice(s, i, s.len());
        }
    }
}

/// Each `--` as one en dash, left to right.
fn en_dashes(s: &Vec<char>) -> (r: Vec<char>)
    ensures
        r@ == dashed(s@),
{
    let mut out: Vec<char> = Vec::new();
    let mut i: usize = 0;
    assert(s@.skip(0) == s@);
    while i < s.len()
        invariant
            i <= s.len(),
            dashed(s@) == out@ + dashed(s@.skip(i as int)),
        decreases s.len() - i,
    {
        if i + 1 < s.len() && s[i] == '-' && s[i + 1] == '-' {
            out.push('\u{2013}');
            assert(s@.skip(i as int).skip(2) == s@.skip(i + 2));
            i += 2;
        } else {
            out.push(s[i]);
            assert(s@.skip(i as int).skip(1) == s@.skip(i + 1));
            i += 1;
        }
    }
    assert(s@.skip(i as int).len() == 0);
    out
}


// ---------------------------------------------------------------------------
// Escaping read back by replacing
// ---------------------------------------------------------------------------

/// `s` with each occurrence of `p` replaced by `r`, read left to right and
/// without overlaps, as `str::replace` does.
pub open spec fn replaced_all(s: Seq<char>, p: Seq<char>, r: Seq<char>) -> Seq<char>
    decreases s.len(),
{
    if p.len() == 0 || s.len() < p.len() {
        s
    } else if s.take(p.len() as int) == p {
        r + replaced_all(s.skip(p.len() as int), p, r)
    } else {
        seq![s[0]] + replaced_all(s.skip(1), p, r)
    }
}

/// The four replacements that read an escaped text back: `&quot;`, `&gt;`
/// and `&lt;` first, `&amp;` last.
pub open spec fn entities_replaced(t: Seq<char>) -> Seq<char> {
    replaced_all(
        replaced_all(replaced_all(replaced_all(t, "&quot;"@, "\""@), "&gt;"@, ">"@), "&lt;"@, "<"@),
        "&amp;"@,
        "&"@,
    )
}

/// Each character of `s` written as `f` writes it.
pub open spec fn written(s: Seq<char>, f: spec_fn(char) -> Seq<char>) -> Seq<char>
    decreases s.len(),
{
    if s.len() == 0 {
        Seq::empty()
    } else {
        f(s[0]) + written(s.skip(1), f)
    }
}

/// A piece that no occurrence of `p` starts in: it starts with `&` only
/// when its second character differs from `p`'s, and holds no other `&`.
pub open spec fn passes(piece: Seq<char>, p: Seq<char>) -> bool {
    &&& piece.len() > 0
    &&& forall|i: int| 0 < i < piece.len() ==> piece[i] != '&'
    &&& piece[0] == '&' ==> piece.len() >= 2 && piece[1] != p[1]
}

/// Replacing in a piece that no occurrence starts in, followed by more,
/// replaces only in what follows.
proof fn lemma_replace_passes(piece: Seq<char>, x: Seq<char>, p: Seq<char>, r: Seq<char>, j: int)
    requires
        p.len() >= 2,
        p[0] == '&',
        passes(piece, p),
        0 <= j <= piece.len(),
    ensures
        replaced_all(piece.skip(j) + x, p, r) == piece.skip(j) + replaced_all(x, p, r),
    decreases piece.len() - j,
{
    let s = piece.skip(j) + x;
    if j < piece.len() {
        lemma_replace_passes(piece, x, p, r, j + 1);
        assert(s.skip(1) =~= piece.skip(j + 1) + x);
        if s.len() >= p.len() {
            assert(s.take(p.len() as int) != p) by {
                if s.take(p.len() as int) == p {
                    assert(s[0] == piece[j]);
                    if j > 0 {
                        assert(s.take(p.len() as int)[0] == s[0]);
                    } else {
                        assert(s[1] == piece[1]);
                        assert(s.take(p.len() as int)[1] == s[1]);
                    }
                }
            }
            assert(piece.skip(j) =~= seq![piece[j]] + piece.skip(j + 1));
        } else {
            assert(x.len() < p.len());
            assert(piece.skip(j + 1) + x == s.skip(1));
        }
    } else {
        assert(s =~= x);
    }
}

/// One replacement turns the pieces `f` writes into those `g` writes: `g`
/// writes `target` as `r` where `f` wrote `p`, and every other character
/// as `f` did, in a piece no occurrence of `p` starts in.
proof fn lemma_replace_step(
    s: Seq<char>,
    f: spec_fn(char) -> Seq<char>,
    g: spec_fn(char) -> Seq<char>,
    target: char,
    p: Seq<char>,
    r: Seq<char>,
)
    requires
        p.len() >= 2,
        p[0] == '&',
        f(target) == p,
        g(target) == r,
        forall|c: char| c != target ==> #[trigger] g(c) == f(c) && passes(f(c), p),
    ensures
        replaced_all(written(s, f), p, r) == written(s, g),
    decreases s.len(),
{
    if s.len() > 0 {
        let rest = s.skip(1);
        lemma_replace_step(rest, f, g, target, p, r);
        let x = written(rest, f);
        let t = f(s[0]) + x;
        if s[0] == target {
            assert(t.take(p.len() as int) =~= p);
            assert(t.skip(p.len() as int) =~= x);
        } else {
            assert(g(s[0]) == f(s[0]));
            lemma_replace_passes(f(s[0]), x, p, r, 0);
            assert(f(s[0]).skip(0) =~= f(s[0]));
        }
    }
}

proof fn lemma_written_escape(s: Seq<char>)
    ensures
        written(s, |c: char| escape_char(c)) == escape_spec(s),
    decreases s.len(),
{
    if s.len() > 0 {
        let rest = s.skip(1);
        lemma_written_escape(rest);
        assert(s =~= seq![s[0]] + rest);
        lemma_escape_concat(seq![s[0]], rest);
        assert(seq![s[0]].drop_last() =~= Seq::<char>::empty());
        assert(escape_spec(Seq::<char>::empty()) =~= Seq::<char>::empty());
        assert(escape_spec(seq![s[0]]) =~= escape_char(s[0]));
    }
}

proof fn lemma_written_plain(s: Seq<char>)
    ensures
        written(s, |c: char| seq![c]) == s,
    decreases s.len(),
{
    if s.len() > 0 {
        lemma_written_plain(s.skip(1));
        assert(s =~= seq![s[0]] + s.skip(1));
    }
}

/// Escaping is read back by replacing the entities in turn, `&quot;`,
/// `&gt;`, `&lt;`, then `&amp;`: an `&` the text held comes out of its
/// `&amp;` only once nothing is left for it to run into.
pub proof fn lemma_escape_replaced_back(s: Seq<char>)
    ensures
        entities_replaced(escape_spec(s)) == s,
{
    lemma_entities();
    reveal_strlit("\"");
    reveal_strlit(">");
    reveal_strlit("<");
    reveal_strlit("&");
    assert("\""@ =~= seq!['"']);
    assert(">"@ =~= seq!['>']);
    assert("<"@ =~= seq!['<']);
    assert("&"@ =~= seq!['&']);
    let f0 = |c: char| escape_char(c);
    let f1 = |c: char| if c == '"' { seq![c] } else { escape_char(c) };
    let f2 = |c: char| if c == '"' || c == '>' { seq![c] } else { escape_char(c) };
    let f3 = |c: char| if c == '"' || c == '>' || c == '<' { seq![c] } else { escape_char(c) };
    let f4 = |c: char| seq![c];
    lemma_written_escape(s);
    lemma_replace_step(s, f0, f1, '"', "&quot;"@, "\""@);
    lemma_replace_step(s, f1, f2, '>', "&gt;"@, ">"@);
    lemma_replace_step(s, f2, f3, '<', "&lt;"@, "<"@);
    lemma_replace_step(s, f3, f4, '&', "&amp;"@, "&"@);
    lemma_written_plain(s);
}

// ---------------------------------------------------------------------------
// Markup in a field stays text
// ---------------------------------------------------------------------------

/// `t` stands in `s` from `i` on.
pub open spec fn stands_at(s: Seq<char>, i: int, t: Seq<char>) -> bool {
    0 <= i && i + t.len() <= s.len() && s.subrange(i, i + t.len()) == t
}

/// One of the four tags a reference is written with opens at `i`.
pub open spec fn tag_at(s: Seq<char>, i: int) -> bool {
    ||| stands_at(s, i, "<em>"@)
    ||| stands_at(s, i, "</em>"@)
    ||| stands_at(s, i, "<a href=\""@)
    ||| stands_at(s, i, "</a>"@)
}

/// Every `<` in `s` opens one of the four tags.
pub open spec fn only_tags(s: Seq<char>) -> bool {
    forall|i: int| 0 <= i < s.len() && s[i] == '<' ==> #[trigger] tag_at(s, i)
}

proof fn lemma_stands_in_cat(a: Seq<char>, b: Seq<char>, i: int, t: Seq<char>)
    ensures
        stands_at(a, i, t) ==> stands_at(a + b, i, t),
        stands_at(b, i, t) ==> stands_at(a + b, a.len() + i, t),
{
    if stands_at(a, i, t) {
        assert((a + b).subrange(i, i + t.len()) =~= a.subrange(i, i + t.len()));
    }
    if stands_at(b, i, t) {
        assert((a + b).subrange(a.len() + i, a.len() + i + t.len()) =~= b.subrange(i, i + t.len()));
    }
}

proof fn lemma_only_tags_cat(a: Seq<char>, b: Seq<char>)
    ensures
        only_tags(a) && only_tags(b) ==> only_tags(a + b),
{
    if only_tags(a) && only_tags(b) {
        assert forall|i: int| 0 <= i < (a + b).len() && (a + b)[i] == '<' implies #[trigger] tag_at(
            a + b,
            i,
        ) by {
            if i < a.len() {
                assert(a[i] == '<');
                assert(tag_at(a, i));
                lemma_stands_in_cat(a, b, i, "<em>"@);
                lemma_stands_in_cat(a, b, i, "</em>"@);
                lemma_stands_in_cat(a, b, i, "<a href=\""@);
                lemma_stands_in_cat(a, b, i, "</a>"@);
            } else {
                let j = i - a.len();
                assert(b[j] == '<');
                assert(tag_at(b, j));
                lemma_stands_in_cat(a, b, j, "<em>"@);
                lemma_stands_in_cat(a, b, j, "</em>"@);
                lemma_stands_in_cat(a, b, j, "<a href=\""@);
                lemma_stands_in_cat(a, b, j, "</a>"@);
            }
        }
    }
}

/// Text without a `<` holds no tag to worry about.
proof fn lemma_plain(s: Seq<char>)
    requires
        forall|i: int| 0 <= i < s.len() ==> s[i] != '<',
    ensures
        only_tags(s),
{
}

proof fn lemma_escaped_only_tags(s: Seq<char>)
    ensures
        only_tags(escape_spec(s)),
{
    lemma_escape_reads_back(s);
}

proof fn lemma_pieces_only_tags()
    ensures
        only_tags("<em>"@),
        only_tags("</em>"@),
        only_tags("<a href=\""@),
        only_tags("\">"@),
        only_tags("</a>"@),
        only_tags(", "@),
        only_tags("("@),
        only_tags(")"@),
        only_tags("no. "@),
        forall|c: char| c != '<' ==> only_tags(#[trigger] seq![c]),
        only_tags(Seq::<char>::empty()),
{
    reveal_strlit("<em>");
    reveal_strlit("</em>");
    reveal_strlit("<a href=\"");
    reveal_strlit("\">");
    reveal_strlit("</a>");
    reveal_strlit(", ");
    reveal_strlit("(");
    reveal_strlit(")");
    reveal_strlit("no. ");
    assert("<em>"@.subrange(0, 4) =~= "<em>"@);
    assert("</em>"@.subrange(0, 5) =~= "</em>"@);
    assert(stands_at("<em>"@, 0, "<em>"@));
    assert(stands_at("</em>"@, 0, "</em>"@));
    assert("<a href=\""@.subrange(0, 9) =~= "<a href=\""@);
    assert("</a>"@.subrange(0, 4) =~= "</a>"@);
    assert(stands_at("<a href=\""@, 0, "<a href=\""@));
    assert(stands_at("</a>"@, 0, "</a>"@));
    assert forall|c: char| c != '<' implies #[trigger] only_tags(seq![c]) by {
        lemma_plain(seq![c]);
    }
}

proof fn lemma_push_only_tags(s: Seq<char>, c: char)
    requires
        c != '<',
    ensures
        only_tags(s) ==> only_tags(s.push(c)),
{
    lemma_pieces_only_tags();
    assert(s.push(c) =~= s + seq![c]);
    lemma_only_tags_cat(s, seq![c]);
}

proof fn lemma_locator_only_tags(e: EntryView)
    ensures
        only_tags(locator_spec(e)),
{
    lemma_pieces_only_tags();
    let head = match (field_of(e.fields, seq!["volume"@]), field_of(e.fields, seq!["number"@, "issue"@])) {
        (Some(v), Some(n)) => {
            lemma_escaped_only_tags(v);
            lemma_escaped_only_tags(n);
            lemma_only_tags_cat(escape_spec(v), "("@);
            lemma_only_tags_cat(escape_spec(v) + "("@, escape_spec(n));
            lemma_only_tags_cat(escape_spec(v) + "("@ + escape_spec(n), ")"@);
            escape_spec(v) + "("@ + escape_spec(n) + ")"@
        },
        (Some(v), None) => {
            lemma_escaped_only_tags(v);
            escape_spec(v)
        },
        (None, Some(n)) => {
            lemma_escaped_only_tags(n);
            lemma_only_tags_cat("no. "@, escape_spec(n));
            "no. "@ + escape_spec(n)
        },
        (None, None) => Seq::empty(),
    };
    if let Some(p) = field_of(e.fields, seq!["pages"@]) {
        lemma_escaped_only_tags(dashed(p));
        lemma_only_tags_cat(head, ", "@);
        let h = if head.len() > 0 {
            head + ", "@
        } else {
            head
        };
        lemma_only_tags_cat(h, escape_spec(dashed(p)));
    }
}

proof fn lemma_clause_only_tags(e: EntryView)
    ensures
        only_tags(clause_spec(e)),
{
    lemma_pieces_only_tags();
    lemma_locator_only_tags(e);
    let c0 = match field_of(e.fields, container_names()) {
        Some(c) => {
            lemma_escaped_only_tags(c);
            escape_spec(c)
        },
        None => Seq::empty(),
    };
    let loc = locator_spec(e);
    lemma_push_only_tags(c0, ' ');
    let a = if c0.len() > 0 {
        c0.push(' ')
    } else {
        c0
    };
    lemma_only_tags_cat(a, loc);
    let c1 = if loc.len() > 0 {
        a + loc
    } else {
        c0
    };
    if let Some(y) = year_spec(e) {
        lemma_escaped_only_tags(y);
        lemma_only_tags_cat(c1, ", "@);
        let b = if c1.len() > 0 {
            c1 + ", "@
        } else {
            c1
        };
        lemma_only_tags_cat(b, escape_spec(y));
    }
}

proof fn lemma_parts_only_tags(e: EntryView)
    ensures
        forall|k: int| 0 <= k < parts_spec(e).len() ==> only_tags(#[trigger] parts_spec(e)[k]),
{
    lemma_pieces_only_tags();
    lemma_clause_only_tags(e);
    let p0: Seq<Seq<char>> = match author_display_spec(e) {
        Some(a) => {
            lemma_escaped_only_tags(a);
            seq![escape_spec(a)]
        },
        None => Seq::empty(),
    };
    if let Some(t) = field_of(e.fields, seq!["title"@]) {
        lemma_escaped_only_tags(t);
        lemma_only_tags_cat("<em>"@, escape_spec(t));
        lemma_only_tags_cat("<em>"@ + escape_spec(t), "</em>"@);
    }
}

proof fn lemma_sentences_only_tags(parts: Seq<Seq<char>>)
    requires
        forall|k: int| 0 <= k < parts.len() ==> only_tags(#[trigger] parts[k]),
    ensures
        only_tags(sentences(parts)),
    decreases parts.len(),
{
    lemma_pieces_only_tags();
    if parts.len() > 0 {
        let rest = parts.drop_last();
        assert forall|k: int| 0 <= k < rest.len() implies only_tags(#[trigger] rest[k]) by {
            assert(rest[k] == parts[k]);
        }
        lemma_sentences_only_tags(rest);
        let o = sentences(rest);
        assert(only_tags(parts.last()));
        lemma_push_only_tags(o, '.');
        let d = if o.len() > 0 && o.last() == '.' {
            o
        } else {
            o.push('.')
        };
        lemma_push_only_tags(d, ' ');
        lemma_only_tags_cat(d.push(' '), parts.last());
    }
}

/// Markup in a field cannot escape into the page: every `<` in a
/// reference as the list writes it opens one of the four tags the list
/// itself writes, `<em>`, `</em>`, `<a href="` or `</a>`, whatever the
/// entry's key and fields hold.
pub proof fn lemma_markup_stays_text(e: EntryView)
    ensures
        only_tags(html_spec(e)),
{
    lemma_pieces_only_tags();
    lemma_parts_only_tags(e);
    lemma_sentences_only_tags(parts_spec(e));
    let s = sentences(parts_spec(e));
    lemma_push_only_tags(s, '.');
    let t = if s.len() > 0 && s.last() != '.' {
        s.push('.')
    } else {
        s
    };
    if let Some((text, href)) = link_spec(e) {
        lemma_push_only_tags(t, ' ');
        let a = if t.len() > 0 {
            t.push(' ')
        } else {
            t
        };
        lemma_escaped_only_tags(href);
        lemma_escaped_only_tags(text);
        lemma_only_tags_cat(a, "<a href=\""@);
        lemma_only_tags_cat(a + "<a href=\""@, escape_spec(href));
        lemma_only_tags_cat(a + "<a href=\""@ + escape_spec(href), "\">"@);
        lemma_only_tags_cat(a + "<a href=\""@ + escape_spec(href) + "\">"@, escape_spec(text));
        lemma_only_tags_cat(a + "<a href=\""@ + escape_spec(href) + "\">"@ + escape_spec(text), "</a>"@);
    }
    lemma_escaped_only_tags(e.key);
}

} // verus!
