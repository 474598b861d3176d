//! The command line's own decisions: which command a mistyped word was
//! probably meant to be, the flags that shape a deck, which inputs are
//! Markdown, the deck `new` writes, and the frontmatter a built deck hands
//! over to the browser editor.
use vstd::prelude::*;
use crate::annot::ascii_lowered;
use crate::lsp::extension_of;
use crate::mermaid::says;
use crate::pdfimport::{file_name, file_name_of};
use crate::quotes::lowercase_ascii;
use crate::text::{
    chars_of, is, join, last_at, lemma_last_at_in, push_all, push_joined, push_str, rfind, slice,
    string_of, decimal, has_prefix, lemma_line_end, line_at, next_line,
};

verus! {

pub open spec fn min2(x: int, y: int) -> int {
    if x <= y {
        x
    } else {
        y
    }
}

/// The Levenshtein distance: single-character insertions, deletions and
/// substitutions, counted in characters rather than bytes.
pub open spec fn lev(a: Seq<char>, b: Seq<char>) -> int
    decreases a.len() + b.len(),
{
    if a.len() == 0 {
        b.len() as int
    } else if b.len() == 0 {
        a.len() as int
    } else {
        min2(
            min2(
                lev(a.drop_last(), b.drop_last()) + if a.last() != b.last() {
                    1int
                } else {
                    0int
                },
                lev(a.drop_last(), b) + 1,
            ),
            lev(a, b.drop_last()) + 1,
        )
    }
}

pub proof fn lemma_lev_bounds(a: Seq<char>, b: Seq<char>)
    ensures
        0 <= lev(a, b) <= a.len() + b.len(),
    decreases a.len() + b.len(),
{
    if a.len() > 0 && b.len() > 0 {
        lemma_lev_bounds(a.drop_last(), b.drop_last());
        lemma_lev_bounds(a.drop_last(), b);
        lemma_lev_bounds(a, b.drop_last());
    }
}

/// Edit distance is symmetric: turning `a` into `b` costs what turning `b`
/// into `a` does.
pub proof fn lemma_lev_symmetric(a: Seq<char>, b: Seq<char>)
    ensures
        lev(a, b) == lev(b, a),
    decreases a.len() + b.len(),
{
    if a.len() > 0 && b.len() > 0 {
        lemma_lev_symmetric(a.drop_last(), b.drop_last());
        lemma_lev_symmetric(a.drop_last(), b);
        lemma_lev_symmetric(a, b.drop_last());
    }
}

/// A word is no distance from itself.
pub proof fn lemma_lev_self(a: Seq<char>)
    ensures
        lev(a, a) == 0,
    decreases a.len(),
{
    if a.len() > 0 {
        lemma_lev_self(a.drop_last());
        lemma_lev_bounds(a.drop_last(), a);
        lemma_lev_bounds(a, a.drop_last());
    }
}

/// Levenshtein distance between two words, in characters.
pub fn edit_distance(a: &str, b: &str) -> (d: usize)
    requires
        a@.len() + b@.len() < usize::MAX,
    ensures
        d == lev(a@, b@),
{
    let av = chars_of(a);
    let bv = chars_of(b);
    let m = bv.len();
    let mut prev: Vec<usize> = Vec::new();
    let mut j: usize = 0;
    while j <= m
        invariant
            j <= m + 1,
            m == bv.len(),
            bv@ == b@,
            a@.len() + b@.len() < usize::MAX,
            prev@.len() == j,
            forall|k: int| 0 <= k < j ==> prev@[k] == lev(Seq::empty(), bv@.take(k)),
        decreases m + 1 - j,
    {
        prev.push(j);
        j += 1;
    }
    let mut curr: Vec<usize> = Vec::new();
    let mut k: usize = 0;
    while k <= m
        invariant
            k <= m + 1,
            m == bv.len(),
            bv@ == b@,
            a@.len() + b@.len() < usize::MAX,
            curr@.len() == k,
        decreases m + 1 - k,
    {
        curr.push(0);
        k += 1;
    }
    let mut i: usize = 0;
    while i < av.len()
        invariant
            i <= av.len(),
            m == bv.len(),
            av@ == a@,
            bv@ == b@,
            a@.len() + b@.len() < usize::MAX,
            prev@.len() == m + 1,
            curr@.len() == m + 1,
            forall|q: int| 0 <= q <= m ==> prev@[q] == lev(av@.take(i as int), bv@.take(q)),
        decreases av.len() - i,
    {
        proof {
            lemma_lev_bounds(av@.take(i + 1), bv@.take(0));
            assert(bv@.take(0).len() == 0);
        }
        curr.set(0, i + 1);
        let mut jj: usize = 0;
        while jj < m
            invariant
                i < av.len(),
                jj <= m,
                m == bv.len(),
                a@.len() + b@.len() < usize::MAX,
                av@.len() == a@.len(),
                bv@.len() == b@.len(),
                prev@.len() == m + 1,
                curr@.len() == m + 1,
                forall|q: int| 0 <= q <= m ==> prev@[q] == lev(av@.take(i as int), bv@.take(q)),
                forall|q: int| 0 <= q <= jj ==> curr@[q] == lev(av@.take(i + 1), bv@.take(q)),
            decreases m - jj,
        {
            let ghost x = av@.take(i + 1);
            let ghost y = bv@.take(jj + 1);
            proof {
                assert(x.drop_last() == av@.take(i as int));
                assert(y.drop_last() == bv@.take(jj as int));
                assert(x.last() == av@[i as int]);
                assert(y.last() == bv@[jj as int]);
                lemma_lev_bounds(av@.take(i as int), bv@.take(jj as int));
                lemma_lev_bounds(av@.take(i as int), y);
                lemma_lev_bounds(x, bv@.take(jj as int));
                lemma_lev_bounds(x, y);
            }
            let cost: usize = if av[i] != bv[jj] {
                1
            } else {
                0
            };
            let sub = prev[jj] + cost;
            let del = prev[jj + 1] + 1;
            let ins = curr[jj] + 1;
            let best = if sub <= del {
                sub
            } else {
                del
            };
            let best = if best <= ins {
                best
            } else {
                ins
            };
            curr.set(jj + 1, best);
            jj += 1;
        }
        std::mem::swap(&mut prev, &mut curr);
        i += 1;
    }
    assert(av@.take(av@.len() as int) == av@);
    assert(bv@.take(m as int) == bv@);
    prev[m]
}

pub open spec fn commands() -> Seq<Seq<char>> {
    seq!["new"@, "build"@, "serve"@, "export"@, "check"@, "skill"@]
}

/// `commands()[k]` is the command to suggest for `given`: within two edits,
/// and nearer than every command before it and no further than any after.
pub open spec fn is_suggestion(given: Seq<char>, k: int) -> bool {
    &&& 0 <= k < 6
    &&& lev(given, commands()[k]) <= 2
    &&& forall|j: int| 0 <= j < k ==> lev(given, commands()[j]) > lev(given, commands()[k])
    &&& forall|j: int| k < j < 6 ==> lev(given, commands()[j]) >= lev(given, commands()[k])
}

pub open spec fn suggestion_message(given: Seq<char>, cmd: Seq<char>) -> Seq<char> {
    "unknown command `"@ + given + "` - did you mean `"@ + cmd + "`?"@
}

pub open spec fn plain_message(given: Seq<char>) -> Seq<char> {
    "unknown command `"@ + given + "`"@
}

/// What to say about a word that is not a command: the nearest command within
/// two edits, if there is one.
pub fn unknown_command(given: &str) -> (r: String)
    requires
        given@.len() + 6 < usize::MAX,
    ensures
        (exists|k: int| is_suggestion(given@, k) && r@ == suggestion_message(given@, commands()[k]))
            || ((forall|k: int| 0 <= k < 6 ==> lev(given@, commands()[k]) > 2) && r@
            == plain_message(given@)),
{
    let names: [&str; 6] = ["new", "build", "serve", "export", "check", "skill"];
    proof {
        reveal_strlit("new");
        reveal_strlit("build");
        reveal_strlit("serve");
        reveal_strlit("export");
        reveal_strlit("check");
        reveal_strlit("skill");
    }
    assert(names@.map_values(|n: &str| n@) =~= commands());
    assert(forall|k: int| 0 <= k < 6 ==> (#[trigger] commands()[k]).len() <= 6);
    let mut best: Option<(usize, usize)> = None;
    let mut i: usize = 0;
    while i < 6
        invariant
            i <= 6,
            given@.len() + 6 < usize::MAX,
            names@.map_values(|n: &str| n@) == commands(),
            forall|k: int| 0 <= k < 6 ==> (#[trigger] commands()[k]).len() <= 6,
            match best {
                Some((d, k)) => k < i && d == lev(given@, commands()[k as int]) && d <= 2 && (forall|j: int|
                    0 <= j < k ==> lev(given@, commands()[j]) > d) && (forall|j: int|
                    k < j < i ==> lev(given@, commands()[j]) >= d),
                None => forall|j: int| 0 <= j < i ==> lev(given@, commands()[j]) > 2,
            },
        decreases 6 - i,
    {
        assert(names@[i as int]@ == commands()[i as int]);
        let d = edit_distance(given, names[i]);
        if d <= 2 {
            match best {
                Some((bd, _)) => {
                    if d < bd {
                        best = Some((d, i));
                    }
                },
                None => {
                    best = Some((d, i));
                },
            }
        }
        i += 1;
    }
    let mut msg: Vec<char> = Vec::new();
    push_str(&mut msg, "unknown command `");
    push_all(&mut msg, &chars_of(given));
    match best {
        Some((_, k)) => {
            push_str(&mut msg, "` - did you mean `");
            push_str(&mut msg, names[k]);
            push_str(&mut msg, "`?");
            assert(is_suggestion(given@, k as int));
        },
        None => {
            push_str(&mut msg, "`");
        },
    }
    string_of(msg.as_slice())
}


// ---------------------------------------------------------------------------
// Flags that shape a deck
// ---------------------------------------------------------------------------

/// Flags that shape the deck itself, as opposed to where it lands: `build`
/// and `export pdf` read them alike.
pub struct DeckArgs {
    pub split: Option<u8>,
    /// Themes in cascade order: a built-in name, or a path ending `.css`.
    pub theme: Vec<String>,
    /// Whether any of it arrived as the retired `--css`.
    pub css_alias: bool,
    pub fit: Option<String>,
    pub mode: Option<String>,
}

impl Default for DeckArgs {
    fn default() -> (r: DeckArgs)
        ensures
            r.split is None,
            r.theme@.len() == 0,
            !r.css_alias,
            r.fit is None,
            r.mode is None,
    {
        DeckArgs { split: None, theme: Vec::new(), css_alias: false, fit: None, mode: None }
    }
}

pub open spec fn texts(v: Seq<String>) -> Seq<Seq<char>> {
    v.map_values(|s: String| s@)
}

pub open spec fn opt_text(o: Option<String>) -> Option<Seq<char>> {
    match o {
        Some(s) => Some(s@),
        None => None,
    }
}

/// `DeckArgs` as values.
pub open spec fn deck_view(d: DeckArgs) -> (Option<u8>, Seq<Seq<char>>, bool, Option<Seq<char>>, Option<Seq<char>>) {
    (d.split, texts(d.theme@), d.css_alias, opt_text(d.fit), opt_text(d.mode))
}

/// The flags this reads.
pub open spec fn deck_flag(a: Seq<char>) -> bool {
    a == "--theme"@ || a == "--css"@ || a == "--fit"@ || a == "--mode"@ || a == "--split"@
}

/// The heading level a `--split` value names.
pub open spec fn split_level(v: Seq<char>) -> Option<u8> {
    if v == "h1"@ {
        Some(1)
    } else if v == "h2"@ {
        Some(2)
    } else if v == "h3"@ {
        Some(3)
    } else {
        None
    }
}

/// What `--theme` says when its value is neither a stylesheet nor a theme.
pub open spec fn theme_message(names: Seq<Seq<char>>) -> Seq<char> {
    "--theme takes a stylesheet path ending in .css, or one of: "@ + join(names, ", "@)
}

pub open spec fn str_texts(v: Seq<&str>) -> Seq<Seq<char>> {
    v.map_values(|s: &str| s@)
}

/// Whether `v` is one of `names`.
fn is_one_of(names: &[&str], v: &Vec<char>) -> (r: bool)
    ensures
        r == str_texts(names@).contains(v@),
{
    let mut k: usize = 0;
    while k < names.len()
        invariant
            k <= names@.len(),
            forall|j: int| 0 <= j < k ==> str_texts(names@)[j] != v@,
        decreases names@.len() - k,
    {
        let t = chars_of(names[k]);
        if crate::text::same(&t, v) {
            assert(str_texts(names@)[k as int] == v@);
            return true;
        }
        k += 1;
    }
    false
}

/// Tries to read one deck flag at `args[i]`. On one of them, moves `i` to
/// its value and answers `Some`: `Ok` with the value taken into `opts`, or
/// `Err` with the usage line for a missing or invalid value, `opts` left
/// alone. `None` leaves both alone, so the caller's own flags still get a
/// turn. A `--theme` value is taken when `is_theme_path` says it is a
/// stylesheet path, or when it is one of `theme_names`.
pub fn parse_deck_flag<P: Fn(&str) -> bool>(
    args: &Vec<String>,
    i: &mut usize,
    opts: &mut DeckArgs,
    theme_names: &[&str],
    is_theme_path: P,
) -> (r: Option<Result<(), String>>)
    requires
        *old(i) < args@.len(),
        forall|p: &str| is_theme_path.requires((p,)),
    ensures
        ({
            let a = args@[*old(i) as int]@;
            let next = if *old(i) + 1 < args@.len() {
                Some(args@[*old(i) + 1]@)
            } else {
                None
            };
            let before = deck_view(*old(opts));
            let after = deck_view(*final(opts));
            if !deck_flag(a) {
                r is None && *final(i) == *old(i) && after == before
            } else {
                &&& *final(i) == *old(i) + 1
                &&& r is Some
                &&& (r matches Some(Err(_)) ==> after == before)
                &&& (a == "--theme"@ ==> match r {
                    Some(Ok(())) => next matches Some(v) && (says(is_theme_path, v, true)
                        || str_texts(theme_names@).contains(v)) && after == (
                        before.0,
                        before.1.push(v),
                        before.2,
                        before.3,
                        before.4,
                    ),
                    Some(Err(e)) => e@ == theme_message(str_texts(theme_names@)) && (
                    next matches Some(v) ==> says(is_theme_path, v, false)
                        && !str_texts(theme_names@).contains(v)),
                    None => false,
                })
                &&& (a == "--css"@ ==> match next {
                    Some(v) => r == Some(Ok::<(), String>(())) && after == (
                        before.0,
                        before.1.push(v),
                        true,
                        before.3,
                        before.4,
                    ),
                    None => r matches Some(Err(e)) && e@ == "--css requires a stylesheet path"@,
                })
                &&& (a == "--fit"@ ==> if next == Some("shrink"@) {
                    r == Some(Ok::<(), String>(())) && after == (
                        before.0,
                        before.1,
                        before.2,
                        Some("shrink"@),
                        before.4,
                    )
                } else {
                    r matches Some(Err(e)) && e@ == "--fit takes shrink"@
                })
                &&& (a == "--mode"@ ==> if next == Some("light"@) || next == Some("dark"@) {
                    r == Some(Ok::<(), String>(())) && after == (
                        before.0,
                        before.1,
                        before.2,
                        before.3,
                        next,
                    )
                } else {
                    r matches Some(Err(e)) && e@ == "--mode takes light or dark"@
                })
                &&& (a == "--split"@ ==> match next {
                    Some(v) if split_level(v) is Some => r == Some(Ok::<(), String>(()))
                        && after == (split_level(v), before.1, before.2, before.3, before.4),
                    _ => r matches Some(Err(e)) && e@ == "--split takes h1, h2 or h3"@,
                })
            }
        }),
{
    let a = chars_of(args[*i].as_str());
    let at = *i;
    let n = args.len();
    let next: Option<Vec<char>> = if at + 1 < n {
        Some(chars_of(args[at + 1].as_str()))
    } else {
        None
    };
    let ghost before = deck_view(*opts);
    proof {
        reveal_strlit("--theme");
        reveal_strlit("--css");
        reveal_strlit("--fit");
        reveal_strlit("--mode");
        reveal_strlit("--split");
        assert("--theme"@.len() == 7);
        assert("--css"@.len() == 5);
        assert("--fit"@.len() == 5);
        assert("--mode"@.len() == 6);
        assert("--split"@.len() == 7);
        assert("--css"@[2] == 'c' && "--fit"@[2] == 'f' && "--theme"@[2] == 't');
        assert("--split"@[2] == 's');
    }
    if is(&a, "--theme") {
        assert(a@ != "--css"@ && a@ != "--fit"@ && a@ != "--mode"@ && a@ != "--split"@);
        *i = at + 1;
        match next {
            Some(v) => {
                let vs = string_of(v.as_slice());
                let path = is_theme_path(vs.as_str());
                assert(says(is_theme_path, v@, path));
                let named = is_one_of(theme_names, &v);
                if path || named {
                    let ghost old_theme = texts(opts.theme@);
                    opts.theme.push(vs);
                    assert(texts(opts.theme@) =~= old_theme.push(v@));
                    assert(deck_view(*opts) == (before.0, before.1.push(v@), before.2, before.3, before.4));
                    assert(at + 1 < args@.len());
                    assert(v@ == args@[at + 1]@);
                    return Some(Ok(()));
                }
            },
            None => {},
        }
        let mut msg = chars_of("--theme takes a stylesheet path ending in .css, or one of: ");
        push_joined(&mut msg, theme_names, ", ");
        assert(str_texts(theme_names@) =~= theme_names@.map_values(|p: &str| p@));
        assert(deck_view(*opts) == before);
        return Some(Err(string_of(msg.as_slice())));
    }
    if is(&a, "--css") {
        *i = at + 1;
        return match next {
            Some(v) => {
                let ghost old_theme = texts(opts.theme@);
                opts.theme.push(string_of(v.as_slice()));
                assert(texts(opts.theme@) =~= old_theme.push(v@));
                opts.css_alias = true;
                Some(Ok(()))
            },
            None => Some(Err(string_of(chars_of("--css requires a stylesheet path").as_slice()))),
        };
    }
    if is(&a, "--fit") {
        *i = at + 1;
        if let Some(v) = &next {
            if is(v, "shrink") {
                opts.fit = Some(string_of(chars_of("shrink").as_slice()));
                return Some(Ok(()));
            }
        }
        return Some(Err(string_of(chars_of("--fit takes shrink").as_slice())));
    }
    if is(&a, "--mode") {
        *i = at + 1;
        if let Some(v) = &next {
            if is(v, "light") || is(v, "dark") {
                opts.mode = Some(string_of(v.as_slice()));
                return Some(Ok(()));
            }
        }
        return Some(Err(string_of(chars_of("--mode takes light or dark").as_slice())));
    }
    if is(&a, "--split") {
        *i = at + 1;
        if let Some(v) = &next {
            if is(v, "h1") {
                opts.split = Some(1);
                return Some(Ok(()));
            } else if is(v, "h2") {
                opts.split = Some(2);
                return Some(Ok(()));
            } else if is(v, "h3") {
                opts.split = Some(3);
                return Some(Ok(()));
            }
        }
        return Some(Err(string_of(chars_of("--split takes h1, h2 or h3").as_slice())));
    }
    None
}

/// Whether a path looks like a Markdown source, `export pdf`'s only input:
/// its extension is `md`, in any case.
pub open spec fn markdown_source(path: Seq<char>) -> bool {
    match extension_of(file_name_of(path)) {
        Some(e) => ascii_lowered(e) == "md"@,
        None => false,
    }
}

pub fn is_markdown_path(path: &str) -> (r: bool)
    ensures
        r == markdown_source(path@),
{
    let name = chars_of(file_name(path).as_str());
    let dot = chars_of(".");
    let nlen = name.len();
    proof {
        reveal_strlit(".");
    }
    match rfind(&name, &dot) {
        Some(k) => {
            proof {
                lemma_last_at_in(name@, dot@, name@.len() as int);
            }
            if k == 0 {
                return false;
            }
            assert(k < nlen);
            let ext = lowercase_ascii(&slice(&name, k + 1, nlen));
            is(&ext, "md")
        },
        None => false,
    }
}


/// The deck `mirzam new` writes: frontmatter, a title slide, a slide break.
/// Short on purpose: everything in it is something an author keeps or
/// deletes on sight.
pub const TEMPLATE: &'static str = "---\ntitle: My deck\n---\n\n# My deck {.title-slide}\n\nWhat it is about, in one line\n\n---\n\n## The first point\n\nWrite Markdown. A `---` on its own line starts the next slide.\n";


// ---------------------------------------------------------------------------
// The frontmatter a handed-over deck carries
// ---------------------------------------------------------------------------

/// What `{:?}` writes for a string: the string quoted, with what needs it
/// escaped.
pub uninterp spec fn debug_quoted(s: Seq<char>) -> Seq<char>;

/// A string as `format!("{:?}")` writes it. Its result is named: it is the
/// string in double quotes with quotes, backslashes and unprintable
/// characters escaped, which is not stated here further.
#[verifier::external_body]
fn quoted(s: &str) -> (r: String)
    ensures
        r@ == debug_quoted(s@),
{
    format!("{:?}", s)
}

/// The lines of `s` from the one at `from` on (`str::lines`).
pub open spec fn lines_from(s: Seq<char>, from: int) -> Seq<Seq<char>>
    decreases s.len() + 1 - from,
    via lines_decrease
{
    if 0 <= from < s.len() {
        seq![line_at(s, from).unwrap()] + lines_from(s, next_line(s, from))
    } else {
        Seq::empty()
    }
}

#[via_fn]
proof fn lines_decrease(s: Seq<char>, from: int) {
    if 0 <= from < s.len() {
        lemma_line_end(s, from);
    }
}

/// The keys a deck's command line overrode, each with the value it was
/// built with: the themes (quoted, as a list) when `--theme` was given and
/// some took effect, the mode and the fit when given, and the split level.
pub open spec fn override_list(
    themes_given: bool,
    entries: Seq<Seq<char>>,
    mode_given: bool,
    mode: Option<Seq<char>>,
    fit_given: bool,
    fit: Option<Seq<char>>,
    split: Option<u8>,
) -> Seq<(Seq<char>, Seq<char>)> {
    (if themes_given && entries.len() > 0 {
        seq![("theme"@, "["@ + join(entries.map_values(|e: Seq<char>| debug_quoted(e)), ", "@) + "]"@)]
    } else {
        Seq::empty()
    }) + (match (mode_given, mode) {
        (true, Some(m)) => seq![("mode"@, m)],
        _ => Seq::empty(),
    }) + (match (fit_given, fit) {
        (true, Some(f)) => seq![("fit"@, f)],
        _ => Seq::empty(),
    }) + (match split {
        Some(l) => seq![("split"@, "h"@ + decimal(l as nat))],
        None => Seq::empty(),
    })
}

/// Whether a line sets one of the overridden keys, or the retired `css:`.
pub open spec fn replaced_by(line: Seq<char>, ov: Seq<(Seq<char>, Seq<char>)>) -> bool
    decreases ov.len(),
{
    if ov.len() == 0 {
        has_prefix(line, "css:"@)
    } else {
        has_prefix(line, ov.last().0 + ":"@) || replaced_by(line, ov.drop_last())
    }
}

pub open spec fn indented(line: Seq<char>) -> bool {
    line.len() > 0 && (line[0] == ' ' || line[0] == '\t' || line[0] == '-')
}

/// The frontmatter lines from `i` on that stay: a line setting an
/// overridden key goes, with whatever is indented under it.
pub open spec fn kept_from(
    lines: Seq<Seq<char>>,
    i: int,
    dropping: bool,
    ov: Seq<(Seq<char>, Seq<char>)>,
) -> Seq<Seq<char>>
    decreases lines.len() - i,
{
    if i < 0 || i >= lines.len() {
        Seq::empty()
    } else if dropping && indented(lines[i]) {
        kept_from(lines, i + 1, dropping, ov)
    } else {
        let d = !indented(lines[i]) && replaced_by(lines[i], ov);
        if d {
            kept_from(lines, i + 1, d, ov)
        } else {
            seq![lines[i]] + kept_from(lines, i + 1, d, ov)
        }
    }
}

/// Where the leading `\n`s of `s` end, from `i` on.
pub open spec fn newlines_end(s: Seq<char>, i: int) -> int
    decreases s.len() - i,
{
    if 0 <= i < s.len() && s[i] == '\n' {
        newlines_end(s, i + 1)
    } else {
        i
    }
}

/// Where `s[lo..j]` ends once its trailing `\n`s are gone.
pub open spec fn newlines_start(s: Seq<char>, lo: int, j: int) -> int
    decreases j - lo,
{
    if lo < j && j <= s.len() && s[j - 1] == '\n' {
        newlines_start(s, lo, j - 1)
    } else {
        j
    }
}

/// `s` without `\n`s at either end (`trim_matches('\n')`).
pub open spec fn trim_newlines(s: Seq<char>) -> Seq<char> {
    s.subrange(newlines_end(s, 0), newlines_start(s, newlines_end(s, 0), s.len() as int))
}

/// The frontmatter a deck hands over: what its file says, with each key
/// the command line overrode (`ov`) set to the value the deck was built
/// with; untouched when nothing was overridden.
pub open spec fn handover_of(fm: Option<Seq<char>>, ov: Seq<(Seq<char>, Seq<char>)>) -> Option<
    Seq<char>,
> {
    if ov.len() == 0 {
        fm
    } else {
        let authored = match fm {
            Some(t) => t,
            None => Seq::empty(),
        };
        let text = trim_newlines(
            join(
                kept_from(lines_from(authored, 0), 0, false, ov) + ov.map_values(
                    |kv: (Seq<char>, Seq<char>)| kv.0 + ": "@ + kv.1,
                ),
                "\n"@,
            ),
        );
        if text.len() > 0 {
            Some(text)
        } else {
            None
        }
    }
}

pub open spec fn pair_views(v: Seq<(String, String)>) -> Seq<(Seq<char>, Seq<char>)> {
    v.map_values(|kv: (String, String)| (kv.0@, kv.1@))
}

fn overrides(deck: &DeckArgs, entries: &Vec<String>, mode: Option<&str>, fit: Option<&str>) -> (r: Vec<(String, String)>)
    ensures
        pair_views(r@) == override_list(
            deck.theme@.len() > 0,
            texts(entries@),
            deck.mode is Some,
            match mode { Some(m) => Some(m@), None => None },
            deck.fit is Some,
            match fit { Some(f) => Some(f@), None => None },
            deck.split,
        ),
{
    let mut out: Vec<(String, String)> = Vec::new();
    if deck.theme.len() > 0 && entries.len() > 0 {
        let ghost es = texts(entries@);
        let mut parts: Vec<Vec<char>> = Vec::new();
        let mut i: usize = 0;
        while i < entries.len()
            invariant
                i <= entries@.len(),
                es == texts(entries@),
                parts@.map_values(|p: Vec<char>| p@) == es.take(i as int).map_values(
                    |e: Seq<char>| debug_quoted(e),
                ),
            decreases entries@.len() - i,
        {
            let q = chars_of(quoted(entries[i].as_str()).as_str());
            let ghost before = parts@.map_values(|p: Vec<char>| p@);
            parts.push(q);
            assert(parts@.map_values(|p: Vec<char>| p@) =~= before.push(q@));
            assert(es.take(i + 1) =~= es.take(i as int).push(es[i as int]));
            assert(es.take(i + 1).map_values(|e: Seq<char>| debug_quoted(e)) =~= es.take(
                i as int,
            ).map_values(|e: Seq<char>| debug_quoted(e)).push(debug_quoted(es[i as int])));
            i += 1;
        }
        assert(es.take(entries@.len() as int) =~= es);
        let mut v = chars_of("[");
        crate::text::push_joined_chars(&mut v, &parts, ", ");
        push_str(&mut v, "]");
        out.push(("theme".to_string(), string_of(v.as_slice())));
    }
    let ghost a = pair_views(out@);
    if deck.mode.is_some() {
        match mode {
            Some(m) => out.push(("mode".to_string(), m.to_string())),
            None => {},
        }
    }
    let ghost b = pair_views(out@);
    if deck.fit.is_some() {
        match fit {
            Some(f) => out.push(("fit".to_string(), f.to_string())),
            None => {},
        }
    }
    let ghost c = pair_views(out@);
    match deck.split {
        Some(l) => {
            let mut v = chars_of("h");
            crate::text::push_decimal(&mut v, l as u64);
            out.push(("split".to_string(), string_of(v.as_slice())));
        },
        None => {},
    }
    assert(pair_views(out@) =~= override_list(
        deck.theme@.len() > 0,
        texts(entries@),
        deck.mode is Some,
        match mode { Some(m) => Some(m@), None => None },
        deck.fit is Some,
        match fit { Some(f) => Some(f@), None => None },
        deck.split,
    ));
    out
}

proof fn lemma_replaced_by(line: Seq<char>, ov: Seq<(Seq<char>, Seq<char>)>)
    ensures
        replaced_by(line, ov) == (has_prefix(line, "css:"@) || exists|j: int|
            0 <= j < ov.len() && has_prefix(line, #[trigger] ov[j].0 + ":"@)),
    decreases ov.len(),
{
    if ov.len() > 0 {
        let d = ov.drop_last();
        lemma_replaced_by(line, d);
        if exists|j: int| 0 <= j < d.len() && has_prefix(line, #[trigger] d[j].0 + ":"@) {
            let j = choose|j: int| 0 <= j < d.len() && has_prefix(line, #[trigger] d[j].0 + ":"@);
            assert(ov[j] == d[j]);
        }
        if exists|j: int| 0 <= j < ov.len() && has_prefix(line, #[trigger] ov[j].0 + ":"@) {
            let j = choose|j: int| 0 <= j < ov.len() && has_prefix(line, #[trigger] ov[j].0 + ":"@);
            if j < d.len() {
                assert(d[j] == ov[j]);
            }
        }
    }
}

fn is_replaced(line: &Vec<char>, ov: &Vec<(String, String)>) -> (r: bool)
    ensures
        r == replaced_by(line@, pair_views(ov@)),
{
    let ghost pv = pair_views(ov@);
    proof {
        lemma_replaced_by(line@, pv);
    }
    let mut i: usize = 0;
    while i < ov.len()
        invariant
            i <= ov@.len(),
            pv == pair_views(ov@),
            forall|j: int| 0 <= j < i ==> !has_prefix(line@, #[trigger] pv[j].0 + ":"@),
        decreases ov@.len() - i,
    {
        let mut key = chars_of(ov[i].0.as_str());
        push_str(&mut key, ":");
        assert(pv[i as int].0 == ov@[i as int].0@);
        if crate::text::starts_with(line, &key) {
            assert(has_prefix(line@, pv[i as int].0 + ":"@));
            proof {
                lemma_replaced_by(line@, pv);
            }
            return true;
        }
        i += 1;
    }
    crate::text::starts_with(line, &chars_of("css:"))
}


/// The lines of `s`.
fn lines_of(s: &Vec<char>) -> (r: Vec<Vec<char>>)
    ensures
        r@.map_values(|l: Vec<char>| l@) == lines_from(s@, 0),
{
    let n = s.len();
    let mut out: Vec<Vec<char>> = Vec::new();
    let mut p: usize = 0;
    while p < n
        invariant
            n == s@.len(),
            p <= n,
            lines_from(s@, 0) == out@.map_values(|l: Vec<char>| l@) + lines_from(s@, p as int),
        decreases n - p,
    {
        let (line, e) = crate::text::read_line(s, p);
        proof {
            lemma_line_end(s@, p as int);
        }
        assert(line_at(s@, p as int).unwrap() == line@);
        assert(next_line(s@, p as int) == e + 1);
        if e == n {
            assert(lines_from(s@, e + 1) =~= lines_from(s@, n as int));
        }
        let ghost before = out@.map_values(|l: Vec<char>| l@);
        out.push(line);
        assert(out@.map_values(|l: Vec<char>| l@) =~= before.push(line@));
        assert(before.push(line@) + lines_from(s@, e + 1) =~= before + (seq![line@] + lines_from(
            s@,
            e + 1,
        )));
        p = if e < n {
            e + 1
        } else {
            n
        };
    }
    assert(lines_from(s@, p as int) =~= Seq::<Seq<char>>::empty());
    assert(out@.map_values(|l: Vec<char>| l@) + Seq::<Seq<char>>::empty() =~= out@.map_values(
        |l: Vec<char>| l@,
    ));
    out
}

fn is_indented(line: &Vec<char>) -> (r: bool)
    ensures
        r == indented(line@),
{
    line.len() > 0 && (line[0] == ' ' || line[0] == '\t' || line[0] == '-')
}

/// `s` without `\n`s at either end.
fn trimmed_newlines(s: &Vec<char>) -> (r: Vec<char>)
    ensures
        r@ == trim_newlines(s@),
{
    let n = s.len();
    let mut lo: usize = 0;
    while lo < n && s[lo] == '\n'
        invariant
            lo <= n == s@.len(),
            newlines_end(s@, 0) == newlines_end(s@, lo as int),
        decreases n - lo,
    {
        lo += 1;
    }
    let mut hi: usize = n;
    while hi > lo && s[hi - 1] == '\n'
        invariant
            lo <= hi <= n == s@.len(),
            newlines_start(s@, lo as int, n as int) == newlines_start(s@, lo as int, hi as int),
        decreases hi,
    {
        hi -= 1;
    }
    slice(s, lo, hi)
}

/// The frontmatter a deck hands over to the browser editor: `frontmatter`,
/// what its file says, with each key the command line overrode set to the
/// value the deck was built with (`theme_entries`, `mode` and `fit`, as
/// the build resolved them), and what was indented under such a key
/// dropped with it; the file's own text when nothing was overridden.
pub fn handover_frontmatter(
    frontmatter: Option<&str>,
    deck: &DeckArgs,
    theme_entries: &Vec<String>,
    mode: Option<&str>,
    fit: Option<&str>,
) -> (r: Option<String>)
    ensures
        opt_text(r) == handover_of(
            match frontmatter {
                Some(f) => Some(f@),
                None => None,
            },
            override_list(
                deck.theme@.len() > 0,
                texts(theme_entries@),
                deck.mode is Some,
                match mode {
                    Some(m) => Some(m@),
                    None => None,
                },
                deck.fit is Some,
                match fit {
                    Some(f) => Some(f@),
                    None => None,
                },
                deck.split,
            ),
        ),
{
    let ov = overrides(deck, theme_entries, mode, fit);
    let ghost pv = pair_views(ov@);
    if ov.len() == 0 {
        return match frontmatter {
            Some(f) => Some(f.to_string()),
            None => None,
        };
    }
    let authored: Vec<char> = match frontmatter {
        Some(f) => chars_of(f),
        None => Vec::new(),
    };
    let lines = lines_of(&authored);
    let ghost lv = lines@.map_values(|l: Vec<char>| l@);
    let mut kept: Vec<Vec<char>> = Vec::new();
    let mut dropping = false;
    let mut i: usize = 0;
    while i < lines.len()
        invariant
            i <= lines@.len(),
            lv == lines@.map_values(|l: Vec<char>| l@),
            pv == pair_views(ov@),
            kept_from(lv, 0, false, pv) == kept@.map_values(|l: Vec<char>| l@) + kept_from(
                lv,
                i as int,
                dropping,
                pv,
            ),
        decreases lines@.len() - i,
    {
        let line = &lines[i];
        assert(lv[i as int] == line@);
        let ind = is_indented(line);
        if dropping && ind {
            i += 1;
        } else {
            let d = !ind && is_replaced(line, &ov);
            if !d {
                let ghost before = kept@.map_values(|l: Vec<char>| l@);
                kept.push(line.clone());
                assert(kept@.map_values(|l: Vec<char>| l@) =~= before.push(line@));
                assert(before.push(line@) + kept_from(lv, i + 1, d, pv) =~= before + (seq![line@]
                    + kept_from(lv, i + 1, d, pv)));
            }
            dropping = d;
            i += 1;
        }
    }
    assert(kept_from(lv, i as int, dropping, pv) =~= Seq::<Seq<char>>::empty());
    let ghost kv = kept@.map_values(|l: Vec<char>| l@);
    assert(kv + Seq::<Seq<char>>::empty() =~= kv);
    let ghost setv = pv.map_values(|kv: (Seq<char>, Seq<char>)| kv.0 + ": "@ + kv.1);
    let mut j: usize = 0;
    while j < ov.len()
        invariant
            j <= ov@.len(),
            pv == pair_views(ov@),
            setv == pv.map_values(|kv: (Seq<char>, Seq<char>)| kv.0 + ": "@ + kv.1),
            kept@.map_values(|l: Vec<char>| l@) == kv + setv.take(j as int),
        decreases ov@.len() - j,
    {
        let mut l = chars_of(ov[j].0.as_str());
        push_str(&mut l, ": ");
        push_str(&mut l, ov[j].1.as_str());
        assert(pv[j as int] == (ov@[j as int].0@, ov@[j as int].1@));
        let ghost before = kept@.map_values(|l: Vec<char>| l@);
        kept.push(l);
        assert(kept@.map_values(|l: Vec<char>| l@) =~= before.push(setv[j as int]));
        assert(setv.take(j + 1) =~= setv.take(j as int).push(setv[j as int]));
        j += 1;
    }
    assert(setv.take(ov@.len() as int) =~= setv);
    let mut joined: Vec<char> = Vec::new();
    crate::text::push_joined_chars(&mut joined, &kept, "\n");
    assert(joined@ =~= join(kv + setv, "\n"@));
    let text = trimmed_newlines(&joined);
    if text.len() > 0 {
        Some(string_of(text.as_slice()))
    } else {
        None
    }
}

} // verus!
