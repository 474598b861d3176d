//! `mirzam import pdf`: what is decided about a figure taken out of a paper
//! — the format asked for, the tool that converts it, the name each file is
//! written under, the line of Markdown that puts it on a slide, and what is
//! said when nothing matched. Reading the PDF, cropping it and running a
//! tool are the caller's.
use vstd::prelude::*;
use crate::mermaid::{answers, says};
use crate::annot::ascii_lowered;
use crate::quotes::lowercase_ascii;
use crate::text::{
    chars_of, contains, decimal, digit_char, is_ascii_alnum, push_all, push_decimal, push_str,
    same, slice, string_of, trim, trimmed,
};
use crate::cmap::{units_of, utf16_text, utf16be};

verus! {

/// The environment variable naming a PDF tool, for a machine where one is
/// installed somewhere `PATH` does not reach.
pub const TOOL_ENV: &'static str = "MIRZAM_PDFTOOL";

/// What to write for each figure.
#[derive(Debug, Clone, Copy, PartialEq, Eq, Structural)]
pub enum Format {
    /// The best this machine can do: the stored image when the figure is
    /// one, a vector SVG when it converts, a cropped PDF otherwise.
    Auto,
    Svg,
    Png,
    /// Only the image stored in the page, and only when the figure is one.
    Image,
    /// The crop itself, as a one-page PDF.
    Pdf,
}

impl Default for Format {
    fn default() -> (r: Format)
        ensures
            r == Format::Auto,
    {
        Format::Auto
    }
}

/// The format a `--format` value names.
pub open spec fn format_named(src: Seq<char>) -> Option<Format> {
    if src == "auto"@ {
        Some(Format::Auto)
    } else if src == "svg"@ {
        Some(Format::Svg)
    } else if src == "png"@ {
        Some(Format::Png)
    } else if src == "image"@ {
        Some(Format::Image)
    } else if src == "pdf"@ {
        Some(Format::Pdf)
    } else {
        None
    }
}

impl Format {
    /// `--format`'s value, or what to tell the author when it names none.
    pub fn parse(src: &str) -> (r: Result<Format, String>)
        ensures
            match format_named(src@) {
                Some(f) => r == Ok::<Format, String>(f),
                None => r matches Err(e) && e@ == "--format: `"@ + src@
                    + "` is not a format; use auto, svg, png, image or pdf"@,
            },
    {
        let cs = chars_of(src);
        if crate::text::is(&cs, "auto") {
            Ok(Format::Auto)
        } else if crate::text::is(&cs, "svg") {
            Ok(Format::Svg)
        } else if crate::text::is(&cs, "png") {
            Ok(Format::Png)
        } else if crate::text::is(&cs, "image") {
            Ok(Format::Image)
        } else if crate::text::is(&cs, "pdf") {
            Ok(Format::Pdf)
        } else {
            let mut out: Vec<char> = Vec::new();
            push_str(&mut out, "--format: `");
            push_all(&mut out, &cs);
            push_str(&mut out, "` is not a format; use auto, svg, png, image or pdf");
            Err(string_of(out.as_slice()))
        }
    }
}

/// How `import pdf` was asked to run.
pub struct Options {
    pub input: String,
    pub out_dir: String,
    /// Only the float with this number, as the paper writes it (`3`, `1a`).
    pub only: Option<String>,
    pub page: Option<u32>,
    pub format: Format,
    pub dpi: u32,
    /// The bibliography key of the paper, which turns the credit into a
    /// citation.
    pub cite: Option<String>,
    /// Say what is in the file and write nothing.
    pub list: bool,
    pub tool: Option<String>,
}

impl Default for Options {
    fn default() -> (r: Options)
        ensures
            r.input@ == Seq::<char>::empty(),
            r.out_dir@ == "img"@,
            r.only is None,
            r.page is None,
            r.format == Format::Auto,
            r.dpi == 300,
            r.cite is None,
            !r.list,
            r.tool is None,
    {
        Options {
            input: String::new(),
            out_dir: "img".to_owned(),
            only: None,
            page: None,
            format: Format::Auto,
            dpi: 300,
            cite: None,
            list: false,
            tool: None,
        }
    }
}

// ---------------------------------------------------------------------------
// Tools
// ---------------------------------------------------------------------------

/// The last component of a path (`Path::file_name`), empty when it has
/// none.
pub uninterp spec fn file_name_of(path: Seq<char>) -> Seq<char>;

/// `Path::file_name`, lossily as text, or the empty text when the path
/// ends in no name. Its result is named, not stated.
#[verifier::external_body]
pub fn file_name(path: &str) -> (r: String)
    ensures
        r@ == file_name_of(path@),
{
    std::path::Path::new(path).file_name().unwrap_or_default().to_string_lossy().to_string()
}

/// A PDF tool this machine has.
pub enum Tool {
    /// MuPDF's, which renders a page to SVG with the text as outlines.
    MuTool(String),
    /// Poppler's, which does the same through cairo.
    PdfToCairo(String),
}

impl Tool {
    pub open spec fn program_view(&self) -> Seq<char> {
        match self {
            Tool::MuTool(p) => p@,
            Tool::PdfToCairo(p) => p@,
        }
    }

    pub open spec fn is_cairo(&self) -> bool {
        self is PdfToCairo
    }

    /// Which tool a path is, by what it is called: both take entirely
    /// different arguments, so a wrong guess fails loudly.
    pub fn name_of(path: &str) -> (r: Tool)
        ensures
            r.program_view() == path@,
            r.is_cairo() == contains(file_name_of(path@), "pdftocairo"@),
    {
        let name = chars_of(file_name(path).as_str());
        let cairo = chars_of("pdftocairo");
        if crate::text::occurs(&name, &cairo) {
            Tool::PdfToCairo(path.to_owned())
        } else {
            Tool::MuTool(path.to_owned())
        }
    }

    /// What the tool is called in a report.
    pub fn name(&self) -> (r: &'static str)
        ensures
            r@ == if self.is_cairo() {
                "pdftocairo"@
            } else {
                "mutool"@
            },
    {
        match self {
            Tool::MuTool(_) => "mutool",
            Tool::PdfToCairo(_) => "pdftocairo",
        }
    }

    /// The program to run.
    pub fn program(&self) -> (r: &str)
        ensures
            r@ == self.program_view(),
    {
        match self {
            Tool::MuTool(p) => p.as_str(),
            Tool::PdfToCairo(p) => p.as_str(),
        }
    }

    /// The tool the author asked for, by `--tool` or by the environment,
    /// when it answers; what merely happens to be installed does not count.
    pub fn named_with<E, U>(named: Option<&str>, env: E, usable: U) -> (r: Option<Tool>) where
        E: Fn(&str) -> Option<String>,
        U: Fn(&str) -> bool,

        requires
            forall|k: &str| env.requires((k,)),
            forall|p: &str| usable.requires((p,)),
        ensures
            match r {
                Some(t) => claimed(named, env, t.program_view()) && says(
                    usable,
                    t.program_view(),
                    true,
                ) && t.is_cairo() == contains(file_name_of(t.program_view()), "pdftocairo"@),
                None => {
                    &&& (named matches Some(n) ==> says(usable, n@, false))
                    &&& (named is None ==> (answers(env, TOOL_ENV@, None) || exists|v: String|
                        answers(env, TOOL_ENV@, Some(v)) && #[trigger] says(usable, v@, false)))
                },
            },
    {
        let claim: Option<String> = match named {
            Some(n) => Some(n.to_owned()),
            None => env(TOOL_ENV),
        };
        match claim {
            Some(c) => {
                let ok = usable(c.as_str());
                assert(says(usable, c@, ok));
                if ok {
                    Some(Tool::name_of(c.as_str()))
                } else {
                    proof {
                        if named is None {
                            assert(answers(env, TOOL_ENV@, Some(c)));
                        }
                    }
                    None
                }
            },
            None => {
                assert(answers(env, TOOL_ENV@, None));
                None
            },
        }
    }

    /// Named first, then whichever answers on `PATH`, `mutool` before
    /// `pdftocairo`. `None` is an ordinary answer: it is what a machine with
    /// neither says.
    pub fn discover_with<E, U>(named: Option<&str>, env: E, usable: U) -> (r: Option<Tool>) where
        E: Fn(&str) -> Option<String>,
        U: Fn(&str) -> bool,

        requires
            forall|k: &str| env.requires((k,)),
            forall|p: &str| usable.requires((p,)),
        ensures
            match r {
                Some(t) => {
                    &&& says(usable, t.program_view(), true)
                    &&& t.is_cairo() == contains(file_name_of(t.program_view()), "pdftocairo"@)
                    &&& (claimed(named, env, t.program_view()) || t.program_view() == "mutool"@
                        || (t.program_view() == "pdftocairo"@ && says(usable, "mutool"@, false)))
                },
                None => says(usable, "mutool"@, false) && says(usable, "pdftocairo"@, false),
            },
    {
        let claim: Option<String> = match named {
            Some(n) => Some(n.to_owned()),
            None => env(TOOL_ENV),
        };
        if let Some(c) = claim {
            let ok = usable(c.as_str());
            if ok {
                assert(says(usable, c@, true));
                proof {
                    if named is None {
                        assert(answers(env, TOOL_ENV@, Some(c)));
                    }
                }
                return Some(Tool::name_of(c.as_str()));
            }
        }
        let mu = "mutool";
        let ok = usable(mu);
        if ok {
            assert(says(usable, mu@, true));
            return Some(Tool::name_of(mu));
        }
        assert(says(usable, mu@, false));
        let cairo = "pdftocairo";
        let ok = usable(cairo);
        if ok {
            assert(says(usable, cairo@, true));
            Some(Tool::name_of(cairo))
        } else {
            assert(says(usable, cairo@, false));
            None
        }
    }
}

/// The program the author named: `--tool`, or else what the environment
/// variable holds.
pub open spec fn claimed<E: Fn(&str) -> Option<String>>(
    named: Option<&str>,
    env: E,
    p: Seq<char>,
) -> bool {
    match named {
        Some(n) => n@ == p,
        None => exists|v: String| #[trigger] answers(env, TOOL_ENV@, Some(v)) && v@ == p,
    }
}


// ---------------------------------------------------------------------------
// Names
// ---------------------------------------------------------------------------

/// A path's name without its extension (`Path::file_stem`).
pub uninterp spec fn file_stem_of(path: Seq<char>) -> Option<Seq<char>>;

/// `Path::file_stem`, lossily as text. Its result is named, not stated.
#[verifier::external_body]
pub fn file_stem(path: &str) -> (r: Option<String>)
    ensures
        match r {
            Some(s) => file_stem_of(path@) == Some(s@),
            None => file_stem_of(path@) is None,
        },
{
    std::path::Path::new(path).file_stem().map(|s| s.to_string_lossy().to_string())
}

/// A character as a file name keeps it: ASCII letters and digits, and a
/// hyphen for anything else.
pub open spec fn slug_char(c: char) -> char {
    if is_ascii_alnum(c) {
        c
    } else {
        '-'
    }
}

/// Where the leading hyphens of `s`, from `i` on, end.
pub open spec fn dash_lead(s: Seq<char>, i: int) -> int
    decreases s.len() - i,
{
    if 0 <= i < s.len() && s[i] == '-' {
        dash_lead(s, i + 1)
    } else {
        i
    }
}

/// Where `s[lo..j]` ends once its trailing hyphens are gone.
pub open spec fn dash_trail(s: Seq<char>, lo: int, j: int) -> int
    decreases j - lo,
{
    if lo < j && j <= s.len() && s[j - 1] == '-' {
        dash_trail(s, lo, j - 1)
    } else {
        j
    }
}

/// `s` without hyphens at either end (`str::trim_matches('-')`).
pub open spec fn trim_dashes(s: Seq<char>) -> Seq<char> {
    s.subrange(dash_lead(s, 0), dash_trail(s, dash_lead(s, 0), s.len() as int))
}

/// What a figure's files are named after: the citation key when there is
/// one, the input's own name otherwise, then `figure`.
pub open spec fn stem_base(cite: Option<Seq<char>>, input: Seq<char>) -> Seq<char> {
    match cite {
        Some(k) => k,
        None => match file_stem_of(input) {
            Some(s) => s,
            None => "figure"@,
        },
    }
}

/// The name a figure's file is written under, before it is made distinct:
/// the base as a lowercase slug, then the kind's word and the float's
/// number, its letters and digits only, lowered.
pub open spec fn stem_of(
    cite: Option<Seq<char>>,
    input: Seq<char>,
    kind_word: Seq<char>,
    number: Seq<char>,
) -> Seq<char> {
    ascii_lowered(trim_dashes(stem_base(cite, input).map_values(|c: char| slug_char(c)))) + "-"@
        + kind_word + ascii_lowered(number.filter(|c: char| is_ascii_alnum(c)))
}

/// The name a figure of `kind_word` numbered `number` is written under.
pub fn stem_for(cite: Option<&str>, input: &str, kind_word: &str, number: &str) -> (r: String)
    ensures
        r@ == stem_of(
            match cite {
                Some(k) => Some(k@),
                None => None,
            },
            input@,
            kind_word@,
            number@,
        ),
{
    let base: Vec<char> = match cite {
        Some(k) => chars_of(k),
        None => match file_stem(input) {
            Some(s) => chars_of(s.as_str()),
            None => chars_of("figure"),
        },
    };
    let ghost b = base@;
    let mut slug: Vec<char> = Vec::new();
    let mut i: usize = 0;
    while i < base.len()
        invariant
            i <= base@.len(),
            base@ == b,
            slug@ == b.take(i as int).map_values(|c: char| slug_char(c)),
        decreases base@.len() - i,
    {
        let c = base[i];
        let k = if crate::text::is_ascii_alnum_char(c) {
            c
        } else {
            '-'
        };
        slug.push(k);
        assert(b.take(i + 1) =~= b.take(i as int).push(c));
        assert(slug@ =~= b.take(i + 1).map_values(|c: char| slug_char(c)));
        i += 1;
    }
    assert(b.take(base@.len() as int) =~= b);
    let ghost sl = slug@;
    let n = slug.len();
    let mut lo: usize = 0;
    while lo < n && slug[lo] == '-'
        invariant
            lo <= n == sl.len(),
            slug@ == sl,
            dash_lead(sl, 0) == dash_lead(sl, lo as int),
        decreases n - lo,
    {
        lo += 1;
    }
    let mut hi: usize = n;
    while hi > lo && slug[hi - 1] == '-'
        invariant
            lo <= hi <= n == sl.len(),
            slug@ == sl,
            lo == dash_lead(sl, 0),
            dash_trail(sl, lo as int, n as int) == dash_trail(sl, lo as int, hi as int),
        decreases hi - lo,
    {
        hi -= 1;
    }
    let trimmed = slice(&slug, lo, hi);
    let mut out = lowercase_ascii(&trimmed);
    out.push('-');
    push_str(&mut out, kind_word);
    let digits = chars_of(number);
    let ghost d = digits@;
    let mut kept: Vec<char> = Vec::new();
    let mut j: usize = 0;
    while j < digits.len()
        invariant
            j <= digits@.len(),
            digits@ == d,
            kept@ == d.take(j as int).filter(|c: char| is_ascii_alnum(c)),
        decreases digits@.len() - j,
    {
        let c = digits[j];
        assert(d.take(j + 1).drop_last() =~= d.take(j as int));
        assert(d.take(j + 1).last() == c);
        proof {
            reveal(Seq::filter);
        }
        if crate::text::is_ascii_alnum_char(c) {
            kept.push(c);
        }
        j += 1;
    }
    assert(d.take(digits@.len() as int) =~= d);
    let lowered = lowercase_ascii(&kept);
    push_all(&mut out, &lowered);
    proof {
        reveal_strlit("-");
        reveal_strlit("figure");
    }
    string_of(out.as_slice())
}

/// The `n`th name tried for `stem`: the stem itself, then `stem-2`,
/// `stem-3` and on.
pub open spec fn candidate(stem: Seq<char>, n: nat) -> Seq<char> {
    if n <= 1 {
        stem
    } else {
        stem + "-"@ + decimal(n)
    }
}

/// The texts of some strings.
pub open spec fn texts(v: Seq<String>) -> Seq<Seq<char>> {
    v.map_values(|s: String| s@)
}

proof fn lemma_decimal_len(n: nat)
    ensures
        decimal(n).len() >= 1,
        n >= 10 ==> decimal(n).len() >= 2,
    decreases n,
{
    if n >= 10 {
        lemma_decimal_len(n / 10);
    }
}

proof fn lemma_decimal_injective(a: nat, b: nat)
    requires
        decimal(a) == decimal(b),
    ensures
        a == b,
    decreases a,
{
    lemma_decimal_len(a);
    lemma_decimal_len(b);
    if a < 10 && b < 10 {
        assert(decimal(a)[0] == digit_char(a));
        assert(decimal(b)[0] == digit_char(b));
    } else if a >= 10 && b >= 10 {
        let da = decimal(a);
        assert(da.last() == digit_char(a % 10));
        assert(decimal(b).last() == digit_char(b % 10));
        assert(da.drop_last() == decimal(a / 10));
        assert(decimal(b).drop_last() == decimal(b / 10));
        lemma_decimal_injective(a / 10, b / 10);
    }
}

proof fn lemma_candidates_differ(stem: Seq<char>, a: nat, b: nat)
    requires
        1 <= a < b,
    ensures
        candidate(stem, a) != candidate(stem, b),
{
    reveal_strlit("-");
    lemma_decimal_len(b);
    if a > 1 && candidate(stem, a) == candidate(stem, b) {
        let k = stem.len() + 1int;
        assert(candidate(stem, a).skip(k) =~= decimal(a));
        assert(candidate(stem, b).skip(k) =~= decimal(b));
        lemma_decimal_injective(a, b);
    }
}

/// `n` different names cannot all be among fewer than `n`.
proof fn lemma_names_fit(s: Seq<Seq<char>>, stem: Seq<char>, n: nat)
    requires
        forall|k: nat| 1 <= k <= n ==> s.contains(#[trigger] candidate(stem, k)),
    ensures
        n <= s.len(),
    decreases n,
{
    if n > 0 {
        let x = candidate(stem, n);
        assert(s.contains(x));
        let idx = choose|j: int| 0 <= j < s.len() && s[j] == x;
        let s2 = s.remove(idx);
        assert forall|k: nat| 1 <= k <= (n - 1) as nat implies s2.contains(
            #[trigger] candidate(stem, k),
        ) by {
            lemma_candidates_differ(stem, k, n);
            let y = candidate(stem, k);
            assert(s.contains(y));
            let j = choose|j: int| 0 <= j < s.len() && s[j] == y;
            if j < idx {
                assert(s2[j] == s[j]);
            } else {
                assert(j != idx);
                assert(s2[j - 1] == s[j]);
            }
        }
        lemma_names_fit(s2, stem, (n - 1) as nat);
    }
}

fn holds(taken: &Vec<String>, name: &Vec<char>) -> (r: bool)
    ensures
        r == texts(taken@).contains(name@),
{
    let mut i: usize = 0;
    while i < taken.len()
        invariant
            i <= taken@.len(),
            forall|j: int| 0 <= j < i ==> taken@[j]@ != name@,
        decreases taken@.len() - i,
    {
        if same(&chars_of(taken[i].as_str()), name) {
            assert(texts(taken@)[i as int] == name@);
            return true;
        }
        i += 1;
    }
    proof {
        if texts(taken@).contains(name@) {
            let j = choose|j: int| 0 <= j < texts(taken@).len() && texts(taken@)[j] == name@;
            assert(taken@[j]@ == name@);
        }
    }
    false
}

/// A name no earlier figure in this run has taken, which is then taken:
/// the first of `stem`, `stem-2`, `stem-3`, … that is free. Two floats can
/// want one name, and writing both to one file would lose a figure
/// without a word.
pub fn distinct(stem: &str, taken: &mut Vec<String>) -> (r: String)
    requires
        old(taken)@.len() < usize::MAX,
    ensures
        !texts(old(taken)@).contains(r@),
        exists|n: nat|
            1 <= n && r@ == candidate(stem@, n) && forall|k: nat|
                1 <= k < n ==> texts(old(taken)@).contains(#[trigger] candidate(stem@, k)),
        texts(final(taken)@) == texts(old(taken)@).push(r@),
{
    let base = chars_of(stem);
    let mut name = base.clone();
    let mut n: usize = 1;
    let ghost before = taken@;
    loop
        invariant
            1 <= n <= taken@.len() + 1,
            taken@ == before,
            before.len() < usize::MAX,
            base@ == stem@,
            name@ == candidate(stem@, n as nat),
            forall|k: nat| 1 <= k < n ==> texts(before).contains(#[trigger] candidate(stem@, k)),
        ensures
            1 <= n,
            taken@ == before,
            name@ == candidate(stem@, n as nat),
            !texts(before).contains(name@),
            forall|k: nat| 1 <= k < n ==> texts(before).contains(#[trigger] candidate(stem@, k)),
        decreases taken@.len() + 1 - n,
    {
        if !holds(taken, &name) {
            break;
        }
        proof {
            assert forall|k: nat| 1 <= k <= n implies texts(before).contains(
                #[trigger] candidate(stem@, k),
            ) by {}
            lemma_names_fit(texts(before), stem@, n as nat);
        }
        n += 1;
        name = base.clone();
        name.push('-');
        push_decimal(&mut name, n as u64);
        proof {
            reveal_strlit("-");
            assert(name@ =~= candidate(stem@, n as nat));
        }
    }
    let r = string_of(name.as_slice());
    taken.push(string_of(name.as_slice()));
    assert(texts(taken@) =~= texts(before).push(r@));
    r
}


// ---------------------------------------------------------------------------
// What is said
// ---------------------------------------------------------------------------

/// What every credit line ends with: the paper as a citation when its key
/// is known, else the title it gives itself, else its file's name.
pub open spec fn credit_of(cite: Option<Seq<char>>, title: Option<Seq<char>>, input: Seq<char>) -> Seq<char> {
    match cite {
        Some(k) => "[@"@ + k + "]"@,
        None => match title {
            Some(t) => t,
            None => file_name_of(input),
        },
    }
}

pub fn credit(cite: Option<&str>, title: Option<&str>, input: &str) -> (r: String)
    ensures
        r@ == credit_of(
            match cite {
                Some(k) => Some(k@),
                None => None,
            },
            match title {
                Some(t) => Some(t@),
                None => None,
            },
            input@,
        ),
{
    match cite {
        Some(k) => {
            let mut out = chars_of("[@");
            push_str(&mut out, k);
            push_str(&mut out, "]");
            string_of(out.as_slice())
        },
        None => match title {
            Some(t) => t.to_owned(),
            None => file_name(input),
        },
    }
}

/// A caption's quotation marks as typographic ones: the attribute list
/// has no escape for `"`.
pub open spec fn unquoted(c: char) -> char {
    if c == '"' {
        '\u{201d}'
    } else {
        c
    }
}

/// The line that puts a figure on a slide.
pub open spec fn markdown_of(
    label: Seq<char>,
    file: Option<Seq<char>>,
    caption: Seq<char>,
    credit: Seq<char>,
) -> Seq<char> {
    "!["@ + label + "]("@ + (match file {
        Some(f) => f,
        None => "\u{2026}"@,
    }) + "){fit=contain caption=\""@ + caption.map_values(|c: char| unquoted(c))
        + "\" credit=\""@ + label + " of "@ + credit + "\"}"@
}

/// The line to paste into a deck for a figure written to `file` (none
/// while listing), with its caption and its credit.
pub fn figure_markdown(label: &str, file: Option<&str>, caption: &str, credit: &str) -> (r: String)
    ensures
        r@ == markdown_of(
            label@,
            match file {
                Some(f) => Some(f@),
                None => None,
            },
            caption@,
            credit@,
        ),
{
    let mut out = chars_of("![");
    push_str(&mut out, label);
    push_str(&mut out, "](");
    match file {
        Some(f) => push_str(&mut out, f),
        None => push_str(&mut out, "\u{2026}"),
    }
    push_str(&mut out, "){fit=contain caption=\"");
    let cap = chars_of(caption);
    let ghost c0 = cap@;
    let ghost start = out@;
    let mut i: usize = 0;
    while i < cap.len()
        invariant
            i <= cap@.len(),
            cap@ == c0,
            out@ == start + c0.take(i as int).map_values(|c: char| unquoted(c)),
        decreases cap@.len() - i,
    {
        let c = cap[i];
        let u = if c == '"' {
            '\u{201d}'
        } else {
            c
        };
        out.push(u);
        assert(c0.take(i + 1) =~= c0.take(i as int).push(c));
        assert(out@ =~= start + c0.take(i + 1).map_values(|c: char| unquoted(c)));
        i += 1;
    }
    assert(c0.take(cap@.len() as int) =~= c0);
    push_str(&mut out, "\" credit=\"");
    push_str(&mut out, label);
    push_str(&mut out, " of ");
    push_str(&mut out, credit);
    push_str(&mut out, "\"}");
    string_of(out.as_slice())
}

/// Why a run took nothing: a different sentence when the paper had
/// figures and the flags excluded them all.
pub open spec fn nothing_taken_of(
    input: Seq<char>,
    only: Option<Seq<char>>,
    page: Option<u32>,
    seen: nat,
) -> Seq<char> {
    if seen > 0 {
        let asked = match (only, page) {
            (Some(n), Some(p)) => "--figure "@ + n + " --page "@ + decimal(p as nat),
            (Some(n), None) => "--figure "@ + n,
            (None, Some(p)) => "--page "@ + decimal(p as nat),
            (None, None) => Seq::empty(),
        };
        input + ": "@ + decimal(seen) + " captioned figure(s), none matching "@ + asked
            + ".\nRun it without them - or with --list - to see what the paper calls them."@
    } else {
        input
            + ": no captioned figure found.\nA caption is what this looks for - a line starting `Figure 3`, `Fig. 3`, `Table 1`.\nA scanned paper has no text to read, and a slide deck saved as a PDF has no captions;\nfor either, name the piece yourself: --page <n> and crop the page it writes."@
    }
}

pub fn nothing_taken(input: &str, only: Option<&str>, page: Option<u32>, seen: usize) -> (r: String)
    ensures
        r@ == nothing_taken_of(
            input@,
            match only {
                Some(n) => Some(n@),
                None => None,
            },
            page,
            seen as nat,
        ),
{
    let mut out = chars_of(input);
    if seen > 0 {
        push_str(&mut out, ": ");
        push_decimal(&mut out, seen as u64);
        push_str(&mut out, " captioned figure(s), none matching ");
        match only {
            Some(n) => {
                push_str(&mut out, "--figure ");
                push_str(&mut out, n);
                if let Some(p) = page {
                    push_str(&mut out, " --page ");
                    push_decimal(&mut out, p as u64);
                }
            },
            None => {
                if let Some(p) = page {
                    push_str(&mut out, "--page ");
                    push_decimal(&mut out, p as u64);
                }
            },
        }
        push_str(
            &mut out,
            ".\nRun it without them - or with --list - to see what the paper calls them.",
        );
        proof {
            reveal_strlit("");
        }
    } else {
        push_str(
            &mut out,
            ": no captioned figure found.\nA caption is what this looks for - a line starting `Figure 3`, `Fig. 3`, `Table 1`.\nA scanned paper has no text to read, and a slide deck saved as a PDF has no captions;\nfor either, name the piece yourself: --page <n> and crop the page it writes.",
        );
    }
    string_of(out.as_slice())
}


// ---------------------------------------------------------------------------
// Text strings
// ---------------------------------------------------------------------------

/// A PDF text string read: UTF-16BE after a byte order mark, else one
/// character per byte (PDFDocEncoding, near enough Latin-1 for a title).
pub open spec fn pdf_text_of(b: Seq<u8>) -> Seq<char> {
    if b.len() >= 2 && b[0] == 0xFE && b[1] == 0xFF {
        utf16_text(units_of(b.skip(2)))
    } else {
        b.map_values(|x: u8| x as char)
    }
}

/// Reads a PDF text string.
pub fn decode_text(b: &[u8]) -> (r: String)
    ensures
        r@ == pdf_text_of(b@),
{
    let n = b.len();
    if n >= 2 && b[0] == 0xFE && b[1] == 0xFF {
        let rest = &b[2..n];
        assert(rest@ == b@.skip(2));
        return string_of(utf16be(rest).as_slice());
    }
    let mut out: Vec<char> = Vec::new();
    let mut i: usize = 0;
    while i < n
        invariant
            n == b@.len(),
            i <= n,
            out@ == b@.take(i as int).map_values(|x: u8| x as char),
        decreases n - i,
    {
        out.push(b[i] as char);
        i += 1;
        assert(out@ =~= b@.take(i as int).map_values(|x: u8| x as char));
    }
    assert(b@.take(n as int) =~= b@);
    string_of(out.as_slice())
}

/// A document's title from its `Title` entry: the text, trimmed, when
/// anything is left of it.
pub fn title_text(raw: &[u8]) -> (r: Option<String>)
    ensures
        match r {
            Some(t) => trim(pdf_text_of(raw@)).len() > 0 && t@ == trim(pdf_text_of(raw@)),
            None => trim(pdf_text_of(raw@)).len() == 0,
        },
{
    let t = trimmed(&chars_of(decode_text(raw).as_str()));
    if t.len() > 0 {
        Some(string_of(t.as_slice()))
    } else {
        None
    }
}


// ---------------------------------------------------------------------------
// Which form a figure is written in
// ---------------------------------------------------------------------------

/// What to do about the image stored in the page, before anything is
/// cropped.
#[derive(Debug, Clone, PartialEq, Eq)]
pub enum Lift {
    /// Lift the stored image out as it is.
    Try,
    /// Go on to the crop.
    Skip,
    /// Stop: the format asked for a stored image the figure is not.
    Refuse(String),
}

pub enum LiftView {
    Try,
    Skip,
    Refuse(Seq<char>),
}

impl View for Lift {
    type V = LiftView;

    open spec fn view(&self) -> LiftView {
        match self {
            Lift::Try => LiftView::Try,
            Lift::Skip => LiftView::Skip,
            Lift::Refuse(m) => LiftView::Refuse(m@),
        }
    }
}

pub open spec fn not_one_image_message(label: Seq<char>) -> Seq<char> {
    label
        + ": not a single stored image, so there is nothing to lift out. Leave --format off and it will be cropped instead."@
}

/// Whether the stored image is lifted out: when the format lets it
/// (`auto` or `image`) and the figure is one stored image; `image` without
/// one refuses, naming the figure.
pub open spec fn lift_of(format: Format, one_image: bool, label: Seq<char>) -> LiftView {
    if (format == Format::Auto || format == Format::Image) && one_image {
        LiftView::Try
    } else if format == Format::Image {
        LiftView::Refuse(not_one_image_message(label))
    } else {
        LiftView::Skip
    }
}

/// What to do about the stored image of the figure `label`, where
/// `one_image` says the figure is one stored image (the page holds one,
/// and the figure's art lies mostly inside it).
pub fn lift_choice(format: Format, one_image: bool, label: &str) -> (r: Lift)
    ensures
        r@ == lift_of(format, one_image, label@),
{
    if (format == Format::Auto || format == Format::Image) && one_image {
        Lift::Try
    } else if format == Format::Image {
        let mut m = chars_of(label);
        push_str(
            &mut m,
            ": not a single stored image, so there is nothing to lift out. Leave --format off and it will be cropped instead.",
        );
        Lift::Refuse(string_of(m.as_slice()))
    } else {
        Lift::Skip
    }
}

/// What is said of a figure lifted out as the image stored in the page.
pub fn lifted_note(what: &str) -> (r: String)
    ensures
        r@ == "the "@ + what@ + " stored in the page"@,
{
    let mut m = chars_of("the ");
    push_str(&mut m, what);
    push_str(&mut m, " stored in the page");
    string_of(m.as_slice())
}

/// What a figure is converted to once cropped, when the format asks for
/// more than the crop: `png` for `png`, else `svg`.
pub fn wanted(format: Format) -> (r: &'static str)
    ensures
        r@ == (if format == Format::Png {
            "png"@
        } else {
            "svg"@
        }),
{
    if format == Format::Png {
        "png"
    } else {
        "svg"
    }
}

/// Whether the figure is converted in this process: an SVG is, unless the
/// author named a tool, which is a choice where one merely installed is not.
pub fn converts_here(want: &str, tool_named: bool) -> (r: bool)
    ensures
        r == (want@ == "svg"@ && !tool_named),
{
    crate::text::is(&chars_of(want), "svg") && !tool_named
}

/// What is said of a figure a tool converted.
pub fn tool_note(want: &str, tool: &Tool) -> (r: String)
    ensures
        r@ == want@ + " by "@ + (if tool.is_cairo() {
            "pdftocairo"@
        } else {
            "mutool"@
        }),
{
    let mut m = chars_of(want);
    push_str(&mut m, " by ");
    push_str(&mut m, tool.name());
    string_of(m.as_slice())
}

pub open spec fn no_tool_error(label: Seq<char>, refused: Option<Seq<char>>, want: Seq<char>, crop: Seq<char>) -> Seq<char> {
    match refused {
        Some(why) => label + ": "@ + why
            + ".\nThe crop is at "@ + crop + ", and `mutool` or `pdftocairo` may still convert it."@,
        None => "a "@ + want
            + " is rendered by a tool, and this machine has none.\nInstall mupdf-tools (`mutool`) or poppler-utils (`pdftocairo`), or point MIRZAM_PDFTOOL at one - neither is bundled, both being copyleft.\nAn SVG needs none of that: leave `--format` off.\nThe crop is at "@
            + crop + "."@,
    }
}

/// What comes of a figure when no tool is there to convert it: under
/// `auto`, the crop stands, with why it was not converted here if it was
/// tried; under any other format, an error saying where the crop is.
pub open spec fn no_tool_of(
    format: Format,
    label: Seq<char>,
    refused: Option<Seq<char>>,
    want: Seq<char>,
    crop: Seq<char>,
) -> Result<Seq<char>, Seq<char>> {
    if format == Format::Auto {
        Ok(match refused {
            Some(why) => "cropped - not converted here: "@ + why,
            None => "cropped"@,
        })
    } else {
        Err(no_tool_error(label, refused, want, crop))
    }
}

/// What comes of the figure `label` when no tool is there to convert it to
/// `want`, given why converting it here failed (if it was tried) and where
/// its crop is: the note the crop is reported with, or the error.
pub fn no_tool(
    format: Format,
    label: &str,
    refused: Option<&str>,
    want: &str,
    crop: &str,
) -> (r: Result<String, String>)
    ensures
        match r {
            Ok(n) => no_tool_of(format, label@, opt_seq(refused), want@, crop@) == Ok::<
                Seq<char>,
                Seq<char>,
            >(n@),
            Err(e) => no_tool_of(format, label@, opt_seq(refused), want@, crop@) == Err::<
                Seq<char>,
                Seq<char>,
            >(e@),
        },
{
    if format == Format::Auto {
        return Ok(match refused {
            Some(why) => {
                let mut m = chars_of("cropped - not converted here: ");
                push_str(&mut m, why);
                string_of(m.as_slice())
            },
            None => "cropped".to_string(),
        });
    }
    let mut m: Vec<char> = Vec::new();
    match refused {
        Some(why) => {
            push_str(&mut m, label);
            push_str(&mut m, ": ");
            push_str(&mut m, why);
            push_str(&mut m, ".\nThe crop is at ");
            push_str(&mut m, crop);
            push_str(&mut m, ", and `mutool` or `pdftocairo` may still convert it.");
        },
        None => {
            push_str(&mut m, "a ");
            push_str(&mut m, want);
            push_str(
                &mut m,
                " is rendered by a tool, and this machine has none.\nInstall mupdf-tools (`mutool`) or poppler-utils (`pdftocairo`), or point MIRZAM_PDFTOOL at one - neither is bundled, both being copyleft.\nAn SVG needs none of that: leave `--format` off.\nThe crop is at ",
            );
            push_str(&mut m, crop);
            push_str(&mut m, ".");
        },
    }
    Err(string_of(m.as_slice()))
}

pub open spec fn opt_seq(o: Option<&str>) -> Option<Seq<char>> {
    match o {
        Some(s) => Some(s@),
        None => None,
    }
}

} // verus!
