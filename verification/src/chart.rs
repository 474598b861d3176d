//! What a `chart` block says once its YAML is read: the kind of chart, how
//! its bars stack, which file its data names, its table of categories and
//! series, what it warns about, and the colour each series gets. Reading
//! the YAML, turning a number's text into its value, and the drawing are
//! the caller's.
use vstd::prelude::*;
use crate::annot::ascii_lowered;
use crate::quotes::lowercase_ascii;
use crate::text::{
    alnum, chars_of, contains, has_suffix, is, is_alnum, occurs, push_all, push_str, slice,
    string_of, trim, trimmed, all_digits, is_digit, lemma_line_end, line_at, next_line,
    read_line, decimal, push_decimal,
};

verus! {

#[derive(Debug, Clone, Copy, PartialEq, Eq, Structural)]
pub enum ChartKind {
    Bar,
    Line,
    Area,
    /// Points with no line through them.
    Scatter,
    Pie,
}

impl Default for ChartKind {
    fn default() -> (r: ChartKind)
        ensures
            r == ChartKind::Bar,
    {
        ChartKind::Bar
    }
}

/// The kind a `type:` value names, written in lowercase.
pub open spec fn kind_named(name: Seq<char>) -> Option<ChartKind> {
    if name == "bar"@ {
        Some(ChartKind::Bar)
    } else if name == "line"@ {
        Some(ChartKind::Line)
    } else if name == "area"@ {
        Some(ChartKind::Area)
    } else if name == "scatter"@ {
        Some(ChartKind::Scatter)
    } else if name == "pie"@ {
        Some(ChartKind::Pie)
    } else {
        None
    }
}

impl ChartKind {
    /// The kind a `type:` value names.
    pub fn from_name(name: &str) -> (r: Option<ChartKind>)
        ensures
            r == kind_named(name@),
    {
        let cs = chars_of(name);
        if is(&cs, "bar") {
            Some(ChartKind::Bar)
        } else if is(&cs, "line") {
            Some(ChartKind::Line)
        } else if is(&cs, "area") {
            Some(ChartKind::Area)
        } else if is(&cs, "scatter") {
            Some(ChartKind::Scatter)
        } else if is(&cs, "pie") {
            Some(ChartKind::Pie)
        } else {
            None
        }
    }
}

/// Whether a bar chart's series stand beside each other or on top.
#[derive(Debug, Clone, Copy, PartialEq, Eq, Structural)]
pub enum Stacking {
    /// Side by side, sharing the category's slot: no stacking at all.
    Beside,
    /// On top of each other, the axis still counting the values.
    Sum,
    /// On top of each other and every column filled, so the segments read
    /// as shares of that column.
    Percent,
}

impl Default for Stacking {
    fn default() -> (r: Stacking)
        ensures
            r == Stacking::Beside,
    {
        Stacking::Beside
    }
}

/// The stacking a `stacked:` word names, once trimmed and lowered.
pub open spec fn stacking_named(word: Seq<char>) -> Option<Stacking> {
    if word == "none"@ || word == "no"@ {
        Some(Stacking::Beside)
    } else if word == "sum"@ || word == "yes"@ {
        Some(Stacking::Sum)
    } else if word == "percent"@ || word == "100%"@ || word == "share"@ {
        Some(Stacking::Percent)
    } else {
        None
    }
}

impl Stacking {
    /// `stacked: true` is the answer most people mean, so a bare `true`
    /// stacks by sum.
    pub fn from_flag(flag: bool) -> (r: Stacking)
        ensures
            r == (if flag {
                Stacking::Sum
            } else {
                Stacking::Beside
            }),
    {
        if flag {
            Stacking::Sum
        } else {
            Stacking::Beside
        }
    }

    /// `stacked:` given as a word, or why the word names nothing.
    pub fn from_name(name: &str) -> (r: Result<Stacking, String>)
        ensures
            match stacking_named(ascii_lowered(trim(name@))) {
                Some(s) => r == Ok::<Stacking, String>(s),
                None => r matches Err(e) && e@ == "`stacked: "@ + ascii_lowered(trim(name@))
                    + "` is not one of true, false or percent"@,
            },
    {
        let w = lowercase_ascii(&trimmed(&chars_of(name)));
        if is(&w, "none") || is(&w, "no") {
            Ok(Stacking::Beside)
        } else if is(&w, "sum") || is(&w, "yes") {
            Ok(Stacking::Sum)
        } else if is(&w, "percent") || is(&w, "100%") || is(&w, "share") {
            Ok(Stacking::Percent)
        } else {
            let mut out = chars_of("`stacked: ");
            push_all(&mut out, &w);
            push_str(&mut out, "` is not one of true, false or percent");
            Err(string_of(out.as_slice()))
        }
    }
}

/// A chart block, as its keys set it.
#[derive(Debug, Clone)]
pub struct ChartSpec {
    pub kind: ChartKind,
    pub id: Option<String>,
    pub title: Option<String>,
    /// Inline CSV, or the path of a CSV file the host supplies.
    pub data: String,
    /// The column holding the x values; the first column when unset.
    pub x: Option<String>,
    /// Axis label for the value axis.
    pub y_label: Option<String>,
    /// Stand the series of a bar chart on top of each other.
    pub stacked: Stacking,
    /// Lay a bar chart's categories down the side.
    pub horizontal: bool,
    /// Hide the legend even when several series are present.
    pub legend: Option<bool>,
    /// Series colours; the theme palette when empty.
    pub colors: Vec<String>,
    /// Highlight one series by dimming the others.
    pub highlight: Option<String>,
}

impl Default for ChartSpec {
    fn default() -> (r: ChartSpec)
        ensures
            r.kind == ChartKind::Bar,
            r.id is None,
            r.title is None,
            r.data@ == Seq::<char>::empty(),
            r.x is None,
            r.y_label is None,
            r.stacked == Stacking::Beside,
            !r.horizontal,
            r.legend is None,
            r.colors@.len() == 0,
            r.highlight is None,
    {
        ChartSpec {
            kind: ChartKind::Bar,
            id: None,
            title: None,
            data: String::new(),
            x: None,
            y_label: None,
            stacked: Stacking::Beside,
            horizontal: false,
            legend: None,
            colors: Vec::new(),
            highlight: None,
        }
    }
}

/// How a chart's bars are put together: only bars stack.
pub fn stacking(spec: &ChartSpec) -> (r: Stacking)
    ensures
        r == (if spec.kind == ChartKind::Bar {
            spec.stacked
        } else {
            Stacking::Beside
        }),
{
    if spec.kind == ChartKind::Bar {
        spec.stacked
    } else {
        Stacking::Beside
    }
}

/// The file a `data:` value names: one line, once trimmed, ending `.csv`.
pub open spec fn data_file_of(data: Seq<char>) -> Option<Seq<char>> {
    if !contains(trim(data), "\n"@) && has_suffix(trim(data), ".csv"@) {
        Some(trim(data))
    } else {
        None
    }
}

/// The CSV file a `data:` value names, when it names one rather than
/// holding the data inline.
pub fn data_file(data: &str) -> (r: Option<String>)
    ensures
        match data_file_of(data@) {
            Some(f) => r matches Some(s) && s@ == f,
            None => r is None,
        },
{
    let t = trimmed(&chars_of(data));
    let nl = chars_of("\n");
    let ext = chars_of(".csv");
    if !occurs(&t, &nl) && crate::text::ends_with(&t, &ext) {
        Some(string_of(t.as_slice()))
    } else {
        None
    }
}

/// The keys a chart block reads.
pub const KNOWN_KEYS: [&'static str; 11] = [
    "type",
    "id",
    "title",
    "data",
    "x",
    "y_label",
    "stacked",
    "horizontal",
    "legend",
    "colors",
    "highlight",
];

pub open spec fn known_key(k: Seq<char>) -> bool {
    k == "type"@ || k == "id"@ || k == "title"@ || k == "data"@ || k == "x"@ || k == "y_label"@
        || k == "stacked"@ || k == "horizontal"@ || k == "legend"@ || k == "colors"@ || k
        == "highlight"@
}

fn is_known_key(k: &Vec<char>) -> (r: bool)
    ensures
        r == known_key(k@),
{
    is(k, "type") || is(k, "id") || is(k, "title") || is(k, "data") || is(k, "x") || is(
        k,
        "y_label",
    ) || is(k, "stacked") || is(k, "horizontal") || is(k, "legend") || is(k, "colors") || is(
        k,
        "highlight",
    )
}

/// What a chart block warns about, its spec read: each key it does not
/// read (a key nobody reads silently did nothing), then `stacked` or
/// `horizontal` on a chart that is not a bar chart.
pub open spec fn spec_warnings(
    kind: ChartKind,
    stacked: Stacking,
    horizontal: bool,
    keys: Seq<Seq<char>>,
) -> Seq<Seq<char>> {
    keys.filter(|k: Seq<char>| !known_key(k)).map_values(
        |k: Seq<char>| "chart: unknown key `"@ + k + "`, ignored"@,
    ) + (if stacked != Stacking::Beside && kind != ChartKind::Bar {
        seq!["chart: `stacked` applies to bar charts, ignored"@]
    } else {
        Seq::empty()
    }) + (if horizontal && kind != ChartKind::Bar {
        seq!["chart: `horizontal` applies to bar charts, ignored"@]
    } else {
        Seq::empty()
    })
}

/// The texts of some strings.
pub open spec fn texts(v: Seq<String>) -> Seq<Seq<char>> {
    v.map_values(|s: String| s@)
}

/// The warnings for a spec whose block wrote `keys`.
pub fn warnings(spec: &ChartSpec, keys: &Vec<String>) -> (r: Vec<String>)
    ensures
        texts(r@) == spec_warnings(spec.kind, spec.stacked, spec.horizontal, texts(keys@)),
{
    let ghost ks = texts(keys@);
    let mut out: Vec<String> = Vec::new();
    let mut i: usize = 0;
    while i < keys.len()
        invariant
            i <= keys@.len(),
            ks == texts(keys@),
            texts(out@) == ks.take(i as int).filter(|k: Seq<char>| !known_key(k)).map_values(
                |k: Seq<char>| "chart: unknown key `"@ + k + "`, ignored"@,
            ),
        decreases keys@.len() - i,
    {
        let k = chars_of(keys[i].as_str());
        assert(ks.take(i + 1).drop_last() =~= ks.take(i as int));
        assert(ks.take(i + 1).last() == k@);
        proof {
            reveal(Seq::filter);
        }
        if !is_known_key(&k) {
            let mut w = chars_of("chart: unknown key `");
            push_all(&mut w, &k);
            push_str(&mut w, "`, ignored");
            let ghost before = out@;
            out.push(string_of(w.as_slice()));
            assert(texts(out@) =~= texts(before).push(w@));
        }
        i += 1;
        assert(texts(out@) =~= ks.take(i as int).filter(|k: Seq<char>| !known_key(k)).map_values(
            |k: Seq<char>| "chart: unknown key `"@ + k + "`, ignored"@,
        ));
    }
    assert(ks.take(keys@.len() as int) =~= ks);
    let ghost unknown = texts(out@);
    if spec.stacked != Stacking::Beside && spec.kind != ChartKind::Bar {
        out.push(string_of(chars_of("chart: `stacked` applies to bar charts, ignored").as_slice()));
    }
    let ghost with_stacked = texts(out@);
    if spec.horizontal && spec.kind != ChartKind::Bar {
        out.push(
            string_of(chars_of("chart: `horizontal` applies to bar charts, ignored").as_slice()),
        );
    }
    assert(texts(out@) =~= spec_warnings(spec.kind, spec.stacked, spec.horizontal, ks));
    out
}


// ---------------------------------------------------------------------------
// Rows
// ---------------------------------------------------------------------------

/// A row's separator: a tab when it holds one, else a comma.
pub open spec fn row_sep(line: Seq<char>) -> char {
    if contains(line, "\t"@) {
        '\t'
    } else {
        ','
    }
}

/// The cells of `s` from `i` on, given the one being read (`cur`), those
/// done, and whether a double quote is open: a quote toggles, and a
/// separator outside quotes ends a cell.
pub open spec fn cells_from(
    s: Seq<char>,
    sep: char,
    i: int,
    quoted: bool,
    cur: Seq<char>,
    done: Seq<Seq<char>>,
) -> Seq<Seq<char>>
    decreases s.len() - i,
{
    if i < 0 || i >= s.len() {
        done.push(cur)
    } else if s[i] == '"' {
        cells_from(s, sep, i + 1, !quoted, cur, done)
    } else if s[i] == sep && !quoted {
        cells_from(s, sep, i + 1, quoted, Seq::empty(), done.push(cur))
    } else {
        cells_from(s, sep, i + 1, quoted, cur.push(s[i]), done)
    }
}

/// One CSV/TSV row's cells, each trimmed; a double-quoted field keeps its
/// separators, so `"1,200"` stays one cell.
pub open spec fn row_of(line: Seq<char>) -> Seq<Seq<char>> {
    cells_from(line, row_sep(line), 0, false, Seq::empty(), Seq::empty()).map_values(
        |c: Seq<char>| trim(c),
    )
}

pub open spec fn char_views(v: Seq<Vec<char>>) -> Seq<Seq<char>> {
    v.map_values(|c: Vec<char>| c@)
}

/// Splits one CSV/TSV row into its cells.
pub fn split_row(line: &str) -> (r: Vec<String>)
    ensures
        texts(r@) == row_of(line@),
{
    let cs = chars_of(line);
    let tab = chars_of("\t");
    let sep = if occurs(&cs, &tab) {
        '\t'
    } else {
        ','
    };
    proof {
        reveal_strlit("\t");
    }
    let mut cells: Vec<Vec<char>> = Vec::new();
    let mut cur: Vec<char> = Vec::new();
    let mut quoted = false;
    let mut i: usize = 0;
    assert(char_views(cells@) =~= Seq::<Seq<char>>::empty());
    while i < cs.len()
        invariant
            i <= cs@.len(),
            cs@ == line@,
            sep == row_sep(line@),
            cells_from(cs@, sep, 0, false, Seq::empty(), Seq::empty()) == cells_from(
                cs@,
                sep,
                i as int,
                quoted,
                cur@,
                char_views(cells@),
            ),
        decreases cs@.len() - i,
    {
        let c = cs[i];
        if c == '"' {
            quoted = !quoted;
        } else if c == sep && !quoted {
            let ghost before = char_views(cells@);
            let done = cur;
            cur = Vec::new();
            let ghost d = done@;
            cells.push(done);
            assert(char_views(cells@) =~= before.push(d));
            assert(cur@ =~= Seq::<char>::empty());
        } else {
            cur.push(c);
        }
        i += 1;
    }
    let ghost before = char_views(cells@);
    let ghost last = cur@;
    cells.push(cur);
    assert(char_views(cells@) =~= before.push(last));
    let ghost all = char_views(cells@);
    let mut out: Vec<String> = Vec::new();
    let mut j: usize = 0;
    while j < cells.len()
        invariant
            j <= cells@.len(),
            all == char_views(cells@),
            texts(out@) == all.take(j as int).map_values(|c: Seq<char>| trim(c)),
        decreases cells@.len() - j,
    {
        let t = trimmed(&cells[j]);
        assert(all[j as int] == cells@[j as int]@);
        let ghost before = texts(out@);
        let sv = string_of(t.as_slice());
        out.push(sv);
        assert(texts(out@) =~= before.push(t@));
        assert(all.take(j + 1) =~= all.take(j as int).push(all[j as int]));
        assert(texts(out@) =~= all.take(j + 1).map_values(|c: Seq<char>| trim(c)));
        j += 1;
    }
    assert(all.take(cells@.len() as int) =~= all);
    out
}

// ---------------------------------------------------------------------------
// Text in the drawing
// ---------------------------------------------------------------------------

/// One character as XML text writes it.
pub open spec fn xml_char(c: char) -> Seq<char> {
    if c == '&' {
        "&amp;"@
    } else if c == '<' {
        "&lt;"@
    } else if c == '>' {
        "&gt;"@
    } else if c == '"' {
        "&quot;"@
    } else {
        seq![c]
    }
}

/// `s` with `&`, `<`, `>` and `"` written as entities.
pub open spec fn xml_escaped(s: Seq<char>) -> Seq<char>
    decreases s.len(),
{
    if s.len() == 0 {
        Seq::empty()
    } else {
        xml_escaped(s.drop_last()) + xml_char(s.last())
    }
}

/// Text made safe to stand in the drawing.
pub fn esc(s: &str) -> (r: String)
    ensures
        r@ == xml_escaped(s@),
{
    let cs = chars_of(s);
    let mut out: Vec<char> = Vec::new();
    let mut i: usize = 0;
    while i < cs.len()
        invariant
            i <= cs@.len(),
            cs@ == s@,
            out@ == xml_escaped(cs@.take(i as int)),
        decreases cs@.len() - i,
    {
        let c = cs[i];
        assert(cs@.take(i + 1).drop_last() =~= cs@.take(i as int));
        assert(cs@.take(i + 1).last() == c);
        if c == '&' {
            push_str(&mut out, "&amp;");
        } else if c == '<' {
            push_str(&mut out, "&lt;");
        } else if c == '>' {
            push_str(&mut out, "&gt;");
        } else if c == '"' {
            push_str(&mut out, "&quot;");
        } else {
            out.push(c);
        }
        i += 1;
    }
    assert(cs@.take(cs@.len() as int) =~= cs@);
    string_of(out.as_slice())
}

/// The theme's series colours, in order.
pub const PALETTE: [&'static str; 6] = [
    "var(--mz-accent1)",
    "var(--mz-accent2)",
    "var(--mz-chart3)",
    "var(--mz-chart4)",
    "var(--mz-chart5)",
    "var(--mz-chart6)",
];

pub open spec fn palette_at(k: int) -> Seq<char> {
    if k == 0 {
        "var(--mz-accent1)"@
    } else if k == 1 {
        "var(--mz-accent2)"@
    } else if k == 2 {
        "var(--mz-chart3)"@
    } else if k == 3 {
        "var(--mz-chart4)"@
    } else if k == 4 {
        "var(--mz-chart5)"@
    } else {
        "var(--mz-chart6)"@
    }
}

/// A character a written colour may keep: a letter or digit, or one of
/// `#(),.%-` and space.
pub open spec fn colour_char(c: char) -> bool {
    alnum(c) || c == '#' || c == '(' || c == ')' || c == ',' || c == '.' || c == '%' || c == '-'
        || c == ' '
}

/// The colour of series `i`: `@name` is the theme's variable of that name,
/// anything else keeps only what a colour is written with, and a series
/// with no colour given takes the palette's, round and round.
pub open spec fn colour_of(colors: Seq<Seq<char>>, i: int) -> Seq<char> {
    if 0 <= i < colors.len() {
        let c = colors[i];
        if c.len() > 0 && c[0] == '@' {
            "var(--mz-"@ + c.skip(1) + ")"@
        } else {
            c.filter(|ch: char| colour_char(ch))
        }
    } else {
        palette_at(i % 6)
    }
}

pub fn color_for(spec: &ChartSpec, i: usize) -> (r: String)
    ensures
        r@ == colour_of(texts(spec.colors@), i as int),
{
    if i < spec.colors.len() {
        let c = chars_of(spec.colors[i].as_str());
        assert(texts(spec.colors@)[i as int] == c@);
        if c.len() > 0 && c[0] == '@' {
            let mut out = chars_of("var(--mz-");
            let rest = slice(&c, 1, c.len());
            push_all(&mut out, &rest);
            push_str(&mut out, ")");
            string_of(out.as_slice())
        } else {
            let mut out: Vec<char> = Vec::new();
            let mut j: usize = 0;
            while j < c.len()
                invariant
                    j <= c@.len(),
                    out@ == c@.take(j as int).filter(|ch: char| colour_char(ch)),
                decreases c@.len() - j,
            {
                let ch = c[j];
                assert(c@.take(j + 1).drop_last() =~= c@.take(j as int));
                assert(c@.take(j + 1).last() == ch);
                proof {
                    reveal(Seq::filter);
                }
                if is_alnum(ch) || ch == '#' || ch == '(' || ch == ')' || ch == ',' || ch == '.'
                    || ch == '%' || ch == '-' || ch == ' ' {
                    out.push(ch);
                }
                j += 1;
            }
            assert(c@.take(c@.len() as int) =~= c@);
            string_of(out.as_slice())
        }
    } else {
        let k = i % 6;
        let p = PALETTE[k];
        assert(p@ == palette_at(k as int));
        p.to_owned()
    }
}


// ---------------------------------------------------------------------------
// Numbers in cells
// ---------------------------------------------------------------------------

/// Where the first `a` or `b` in `s` stands from `i` on; its length when
/// there is none.
pub open spec fn first_either(s: Seq<char>, a: char, b: char, i: int) -> int
    decreases s.len() - i,
{
    if i < 0 || i >= s.len() {
        s.len() as int
    } else if s[i] == a || s[i] == b {
        i
    } else {
        first_either(s, a, b, i + 1)
    }
}

/// `s` without a leading `+` or `-`.
pub open spec fn unsigned_part(s: Seq<char>) -> Seq<char> {
    if s.len() > 0 && (s[0] == '+' || s[0] == '-') {
        s.drop_first()
    } else {
        s
    }
}

/// Digits with at most one `.` among them, and at least one digit.
pub open spec fn mantissa_text(m: Seq<char>) -> bool {
    let d = first_either(m, '.', '.', 0);
    if d == m.len() {
        m.len() > 0 && all_digits(m)
    } else {
        all_digits(m.take(d)) && all_digits(m.skip(d + 1)) && (d > 0 || m.len() > d + 1)
    }
}

/// An optionally signed run of digits.
pub open spec fn exponent_text(x: Seq<char>) -> bool {
    unsigned_part(x).len() > 0 && all_digits(unsigned_part(x))
}

/// What `f64`'s `FromStr` reads, by the grammar its documentation gives: an
/// optional sign, then `inf`, `infinity` or `nan` in any case, or digits
/// with at most one `.` and at least one digit, then optionally `e` or `E`
/// and an optionally signed run of digits.
pub open spec fn float_text(s: Seq<char>) -> bool {
    let b = unsigned_part(s);
    let l = ascii_lowered(b);
    let k = first_either(b, 'e', 'E', 0);
    ||| l == "inf"@
    ||| l == "infinity"@
    ||| l == "nan"@
    ||| mantissa_text(b.take(k)) && (k == b.len() || exponent_text(b.skip(k + 1)))
}

fn first_either_at(cs: &Vec<char>, a: char, b: char, from: usize) -> (r: usize)
    requires
        from <= cs.len(),
    ensures
        r == first_either(cs@, a, b, from as int),
        from <= r <= cs.len(),
{
    let mut i = from;
    while i < cs.len() && cs[i] != a && cs[i] != b
        invariant
            from <= i <= cs@.len(),
            first_either(cs@, a, b, from as int) == first_either(cs@, a, b, i as int),
        decreases cs.len() - i,
    {
        i += 1;
    }
    i
}

fn digits_between(cs: &Vec<char>, lo: usize, hi: usize) -> (r: bool)
    requires
        lo <= hi <= cs.len(),
    ensures
        r == all_digits(cs@.subrange(lo as int, hi as int)),
{
    let mut i = lo;
    while i < hi
        invariant
            lo <= i <= hi <= cs@.len(),
            all_digits(cs@.subrange(lo as int, i as int)),
        decreases hi - i,
    {
        if !('0' <= cs[i] && cs[i] <= '9') {
            assert(cs@.subrange(lo as int, hi as int)[i - lo] == cs@[i as int]);
            return false;
        }
        i += 1;
        assert forall|j: int| 0 <= j < i - lo implies is_digit(#[trigger] cs@.subrange(lo as int, i as int)[j]) by {
            if j < i - 1 - lo {
                assert(cs@.subrange(lo as int, i - 1)[j] == cs@.subrange(lo as int, i as int)[j]);
            }
        }
    }
    true
}

fn is_mantissa(m: &Vec<char>) -> (r: bool)
    ensures
        r == mantissa_text(m@),
{
    let n = m.len();
    let d = first_either_at(m, '.', '.', 0);
    assert(m@.subrange(0, n as int) == m@);
    assert(m@.subrange(0, d as int) == m@.take(d as int));
    if d == n {
        n > 0 && digits_between(m, 0, n)
    } else {
        assert(m@.subrange(d + 1, n as int) == m@.skip(d + 1));
        digits_between(m, 0, d) && digits_between(m, d + 1, n) && (d > 0 || n > d + 1)
    }
}

fn unsigned_chars(cs: &Vec<char>) -> (r: Vec<char>)
    ensures
        r@ == unsigned_part(cs@),
{
    let n = cs.len();
    if n > 0 && (cs[0] == '+' || cs[0] == '-') {
        let r = slice(cs, 1, n);
        assert(r@ == cs@.drop_first());
        r
    } else {
        let r = slice(cs, 0, n);
        assert(r@ == cs@);
        r
    }
}

/// Whether `f64`'s `FromStr` reads `cs`.
pub fn is_float_text(cs: &Vec<char>) -> (r: bool)
    ensures
        r == float_text(cs@),
{
    let b = unsigned_chars(cs);
    let l = lowercase_ascii(&b);
    if is(&l, "inf") || is(&l, "infinity") || is(&l, "nan") {
        return true;
    }
    let n = b.len();
    let k = first_either_at(&b, 'e', 'E', 0);
    let m = slice(&b, 0, k);
    assert(m@ == b@.take(k as int));
    if !is_mantissa(&m) {
        return false;
    }
    if k == n {
        return true;
    }
    let x = unsigned_chars(&slice(&b, k + 1, n));
    assert(b@.subrange(k + 1, n as int) == b@.skip(k + 1));
    x.len() > 0 && digits_between(&x, 0, x.len()) && {
        assert(x@.subrange(0, x@.len() as int) == x@);
        true
    }
}

/// `s` with every `%` and `,` taken out, as a spreadsheet leaves them in a
/// number.
pub open spec fn unmarked(s: Seq<char>) -> Seq<char>
    decreases s.len(),
{
    if s.len() == 0 {
        s
    } else if s.last() == '%' || s.last() == ',' {
        unmarked(s.drop_last())
    } else {
        unmarked(s.drop_last()).push(s.last())
    }
}

/// `cs` with every `%` and `,` taken out.
pub fn unmark(cs: &Vec<char>) -> (r: Vec<char>)
    ensures
        r@ == unmarked(cs@),
{
    let mut out: Vec<char> = Vec::new();
    let mut i: usize = 0;
    while i < cs.len()
        invariant
            i <= cs@.len(),
            out@ == unmarked(cs@.take(i as int)),
        decreases cs@.len() - i,
    {
        assert(cs@.take(i + 1).drop_last() == cs@.take(i as int));
        if cs[i] != '%' && cs[i] != ',' {
            out.push(cs[i]);
        }
        i += 1;
    }
    assert(cs@.take(cs@.len() as int) == cs@);
    out
}


// ---------------------------------------------------------------------------
// Tables
// ---------------------------------------------------------------------------

/// The data rows of a CSV/TSV text from the line at `from` on: each line
/// trimmed, blank lines and `#` comments passed over, the rest split into
/// cells.
pub open spec fn data_rows_from(s: Seq<char>, from: int) -> Seq<Seq<Seq<char>>>
    decreases s.len() + 1 - from,
    via data_rows_decrease
{
    if 0 <= from < s.len() {
        let t = trim(line_at(s, from).unwrap());
        let rest = data_rows_from(s, next_line(s, from));
        if t.len() == 0 || t[0] == '#' {
            rest
        } else {
            seq![row_of(t)] + rest
        }
    } else {
        Seq::empty()
    }
}

#[via_fn]
proof fn data_rows_decrease(s: Seq<char>, from: int) {
    if 0 <= from < s.len() {
        lemma_line_end(s, from);
    }
}

/// The cells of rows, as text.
pub open spec fn rows_view(v: Seq<Vec<String>>) -> Seq<Seq<Seq<char>>> {
    v.map_values(|r: Vec<String>| texts(r@))
}

/// The data rows of a CSV/TSV text.
pub fn data_rows(src: &str) -> (r: Vec<Vec<String>>)
    ensures
        rows_view(r@) == data_rows_from(src@, 0),
{
    let cs = chars_of(src);
    let n = cs.len();
    let mut rows: Vec<Vec<String>> = Vec::new();
    let mut p: usize = 0;
    while p < n
        invariant
            cs@ == src@,
            n == cs@.len(),
            p <= n,
            data_rows_from(cs@, 0) == rows_view(rows@) + data_rows_from(cs@, p as int),
        decreases n - p,
    {
        let (line, e) = read_line(&cs, p);
        proof {
            lemma_line_end(cs@, p as int);
        }
        let t = trimmed(&line);
        let ghost before = rows_view(rows@);
        assert(line_at(cs@, p as int).unwrap() == line@);
        assert(next_line(cs@, p as int) == e + 1);
        if e == n {
            assert(data_rows_from(cs@, e + 1) =~= data_rows_from(cs@, n as int));
        }
        if !(t.len() == 0 || t[0] == '#') {
            let row = split_row(string_of(t.as_slice()).as_str());
            rows.push(row);
            assert(rows_view(rows@) =~= before.push(row_of(t@)));
            assert(seq![row_of(t@)] + data_rows_from(cs@, e + 1) =~= seq![row_of(t@)].add(
                data_rows_from(cs@, e + 1),
            ));
            assert(before + (seq![row_of(t@)] + data_rows_from(cs@, e + 1)) =~= before.push(
                row_of(t@),
            ) + data_rows_from(cs@, e + 1));
        }
        p = if e < n {
            e + 1
        } else {
            n
        };
    }
    assert(data_rows_from(cs@, p as int) =~= Seq::<Seq<Seq<char>>>::empty());
    assert(rows_view(rows@) + Seq::<Seq<Seq<char>>>::empty() =~= rows_view(rows@));
    rows
}


/// One series of a table: its name and each row's number, as the text
/// `f64`'s `FromStr` reads once `%` and `,` are taken out.
#[derive(Debug, Clone)]
pub struct Series {
    pub name: String,
    pub values: Vec<String>,
}

/// A parsed table: a category column and the numeric series beside it.
#[derive(Debug, Clone)]
pub struct Table {
    pub category_name: String,
    pub categories: Vec<String>,
    /// The categories as numbers' text, when every one of them reads as a
    /// number; `None` leaves the axis ordinal.
    pub x_values: Option<Vec<String>>,
    pub series: Vec<Series>,
}

/// A table's text.
pub struct TableView {
    pub category_name: Seq<char>,
    pub categories: Seq<Seq<char>>,
    pub x_values: Option<Seq<Seq<char>>>,
    pub series: Seq<(Seq<char>, Seq<Seq<char>>)>,
}

impl View for Series {
    type V = (Seq<char>, Seq<Seq<char>>);

    open spec fn view(&self) -> (Seq<char>, Seq<Seq<char>>) {
        (self.name@, texts(self.values@))
    }
}

pub open spec fn opt_texts(v: Option<Vec<String>>) -> Option<Seq<Seq<char>>> {
    match v {
        Some(v) => Some(texts(v@)),
        None => None,
    }
}

pub open spec fn series_views(v: Seq<Series>) -> Seq<(Seq<char>, Seq<Seq<char>>)> {
    v.map_values(|s: Series| s@)
}

impl View for Table {
    type V = TableView;

    open spec fn view(&self) -> TableView {
        TableView {
            category_name: self.category_name@,
            categories: texts(self.categories@),
            x_values: opt_texts(self.x_values),
            series: series_views(self.series@),
        }
    }
}

/// The first column from `i` on whose header is `name`.
pub open spec fn column_named(header: Seq<Seq<char>>, name: Seq<char>, i: int) -> Option<int>
    decreases header.len() - i,
{
    if i < 0 || i >= header.len() {
        None
    } else if header[i] == name {
        Some(i)
    } else {
        column_named(header, name, i + 1)
    }
}

/// The column `x` names, or the first when it names none.
pub open spec fn category_column(header: Seq<Seq<char>>, x: Option<Seq<char>>) -> Option<int> {
    match x {
        None => Some(0),
        Some(name) => column_named(header, name, 0),
    }
}

/// The column the `k`th series comes from, the category column `cat` left out.
pub open spec fn series_column(cat: int, k: int) -> int {
    if k < cat {
        k
    } else {
        k + 1
    }
}

/// The first cell from `j` on, outside the category column, that is not a
/// number.
pub open spec fn bad_cell(row: Seq<Seq<char>>, cat: int, j: int) -> Option<Seq<char>>
    decreases row.len() - j,
{
    if j < 0 || j >= row.len() {
        None
    } else if j != cat && !float_text(unmarked(row[j])) {
        Some(row[j])
    } else {
        bad_cell(row, cat, j + 1)
    }
}

/// What is wrong with body row `i`, if anything: its width, or its first
/// cell that is not a number. Rows are counted from 1, the header first.
pub open spec fn row_fault(row: Seq<Seq<char>>, i: int, width: int, cat: int) -> Option<Seq<char>> {
    if row.len() != width {
        Some(
            "row "@ + decimal((i + 2) as nat) + " has "@ + decimal(row.len()) + " columns, expected "@
                + decimal(width as nat),
        )
    } else {
        match bad_cell(row, cat, 0) {
            Some(c) => Some("row "@ + decimal((i + 2) as nat) + ": `"@ + c + "` is not a number"@),
            None => None,
        }
    }
}

/// The first fault of the body rows from `i` on.
pub open spec fn body_fault(body: Seq<Seq<Seq<char>>>, i: int, width: int, cat: int) -> Option<
    Seq<char>,
>
    decreases body.len() - i,
{
    if i < 0 || i >= body.len() {
        None
    } else {
        match row_fault(body[i], i, width, cat) {
            Some(m) => Some(m),
            None => body_fault(body, i + 1, width, cat),
        }
    }
}

/// Column `c` of each row.
pub open spec fn column(body: Seq<Seq<Seq<char>>>, c: int) -> Seq<Seq<char>> {
    body.map_values(|r: Seq<Seq<char>>| r[c])
}

/// Each cell with `%` and `,` taken out.
pub open spec fn unmarked_all(cells: Seq<Seq<char>>) -> Seq<Seq<char>> {
    cells.map_values(|c: Seq<char>| unmarked(c))
}

pub open spec fn all_numbers(cells: Seq<Seq<char>>) -> bool {
    forall|i: int| 0 <= i < cells.len() ==> float_text(#[trigger] unmarked(cells[i]))
}

/// A CSV/TSV text read as a table, with `x` naming the category column (the
/// first when unset): its errors in the order they are met, else the table.
pub open spec fn table_of(s: Seq<char>, x: Option<Seq<char>>) -> Result<TableView, Seq<char>> {
    let rows = data_rows_from(s, 0);
    let header = rows[0];
    let body = rows.drop_first();
    if rows.len() == 0 {
        Err("empty data"@)
    } else if header.len() < 2 {
        Err("expected a category column and at least one series column"@)
    } else {
        match category_column(header, x) {
            None => Err("no column named `"@ + x.unwrap() + "`"@),
            Some(cat) => match body_fault(body, 0, header.len() as int, cat) {
                Some(m) => Err(m),
                None => {
                    let cats = column(body, cat);
                    Ok(
                        TableView {
                            category_name: header[cat],
                            categories: cats,
                            x_values: if all_numbers(cats) {
                                Some(unmarked_all(cats))
                            } else {
                                None
                            },
                            series: Seq::new(
                                (header.len() - 1) as nat,
                                |k: int|
                                    (
                                        header[series_column(cat, k)],
                                        unmarked_all(column(body, series_column(cat, k))),
                                    ),
                            ),
                        },
                    )
                },
            },
        }
    }
}


pub open spec fn opt_str(x: Option<&str>) -> Option<Seq<char>> {
    match x {
        Some(n) => Some(n@),
        None => None,
    }
}

/// A copy of a string's text.
fn copied(s: &String) -> (r: String)
    ensures
        r@ == s@,
{
    string_of(chars_of(s.as_str()).as_slice())
}

/// Where the category column is: the column `x` names, or the first.
fn column_index(header: &Vec<String>, x: Option<&str>) -> (r: Result<usize, String>)
    ensures
        match category_column(texts(header@), opt_str(x)) {
            Some(c) => r == Ok::<usize, String>(c as usize),
            None => r matches Err(e) && e@ == "no column named `"@ + opt_str(x).unwrap() + "`"@,
        },
{
    match x {
        None => Ok(0),
        Some(name) => {
            let ghost h = texts(header@);
            let mut i: usize = 0;
            while i < header.len()
                invariant
                    i <= header@.len(),
                    h == texts(header@),
                    opt_str(x) == Some(name@),
                    column_named(h, name@, 0) == column_named(h, name@, i as int),
                decreases header@.len() - i,
            {
                let hc = chars_of(header[i].as_str());
                assert(h[i as int] == hc@);
                if is(&hc, name) {
                    assert(column_named(h, name@, i as int) == Some(i as int));
                    assert(opt_str(x) == Some(name@));
                    assert(category_column(h, opt_str(x)) == Some(i as int));
                    return Ok(i);
                }
                i += 1;
            }
            let mut m = chars_of("no column named `");
            push_str(&mut m, name);
            push_str(&mut m, "`");
            Err(string_of(m.as_slice()))
        },
    }
}

/// What is wrong with a row, numbered `number` counting the header as 1.
fn row_check(row: &Vec<String>, number: usize, width: usize, cat: usize) -> (r: Option<String>)
    requires
        number >= 2,
    ensures
        match row_fault(texts(row@), number - 2, width as int, cat as int) {
            Some(m) => r matches Some(e) && e@ == m,
            None => r is None,
        },
{
    let ghost cells = texts(row@);
    if row.len() != width {
        let mut m = chars_of("row ");
        push_decimal(&mut m, number as u64);
        push_str(&mut m, " has ");
        push_decimal(&mut m, row.len() as u64);
        push_str(&mut m, " columns, expected ");
        push_decimal(&mut m, width as u64);
        return Some(string_of(m.as_slice()));
    }
    let mut j: usize = 0;
    while j < row.len()
        invariant
            j <= row@.len(),
            cells == texts(row@),
            row@.len() == width,
            number >= 2,
            bad_cell(cells, cat as int, 0) == bad_cell(cells, cat as int, j as int),
        decreases row@.len() - j,
    {
        let cell = chars_of(row[j].as_str());
        assert(cells[j as int] == cell@);
        if j != cat && !is_float_text(&unmark(&cell)) {
            assert(bad_cell(cells, cat as int, j as int) == Some(cell@));
            assert(row_fault(cells, number - 2, width as int, cat as int) == Some(
                "row "@ + decimal(number as nat) + ": `"@ + cell@ + "` is not a number"@,
            ));
            let mut m = chars_of("row ");
            push_decimal(&mut m, number as u64);
            push_str(&mut m, ": `");
            push_all(&mut m, &cell);
            push_str(&mut m, "` is not a number");
            return Some(string_of(m.as_slice()));
        }
        j += 1;
    }
    None
}

/// The first fault among the rows after the header.
fn first_fault(rows: &Vec<Vec<String>>, width: usize, cat: usize) -> (r: Option<String>)
    requires
        rows@.len() >= 1,
    ensures
        match body_fault(rows_view(rows@).drop_first(), 0, width as int, cat as int) {
            Some(m) => r matches Some(e) && e@ == m,
            None => r is None,
        },
{
    let ghost body = rows_view(rows@).drop_first();
    let mut i: usize = 1;
    while i < rows.len()
        invariant
            1 <= i <= rows@.len(),
            body == rows_view(rows@).drop_first(),
            body_fault(body, 0, width as int, cat as int) == body_fault(
                body,
                i - 1,
                width as int,
                cat as int,
            ),
        decreases rows@.len() - i,
    {
        assert(body[i - 1] == texts(rows@[i as int]@));
        match row_check(&rows[i], i + 1, width, cat) {
            Some(m) => {
                return Some(m);
            },
            None => {},
        }
        i += 1;
    }
    None
}

proof fn lemma_no_fault(body: Seq<Seq<Seq<char>>>, i: int, width: int, cat: int)
    requires
        0 <= i,
        body_fault(body, i, width, cat) is None,
    ensures
        forall|j: int| i <= j < body.len() ==> (#[trigger] body[j]).len() == width,
    decreases body.len() - i,
{
    if i < body.len() {
        lemma_no_fault(body, i + 1, width, cat);
    }
}

/// Each row's cell in column `c`, copied, with `%` and `,` taken out when
/// `numbers` asks.
fn column_cells(rows: &Vec<Vec<String>>, c: usize, numbers: bool) -> (r: Vec<String>)
    requires
        rows@.len() >= 1,
        forall|i: int| 1 <= i < rows@.len() ==> c < (#[trigger] rows@[i]).len(),
    ensures
        texts(r@) == (if numbers {
            unmarked_all(column(rows_view(rows@).drop_first(), c as int))
        } else {
            column(rows_view(rows@).drop_first(), c as int)
        }),
{
    let ghost body = rows_view(rows@).drop_first();
    let ghost want = if numbers {
        unmarked_all(column(body, c as int))
    } else {
        column(body, c as int)
    };
    let mut out: Vec<String> = Vec::new();
    let mut i: usize = 1;
    while i < rows.len()
        invariant
            1 <= i <= rows@.len(),
            forall|i: int| 1 <= i < rows@.len() ==> c < (#[trigger] rows@[i]).len(),
            body == rows_view(rows@).drop_first(),
            want == (if numbers {
                unmarked_all(column(body, c as int))
            } else {
                column(body, c as int)
            }),
            want.len() == body.len(),
            texts(out@) == want.take(i - 1),
        decreases rows@.len() - i,
    {
        let cell = chars_of(rows[i][c].as_str());
        assert(body[i - 1] == texts(rows@[i as int]@));
        assert(body[i - 1][c as int] == cell@);
        let v = if numbers {
            unmark(&cell)
        } else {
            cell
        };
        let ghost before = texts(out@);
        out.push(string_of(v.as_slice()));
        assert(texts(out@) =~= before.push(v@));
        assert(want.take(i as int) =~= want.take(i - 1).push(want[i - 1]));
        i += 1;
    }
    assert(want.take(rows@.len() - 1) =~= want);
    out
}

/// Whether every cell reads as a number once `%` and `,` are out.
fn every_number(cells: &Vec<String>) -> (r: bool)
    ensures
        r == all_numbers(texts(cells@)),
{
    let ghost cs = texts(cells@);
    let mut i: usize = 0;
    while i < cells.len()
        invariant
            i <= cells@.len(),
            cs == texts(cells@),
            forall|j: int| 0 <= j < i ==> float_text(#[trigger] unmarked(cs[j])),
        decreases cells@.len() - i,
    {
        let c = chars_of(cells[i].as_str());
        if !is_float_text(&unmark(&c)) {
            assert(!float_text(unmarked(cs[i as int])));
            return false;
        }
        i += 1;
    }
    true
}

/// Parses CSV/TSV into a category column and numeric series. `x` names the
/// column the categories come from; without it the first column does.
pub fn parse_csv(src: &str, x: Option<&str>) -> (r: Result<Table, String>)
    ensures
        match r {
            Ok(t) => table_of(src@, opt_str(x)) == Ok::<TableView, Seq<char>>(t@),
            Err(e) => table_of(src@, opt_str(x)) == Err::<TableView, Seq<char>>(e@),
        },
{
    let rows = data_rows(src);
    let ghost rv = rows_view(rows@);
    if rows.len() == 0 {
        return Err("empty data".to_string());
    }
    let width = rows[0].len();
    assert(rv[0] == texts(rows@[0]@));
    if width < 2 {
        return Err("expected a category column and at least one series column".to_string());
    }
    let cat = match column_index(&rows[0], x) {
        Ok(c) => c,
        Err(e) => {
            return Err(e);
        },
    };
    proof {
        if x is Some {
            lemma_column_named_in(rv[0], opt_str(x).unwrap(), 0);
        }
    }
    match first_fault(&rows, width, cat) {
        Some(m) => {
            return Err(m);
        },
        None => {},
    }
    let ghost body = rv.drop_first();
    proof {
        lemma_no_fault(body, 0, width as int, cat as int);
        assert forall|i: int| 1 <= i < rows@.len() implies width == (#[trigger] rows@[i]).len() by {
            assert(body[i - 1] == texts(rows@[i]@));
        }
    }
    let category_name = copied(&rows[0][cat]);
    let categories = column_cells(&rows, cat, false);
    let x_values = if every_number(&categories) {
        Some(column_cells(&rows, cat, true))
    } else {
        None
    };
    let mut series: Vec<Series> = Vec::new();
    let mut k: usize = 0;
    while k + 1 < width
        invariant
            k + 1 <= width,
            cat < width,
            width == rows@[0].len(),
            rows@.len() >= 1,
            rv == rows_view(rows@),
            forall|i: int| 1 <= i < rows@.len() ==> width == (#[trigger] rows@[i]).len(),
            series@.len() == k,
            forall|q: int|
                0 <= q < k ==> (#[trigger] series@[q])@ == (
                    rv[0][series_column(cat as int, q)],
                    unmarked_all(column(rv.drop_first(), series_column(cat as int, q))),
                ),
        decreases width - k,
    {
        let c = if k < cat {
            k
        } else {
            k + 1
        };
        let name = copied(&rows[0][c]);
        assert(rv[0][c as int] == rows@[0]@[c as int]@);
        let values = column_cells(&rows, c, true);
        series.push(Series { name, values });
        k += 1;
    }
    let t = Table { category_name, categories, x_values, series };
    proof {
        let want = table_of(src@, opt_str(x));
        assert(rv[0][cat as int] == rows@[0]@[cat as int]@);
        let ss = Seq::new(
            (width - 1) as nat,
            |q: int|
                (
                    rv[0][series_column(cat as int, q)],
                    unmarked_all(column(rv.drop_first(), series_column(cat as int, q))),
                ),
        );
        assert(series_views(series@) =~= ss);
    }
    Ok(t)
}

proof fn lemma_column_named_in(header: Seq<Seq<char>>, name: Seq<char>, i: int)
    requires
        0 <= i,
    ensures
        column_named(header, name, i) matches Some(c) ==> i <= c < header.len(),
    decreases header.len() - i,
{
    if i < header.len() && header[i] != name {
        lemma_column_named_in(header, name, i + 1);
    }
}


/// A chart block read: its spec, its table when the data made one, what it
/// warns about, and the data file it names.
pub struct ChartDoc {
    pub spec: ChartSpec,
    pub table: Option<Table>,
    pub errors: Vec<String>,
    /// A `data:` value that names a file the host must supply.
    pub data_file: Option<String>,
}

/// The CSV a chart reads: the file's content when `data` names one (nothing
/// when the host could not supply it), else `data` itself.
pub open spec fn csv_of(data: Seq<char>, supplied: Option<Seq<char>>) -> Seq<char> {
    match data_file_of(data) {
        Some(_) => match supplied {
            Some(c) => c,
            None => Seq::empty(),
        },
        None => data,
    }
}

/// What the table adds to a chart's warnings.
pub open spec fn table_warnings(t: Result<TableView, Seq<char>>) -> Seq<Seq<char>> {
    match t {
        Ok(v) => if v.series.len() > 0 && v.categories.len() > 0 {
            Seq::empty()
        } else {
            seq!["chart: no data rows"@]
        },
        Err(e) => seq!["chart: "@ + e],
    }
}

/// A chart's warnings, in order: a data file the host could not supply, the
/// spec's own, then the table's.
pub open spec fn chart_warnings(
    kind: ChartKind,
    stacked: Stacking,
    horizontal: bool,
    data: Seq<char>,
    x: Option<Seq<char>>,
    keys: Seq<Seq<char>>,
    supplied: Option<Seq<char>>,
) -> Seq<Seq<char>> {
    (match (data_file_of(data), supplied) {
        (Some(f), None) => seq!["chart: cannot read data file `"@ + f + "`"@],
        _ => Seq::empty(),
    }) + spec_warnings(kind, stacked, horizontal, keys) + table_warnings(
        table_of(csv_of(data, supplied), x),
    )
}

pub open spec fn opt_string(x: Option<String>) -> Option<Seq<char>> {
    match x {
        Some(n) => Some(n@),
        None => None,
    }
}

/// Reads a chart block whose YAML gave `spec` and wrote the keys `keys`.
/// `supplied` is what the host read for the data file `spec.data` names,
/// `None` when it could not; it is not looked at when the data is inline.
pub fn parse_chart(spec: ChartSpec, keys: &Vec<String>, supplied: Option<String>) -> (r: ChartDoc)
    ensures
        r.spec == spec,
        opt_string(r.data_file) == data_file_of(spec.data@),
        texts(r.errors@) == chart_warnings(
            spec.kind,
            spec.stacked,
            spec.horizontal,
            spec.data@,
            opt_string(spec.x),
            texts(keys@),
            opt_string(supplied),
        ),
        match table_of(csv_of(spec.data@, opt_string(supplied)), opt_string(spec.x)) {
            Ok(v) => if v.series.len() > 0 && v.categories.len() > 0 {
                r.table matches Some(t) && t@ == v
            } else {
                r.table is None
            },
            Err(_) => r.table is None,
        },
{
    let mut errors: Vec<String> = Vec::new();
    let data_file = data_file(spec.data.as_str());
    let csv: String = match &data_file {
        Some(path) => match supplied {
            Some(content) => content,
            None => {
                let mut m = chars_of("chart: cannot read data file `");
                push_str(&mut m, path.as_str());
                push_str(&mut m, "`");
                errors.push(string_of(m.as_slice()));
                String::new()
            },
        },
        None => copied(&spec.data),
    };
    let ghost first = texts(errors@);
    let more = warnings(&spec, keys);
    let mut i: usize = 0;
    while i < more.len()
        invariant
            i <= more@.len(),
            texts(errors@) == first + texts(more@).take(i as int),
        decreases more@.len() - i,
    {
        let ghost before = texts(errors@);
        errors.push(copied(&more[i]));
        assert(texts(errors@) =~= before.push(more@[i as int]@));
        assert(texts(more@).take(i + 1) =~= texts(more@).take(i as int).push(more@[i as int]@));
        i += 1;
    }
    assert(texts(more@).take(more@.len() as int) =~= texts(more@));
    let ghost second = texts(errors@);
    let x: Option<&str> = match &spec.x {
        Some(n) => Some(n.as_str()),
        None => None,
    };
    let parsed = parse_csv(csv.as_str(), x);
    let table = match parsed {
        Ok(t) => if t.series.len() > 0 && t.categories.len() > 0 {
            Some(t)
        } else {
            errors.push("chart: no data rows".to_string());
            None
        },
        Err(e) => {
            let mut m = chars_of("chart: ");
            push_str(&mut m, e.as_str());
            errors.push(string_of(m.as_slice()));
            None
        },
    };
    proof {
        assert(opt_str(x) == opt_string(spec.x));
        assert(texts(errors@) =~= second + table_warnings(
            table_of(csv_of(spec.data@, opt_string(supplied)), opt_string(spec.x)),
        ));
    }
    ChartDoc { spec, table, errors, data_file }
}

} // verus!
