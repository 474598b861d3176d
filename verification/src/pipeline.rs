//! What the build pipeline decides about its warnings and its panes: the
//! stable name of a warning's family, where a warning came from, and where
//! in a slide a pane's block opens.
use vstd::prelude::*;
use vstd::string::StringSliceAdditionalSpecFns;
use crate::check::{first_hit, first_kind, kind_in, lemma_kind_in_first, pair_views};
use crate::text::{
    byte_offset, chars_of, contains, has_prefix, is_space, is_ws, lemma_byte_offset_step, lemma_lead,
    lemma_line_end, line_at, line_end, next_line, read_line, same, slice, trim_end, trim_start,
    trimmed_end, trimmed_start, starts_with, utf8_width,
};

verus! {

/// Needle and kind, in the order they are tried.
pub open spec fn warning_table() -> Seq<(Seq<char>, Seq<char>)> {
    seq![
        ("mermaid:"@, "build.mermaid"@),
        ("skill card"@, "build.skill"@),
        ("shape line "@, "build.shape"@),
        ("shape:"@, "build.shape"@),
        ("grid-pad"@, "build.layout"@),
        ("grid-gap"@, "build.layout"@),
        ("anim "@, "build.anim"@),
        ("cannot split"@, "build.anim"@),
        ("a target is split"@, "build.anim"@),
        ("annotate "@, "build.annotate"@),
        ("effects line "@, "build.effects"@),
        ("connect "@, "build.connect"@),
        ("chart"@, "build.chart"@),
        ("footnote reference"@, "build.footnote"@),
        ("toc:"@, "build.toc"@),
        ("bibliography"@, "build.bibliography"@),
        ("citations:"@, "build.bibliography"@),
        ("masters:"@, "build.master"@),
        ("master "@, "build.master"@),
        ("is not in the layout"@, "build.layout"@),
        ("pane block"@, "build.layout"@),
        ("merged region"@, "build.layout"@),
        ("bg-light"@, "build.layout"@),
        ("bg-dark"@, "build.layout"@),
        ("is still on the slide as text"@, "build.span"@),
        ("the brace over"@, "build.math"@),
        ("math:"@, "build.math"@),
        ("unknown theme"@, "build.theme"@),
        ("no longer a theme name"@, "build.theme"@),
        ("unknown mode"@, "build.theme"@),
        ("file theme is usable"@, "build.theme"@),
        ("theme: cannot read"@, "build.css"@),
        ("`css:` was removed"@, "build.css"@),
        ("theme: `"@, "build.theme"@),
        ("transition:"@, "build.transition"@),
        ("autoplay:"@, "build.autoplay"@),
        ("no slides:"@, "build.deck"@),
        ("<!-- next -->"@, "build.continuation"@),
        ("file not found"@, "build.asset"@),
        ("not inlined"@, "build.asset"@)
    ]
}

/// A stable name for what a build warning is about: the kind of the first
/// needle in the table that the message contains, `build.other` when none
/// is. The JSON report and the language server both read it.
pub fn warning_kind(message: &str) -> (r: &'static str)
    ensures
        r@ == kind_in(warning_table(), message@, 0),
{
    let table: [(&'static str, &'static str); 40] = [
        ("mermaid:", "build.mermaid"),
        ("skill card", "build.skill"),
        ("shape line ", "build.shape"),
        ("shape:", "build.shape"),
        ("grid-pad", "build.layout"),
        ("grid-gap", "build.layout"),
        ("anim ", "build.anim"),
        ("cannot split", "build.anim"),
        ("a target is split", "build.anim"),
        ("annotate ", "build.annotate"),
        ("effects line ", "build.effects"),
        ("connect ", "build.connect"),
        ("chart", "build.chart"),
        ("footnote reference", "build.footnote"),
        ("toc:", "build.toc"),
        ("bibliography", "build.bibliography"),
        ("citations:", "build.bibliography"),
        ("masters:", "build.master"),
        ("master ", "build.master"),
        ("is not in the layout", "build.layout"),
        ("pane block", "build.layout"),
        ("merged region", "build.layout"),
        ("bg-light", "build.layout"),
        ("bg-dark", "build.layout"),
        ("is still on the slide as text", "build.span"),
        ("the brace over", "build.math"),
        ("math:", "build.math"),
        ("unknown theme", "build.theme"),
        ("no longer a theme name", "build.theme"),
        ("unknown mode", "build.theme"),
        ("file theme is usable", "build.theme"),
        ("theme: cannot read", "build.css"),
        ("`css:` was removed", "build.css"),
        ("theme: `", "build.theme"),
        ("transition:", "build.transition"),
        ("autoplay:", "build.autoplay"),
        ("no slides:", "build.deck"),
        ("<!-- next -->", "build.continuation"),
        ("file not found", "build.asset"),
        ("not inlined", "build.asset"),
    ];
    assert(pair_views(table@) =~= warning_table());
    first_kind(message, &table)
}

/// No kind in the table is `build.other`.
proof fn lemma_table_kinds_named()
    ensures
        forall|k: int| 0 <= k < warning_table().len() ==> #[trigger] warning_table()[k].1 != "build.other"@,
{
    reveal_strlit("build.other");
    reveal_strlit("build.mermaid");
    assert("build.mermaid"@[6] != "build.other"@[6]);
    reveal_strlit("build.skill");
    assert("build.skill"@[6] != "build.other"@[6]);
    reveal_strlit("build.shape");
    assert("build.shape"@[6] != "build.other"@[6]);
    reveal_strlit("build.layout");
    assert("build.layout"@[6] != "build.other"@[6]);
    reveal_strlit("build.anim");
    assert("build.anim"@[6] != "build.other"@[6]);
    reveal_strlit("build.annotate");
    assert("build.annotate"@[6] != "build.other"@[6]);
    reveal_strlit("build.effects");
    assert("build.effects"@[6] != "build.other"@[6]);
    reveal_strlit("build.connect");
    assert("build.connect"@[6] != "build.other"@[6]);
    reveal_strlit("build.chart");
    assert("build.chart"@[6] != "build.other"@[6]);
    reveal_strlit("build.footnote");
    assert("build.footnote"@[6] != "build.other"@[6]);
    reveal_strlit("build.toc");
    assert("build.toc"@[6] != "build.other"@[6]);
    reveal_strlit("build.bibliography");
    assert("build.bibliography"@[6] != "build.other"@[6]);
    reveal_strlit("build.master");
    assert("build.master"@[6] != "build.other"@[6]);
    reveal_strlit("build.span");
    assert("build.span"@[6] != "build.other"@[6]);
    reveal_strlit("build.math");
    assert("build.math"@[6] != "build.other"@[6]);
    reveal_strlit("build.theme");
    assert("build.theme"@[6] != "build.other"@[6]);
    reveal_strlit("build.css");
    assert("build.css"@[6] != "build.other"@[6]);
    reveal_strlit("build.transition");
    assert("build.transition"@[6] != "build.other"@[6]);
    reveal_strlit("build.autoplay");
    assert("build.autoplay"@[6] != "build.other"@[6]);
    reveal_strlit("build.deck");
    assert("build.deck"@[6] != "build.other"@[6]);
    reveal_strlit("build.continuation");
    assert("build.continuation"@[6] != "build.other"@[6]);
    reveal_strlit("build.asset");
    assert("build.asset"@[6] != "build.other"@[6]);
}

/// A warning's kind is that of the first needle in the table that the
/// message contains, tried in the table's order, and it is `build.other`
/// exactly when the message contains none of the needles.
pub proof fn lemma_warning_kind_first(message: Seq<char>)
    ensures
        ({
            let j = first_hit(warning_table(), message, 0);
            &&& 0 <= j <= warning_table().len()
            &&& forall|k: int| 0 <= k < j ==> !contains(message, #[trigger] warning_table()[k].0)
            &&& j < warning_table().len() ==> contains(message, warning_table()[j].0)
                && kind_in(warning_table(), message, 0) == warning_table()[j].1
        }),
        kind_in(warning_table(), message, 0) == "build.other"@ <==> forall|k: int|
            0 <= k < warning_table().len() ==> !contains(message, #[trigger] warning_table()[k].0),
{
    lemma_kind_in_first(warning_table(), message, 0);
    lemma_table_kinds_named();
    let j = first_hit(warning_table(), message, 0);
    if j < warning_table().len() {
        assert(warning_table()[j].1 != "build.other"@);
    }
}

/// Where a build warning came from, as far as the source map can say; an
/// absent field means not known.
#[derive(Debug, Clone, Default, PartialEq, Eq)]
pub struct WarningSite {
    /// 1-based rendered slide number.
    pub slide: Option<usize>,
    pub file: Option<String>,
    /// Byte offset of the slide's first character within `file`.
    pub offset: Option<usize>,
}

/// Where a pane's name ends: at white space or a `{`.
pub open spec fn name_end(r: Seq<char>, i: int) -> int
    decreases r.len() - i,
{
    if 0 <= i < r.len() && !is_ws(r[i]) && r[i] != '{' {
        name_end(r, i + 1)
    } else {
        i
    }
}

/// The pane a line opens, when it is a `::: pane NAME` line.
pub open spec fn pane_opened(line: Seq<char>) -> Option<Seq<char>> {
    let t = trim_start(trim_end(line));
    if has_prefix(t, "::: pane "@) {
        let r = trim_start(t.skip(9));
        Some(r.take(name_end(r, 0)))
    } else {
        None
    }
}

/// The first line from `from` on that opens `pane`.
pub open spec fn pane_line_from(s: Seq<char>, from: int, pane: Seq<char>) -> Option<int>
    decreases s.len() + 1 - from,
{
    if 0 <= from < s.len() && from < next_line(s, from) <= s.len() + 1 {
        if pane_opened(s.subrange(from, line_end(s, from))) == Some(pane) {
            Some(from)
        } else {
            pane_line_from(s, next_line(s, from), pane)
        }
    } else {
        None
    }
}

fn opened_pane(line: &Vec<char>) -> (r: Option<Vec<char>>)
    ensures
        match r {
            Some(n) => pane_opened(line@) == Some(n@),
            None => pane_opened(line@) is None,
        },
{
    let t = trimmed_start(&trimmed_end(line));
    proof {
        reveal_strlit("::: pane ");
    }
    if !starts_with(&t, &chars_of("::: pane ")) {
        return None;
    }
    let r = trimmed_start(&slice(&t, 9, t.len()));
    assert(t@.subrange(9, t@.len() as int) == t@.skip(9));
    let mut i: usize = 0;
    while i < r.len() && !is_space(r[i]) && r[i] != '{'
        invariant
            i <= r@.len(),
            name_end(r@, 0) == name_end(r@, i as int),
        decreases r@.len() - i,
    {
        i += 1;
    }
    let n = slice(&r, 0, i);
    assert(n@ == r@.take(i as int));
    Some(n)
}

/// The byte offset within a slide's text of the line opening `pane`, or
/// `None` when the slide gives it no block. Matched on the whole name, so
/// `fig` does not find `figure`.
#[verifier::spinoff_prover]
pub fn pane_block_offset(slide: &str, pane: &str) -> (r: Option<usize>)
    ensures
        match r {
            Some(at) => pane_line_from(slide@, 0, pane@) matches Some(k) && at == byte_offset(slide@, k),
            None => pane_line_from(slide@, 0, pane@) is None,
        },
{
    let cs = chars_of(slide);
    let total = slide.as_bytes().len();
    let p = chars_of(pane);
    let mut from: usize = 0;
    let mut at: usize = 0;
    assert(cs@.take(0) =~= Seq::<char>::empty());
    while from < cs.len()
        invariant
            from <= cs@.len(),
            cs@ == slide@,
            p@ == pane@,
            total == vstd::utf8::encode_utf8(cs@).len(),
            at == byte_offset(cs@, from as int),
            pane_line_from(cs@, 0, pane@) == pane_line_from(cs@, from as int, pane@),
        decreases cs@.len() - from,
    {
        let (raw, end) = read_line(&cs, from);
        proof {
            lemma_line_end(cs@, from as int);
        }
        let whole = slice(&cs, from, end);
        let opened = opened_pane(&whole);
        let hit = match &opened {
            Some(name) => same(name, &p),
            None => false,
        };
        if hit {
            return Some(at);
        }
        assert(pane_opened(cs@.subrange(from as int, line_end(cs@, from as int))) != Some(pane@));
        let stop = if end < cs.len() {
            end + 1
        } else {
            end
        };
        let mut k = from;
        while k < stop
            invariant
                from <= k <= stop <= cs@.len(),
                total == vstd::utf8::encode_utf8(cs@).len(),
                at == byte_offset(cs@, k as int),
            decreases stop - k,
        {
            proof {
                lemma_byte_offset_step(cs@, k as int);
            }
            at = at + utf8_width(cs[k]);
            k += 1;
        }
        assert(pane_line_from(cs@, from as int, pane@) == pane_line_from(cs@, next_line(cs@, from as int), pane@));
        assert(pane_line_from(cs@, from as int, pane@) == pane_line_from(cs@, stop as int, pane@));
        from = stop;
    }
    None
}


// ---------------------------------------------------------------------------
// The render cache
// ---------------------------------------------------------------------------

/// One slide's rendered HTML, kept while the files it drew on are
/// unchanged: each asset's path with the modification time it had then
/// (nanoseconds from the epoch; `None` when it had none to read).
pub struct CacheEntry {
    html: String,
    assets: Vec<(String, Option<i128>)>,
}

impl CacheEntry {
    pub closed spec fn html_view(&self) -> Seq<char> {
        self.html@
    }

    pub closed spec fn times(&self) -> Seq<Option<i128>> {
        self.assets@.map_values(|a: (String, Option<i128>)| a.1)
    }

    pub closed spec fn asset_count(&self) -> nat {
        self.assets@.len()
    }

    /// The assets' paths, in order.
    pub closed spec fn paths(&self) -> Seq<Seq<char>> {
        self.assets@.map_values(|a: (String, Option<i128>)| a.0@)
    }

    pub fn new(html: String, assets: Vec<(String, Option<i128>)>) -> (r: CacheEntry)
        ensures
            r.html_view() == html@,
            r.times() == assets@.map_values(|a: (String, Option<i128>)| a.1),
            r.asset_count() == assets@.len(),
            r.paths() == assets@.map_values(|a: (String, Option<i128>)| a.0@),
    {
        CacheEntry { html, assets }
    }

    /// The HTML the entry holds.
    pub fn html(&self) -> (r: &str)
        ensures
            r@ == self.html_view(),
    {
        self.html.as_str()
    }

    /// The assets' paths, in the order their times are to be read back.
    pub fn asset_paths(&self) -> (r: Vec<String>)
        ensures
            r@.len() == self.asset_count(),
            r@.map_values(|s: String| s@) == self.paths(),
    {
        let mut out: Vec<String> = Vec::new();
        let mut i: usize = 0;
        while i < self.assets.len()
            invariant
                i <= self.assets@.len(),
                out@.len() == i,
                out@.map_values(|s: String| s@) == self.paths().take(i as int),
            decreases self.assets@.len() - i,
        {
            let ghost before = out@.map_values(|s: String| s@);
            out.push(self.assets[i].0.clone());
            assert(out@.map_values(|s: String| s@) =~= before.push(self.assets@[i as int].0@));
            assert(self.paths().take(i + 1) =~= self.paths().take(i as int).push(
                self.assets@[i as int].0@,
            ));
            i += 1;
        }
        assert(self.paths().take(self.assets@.len() as int) =~= self.paths());
        out
    }

    /// Whether every asset still has the time recorded for it, given the
    /// times read now, one per asset in order.
    pub fn is_fresh(&self, now: &Vec<Option<i128>>) -> (r: bool)
        requires
            now@.len() == self.asset_count(),
        ensures
            r == (now@ == self.times()),
    {
        let mut i: usize = 0;
        while i < self.assets.len()
            invariant
                i <= self.assets@.len() == now@.len(),
                forall|j: int| 0 <= j < i ==> now@[j] == self.assets@[j].1,
            decreases self.assets@.len() - i,
        {
            if now[i] != self.assets[i].1 {
                assert(now@[i as int] != self.times()[i as int]);
                return false;
            }
            i += 1;
        }
        assert(now@ =~= self.times());
        true
    }
}

} // verus!
