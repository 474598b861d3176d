//! The quote check's decisions: which page a search for the words settles
//! on, what it reports, how a quote is shortened for a message, which PDF a
//! BibTeX `file` field names, and where a block's `source:` points. Opening
//! the paper and reading its pages is the caller's.
use vstd::prelude::*;
use crate::annot::ascii_lowered;
use crate::cite::entry::{field_of, Entry, EntryView};
use crate::strmap::StrMap;
use crate::skill::{join_path, joined};
use crate::text::{
    chars_of, has_prefix, has_suffix, pieces, push_all, push_str, slice, split_on, starts_with,
    string_of, trim, trimmed, ends_with, decimal, push_decimal, lemma_trim_twice,
};

verus! {

/// Why a quote was not found.
#[derive(Debug, Clone, PartialEq, Eq)]
pub enum Miss {
    /// The paper has no page of that number.
    NoPage(u32),
    /// No exact match, but a run of words on `page` this many edits away.
    Near { page: u32, text: String, distance: usize },
    Nothing,
    /// A page whose text could not be read.
    Unreadable(String),
}

/// What looking for the words on one page came to.
#[derive(Debug, Clone, PartialEq, Eq)]
pub enum PageFind {
    /// The words stand on the page as the slide has them.
    Exact,
    /// No exact match; the nearest run of words, this many edits away.
    Near { text: String, distance: usize },
    /// Nothing on the page comes close.
    NoMatch,
    /// The page's text could not be read.
    Unreadable(String),
}

/// Which page a search settles on, by its place in the page list.
#[derive(Debug, Clone, Copy, PartialEq, Eq, Structural)]
pub enum Settled {
    Exact(usize),
    Near(usize),
    Unreadable(usize),
    NoPage(u32),
    Nothing,
}

/// Whether the page at `i` is one the search looks at: every page, or only
/// the one asked for.
pub open spec fn considered(numbers: Seq<u32>, page: Option<u32>, i: int) -> bool {
    match page {
        None => true,
        Some(p) => numbers[i] == p,
    }
}

/// The search from the page at `i` on, `nearest` the nearest words met so
/// far and `unreadable` the first page that could not be read.
pub open spec fn settle_from(
    numbers: Seq<u32>,
    page: Option<u32>,
    finds: Seq<PageFind>,
    i: int,
    nearest: Option<int>,
    unreadable: Option<int>,
) -> Settled
    decreases finds.len() - i,
{
    if i < 0 || i >= finds.len() {
        match (nearest, unreadable) {
            (Some(k), _) => Settled::Near(k as usize),
            (None, Some(k)) => Settled::Unreadable(k as usize),
            (None, None) => Settled::Nothing,
        }
    } else if !considered(numbers, page, i) {
        settle_from(numbers, page, finds, i + 1, nearest, unreadable)
    } else {
        match finds[i] {
            PageFind::Exact => Settled::Exact(i as usize),
            PageFind::Near { distance, .. } => {
                let closer = match nearest {
                    None => true,
                    Some(k) => match finds[k] {
                        PageFind::Near { distance: d, .. } => distance < d,
                        _ => true,
                    },
                };
                if closer {
                    settle_from(numbers, page, finds, i + 1, Some(i), unreadable)
                } else {
                    settle_from(numbers, page, finds, i + 1, nearest, unreadable)
                }
            },
            PageFind::NoMatch => settle_from(numbers, page, finds, i + 1, nearest, unreadable),
            PageFind::Unreadable(_) => settle_from(
                numbers,
                page,
                finds,
                i + 1,
                nearest,
                if unreadable is None {
                    Some(i)
                } else {
                    unreadable
                },
            ),
        }
    }
}

/// Where a search over the pages `numbers`, with `finds` what each page
/// gave, settles: a page asked for that the paper lacks, else the first
/// exact match in page order, else the nearest words (the earliest of
/// equally near ones), else the first unreadable page, else nothing.
pub open spec fn settle_of(numbers: Seq<u32>, page: Option<u32>, finds: Seq<PageFind>) -> Settled {
    match page {
        Some(n) if !numbers.contains(n) => Settled::NoPage(n),
        _ => settle_from(numbers, page, finds, 0, None, None),
    }
}

/// The miss a settled search reports.
pub open spec fn miss_fits(s: Settled, numbers: Seq<u32>, finds: Seq<PageFind>, m: Miss) -> bool {
    match s {
        Settled::Exact(_) => false,
        Settled::NoPage(n) => m == Miss::NoPage(n),
        Settled::Nothing => m == Miss::Nothing,
        Settled::Near(i) => match (m, finds[i as int]) {
            (Miss::Near { page, text, distance }, PageFind::Near { text: t, distance: d }) => page
                == numbers[i as int] && text@ == t@ && distance == d,
            _ => false,
        },
        Settled::Unreadable(i) => match (m, finds[i as int]) {
            (Miss::Unreadable(e), PageFind::Unreadable(f)) => e@ == f@,
            _ => false,
        },
    }
}

/// How many edits away the words on a page were; zero for a page with no
/// near words.
pub open spec fn edits(f: PageFind) -> int {
    match f {
        PageFind::Near { distance, .. } => distance as int,
        _ => 0,
    }
}

/// The search from `i` on keeps what the pages before `i` made it hold.
proof fn lemma_settle_from(
    numbers: Seq<u32>,
    page: Option<u32>,
    finds: Seq<PageFind>,
    i: int,
    nearest: Option<int>,
    unreadable: Option<int>,
)
    requires
        0 <= i <= finds.len() == numbers.len() <= usize::MAX,
        forall|k: int| 0 <= k < i && considered(numbers, page, k) ==> !(#[trigger] finds[k] is Exact),
        nearest matches Some(n) ==> 0 <= n < i && considered(numbers, page, n) && finds[n] is Near
            && forall|k: int|
            0 <= k < i && considered(numbers, page, k) && #[trigger] finds[k] is Near ==> edits(finds[n])
                <= edits(finds[k]) && (k < n ==> edits(finds[n]) < edits(finds[k])),
        nearest is None ==> forall|k: int|
            0 <= k < i && considered(numbers, page, k) ==> !(#[trigger] finds[k] is Near),
    ensures
        settle_from(numbers, page, finds, i, nearest, unreadable) matches Settled::Exact(e) ==> i <= e
            < finds.len() && considered(numbers, page, e as int) && finds[e as int] is Exact,
        (exists|k: int| i <= k < finds.len() && considered(numbers, page, k) && #[trigger] finds[k] is Exact)
            ==> settle_from(numbers, page, finds, i, nearest, unreadable) is Exact,
        settle_from(numbers, page, finds, i, nearest, unreadable) matches Settled::Exact(e) ==> forall|k: int|
            i <= k < e && considered(numbers, page, k) ==> !(#[trigger] finds[k] is Exact),
        settle_from(numbers, page, finds, i, nearest, unreadable) matches Settled::Near(n) ==> 0 <= n
            < finds.len() && considered(numbers, page, n as int) && finds[n as int] is Near && (forall|k: int|
            0 <= k < finds.len() && considered(numbers, page, k) ==> !(#[trigger] finds[k] is Exact)) && (
        forall|k: int|
            0 <= k < finds.len() && considered(numbers, page, k) && #[trigger] finds[k] is Near ==> edits(
                finds[n as int],
            ) <= edits(finds[k]) && (k < n ==> edits(finds[n as int]) < edits(finds[k]))),
        (settle_from(numbers, page, finds, i, nearest, unreadable) is Nothing || settle_from(
            numbers,
            page,
            finds,
            i,
            nearest,
            unreadable,
        ) is Unreadable) ==> forall|k: int|
            0 <= k < finds.len() && considered(numbers, page, k) ==> !(#[trigger] finds[k] is Near),
    decreases finds.len() - i,
{
    if i < finds.len() {
        if !considered(numbers, page, i) {
            lemma_settle_from(numbers, page, finds, i + 1, nearest, unreadable);
        } else {
            match finds[i] {
                PageFind::Exact => {},
                PageFind::Near { distance, .. } => {
                    let closer = match nearest {
                        None => true,
                        Some(k) => match finds[k] {
                            PageFind::Near { distance: d, .. } => distance < d,
                            _ => true,
                        },
                    };
                    if closer {
                        lemma_settle_from(numbers, page, finds, i + 1, Some(i), unreadable);
                    } else {
                        lemma_settle_from(numbers, page, finds, i + 1, nearest, unreadable);
                    }
                },
                PageFind::NoMatch => {
                    lemma_settle_from(numbers, page, finds, i + 1, nearest, unreadable);
                },
                PageFind::Unreadable(_) => {
                    lemma_settle_from(
                        numbers,
                        page,
                        finds,
                        i + 1,
                        nearest,
                        if unreadable is None {
                            Some(i)
                        } else {
                            unreadable
                        },
                    );
                },
            }
        }
    }
}

/// The first exact match wins, and failing that the nearest words
/// anywhere: a search settles on an exact match exactly when a page looked
/// at has one, and then on the first; otherwise on the page with the
/// fewest edits, the earliest of equally near ones; and it reports nothing
/// near only when no page looked at came near.
pub proof fn lemma_first_exact_else_nearest(numbers: Seq<u32>, page: Option<u32>, finds: Seq<PageFind>)
    requires
        numbers.len() == finds.len() <= usize::MAX,
    ensures
        settle_of(numbers, page, finds) matches Settled::Exact(e) ==> e < finds.len() && considered(
            numbers,
            page,
            e as int,
        ) && finds[e as int] is Exact && forall|k: int|
            0 <= k < e && considered(numbers, page, k) ==> !(#[trigger] finds[k] is Exact),
        (page matches Some(n) ==> numbers.contains(n)) && (exists|k: int|
            0 <= k < finds.len() && considered(numbers, page, k) && #[trigger] finds[k] is Exact)
            ==> settle_of(numbers, page, finds) is Exact,
        settle_of(numbers, page, finds) matches Settled::Near(n) ==> n < finds.len() && considered(
            numbers,
            page,
            n as int,
        ) && finds[n as int] is Near && (forall|k: int|
            0 <= k < finds.len() && considered(numbers, page, k) ==> !(#[trigger] finds[k] is Exact)) && (
        forall|k: int|
            0 <= k < finds.len() && considered(numbers, page, k) && #[trigger] finds[k] is Near ==> edits(
                finds[n as int],
            ) <= edits(finds[k]) && (k < n ==> edits(finds[n as int]) < edits(finds[k]))),
        (settle_of(numbers, page, finds) is Nothing || settle_of(numbers, page, finds) is Unreadable)
            ==> forall|k: int|
            0 <= k < finds.len() && considered(numbers, page, k) ==> !(#[trigger] finds[k] is Near),
{
    lemma_settle_from(numbers, page, finds, 0, None, None);
}

/// A place in the page list, as the search's spec counts it.
pub open spec fn as_place(o: Option<usize>) -> Option<int> {
    match o {
        Some(k) => Some(k as int),
        None => None,
    }
}

/// Settles a search for a quote over a paper's pages, `numbers` in the
/// paper's order and `finds` what each page gave: `Ok` with the place of
/// the page the words stand on, or the miss to report. The first exact
/// match wins, and failing that the nearest words anywhere.
pub fn settle(numbers: &Vec<u32>, page: Option<u32>, finds: &Vec<PageFind>) -> (r: Result<usize, Miss>)
    requires
        numbers.len() == finds.len(),
    ensures
        match settle_of(numbers@, page, finds@) {
            Settled::Exact(i) => r == Ok::<usize, Miss>(i),
            s => r matches Err(m) && miss_fits(s, numbers@, finds@, m),
        },
{
    if let Some(n) = page {
        let mut found = false;
        let mut j: usize = 0;
        while j < numbers.len()
            invariant
                j <= numbers.len(),
                found <==> exists|k: int| 0 <= k < j && numbers@[k] == n,
            decreases numbers.len() - j,
        {
            if numbers[j] == n {
                found = true;
            }
            j += 1;
        }
        if !found {
            assert(!numbers@.contains(n));
            return Err(Miss::NoPage(n));
        }
        assert(numbers@.contains(n));
    }
    let ghost s0 = settle_from(numbers@, page, finds@, 0, None, None);
    assert(settle_of(numbers@, page, finds@) == s0);
    let mut nearest: Option<usize> = None;
    let mut unreadable: Option<usize> = None;
    let mut i: usize = 0;
    while i < finds.len()
        invariant
            numbers.len() == finds.len(),
            i <= finds.len(),
            settle_from(numbers@, page, finds@, i as int, as_place(nearest), as_place(unreadable)) == s0,
            settle_of(numbers@, page, finds@) == s0,
            nearest matches Some(k) ==> k < finds.len() && finds@[k as int] is Near,
            unreadable matches Some(k) ==> k < finds.len() && finds@[k as int] is Unreadable,
        decreases finds.len() - i,
    {
        let look = match page {
            None => true,
            Some(p) => numbers[i] == p,
        };
        if look {
            match &finds[i] {
                PageFind::Exact => {
                    assert(considered(numbers@, page, i as int));
                    return Ok(i);
                },
                PageFind::Near { distance, .. } => {
                    let closer = match nearest {
                        None => true,
                        Some(k) => match &finds[k] {
                            PageFind::Near { distance: d, .. } => *distance < *d,
                            _ => true,
                        },
                    };
                    if closer {
                        nearest = Some(i);
                    }
                },
                PageFind::NoMatch => {},
                PageFind::Unreadable(_) => {
                    if unreadable.is_none() {
                        unreadable = Some(i);
                    }
                },
            }
        }
        i += 1;
    }
    match (nearest, unreadable) {
        (Some(k), _) => match &finds[k] {
            PageFind::Near { text, distance } => Err(
                Miss::Near { page: numbers[k], text: text.clone(), distance: *distance },
            ),
            _ => Err(Miss::Nothing),
        },
        (None, Some(k)) => match &finds[k] {
            PageFind::Unreadable(e) => Err(Miss::Unreadable(e.clone())),
            _ => Err(Miss::Nothing),
        },
        (None, None) => Err(Miss::Nothing),
    }
}

/// One thing the check has to say; the severity says whether it stops a
/// build.
#[derive(Debug, Clone, PartialEq, Eq)]
pub struct Finding {
    /// 1-based, as the deck counts its slides.
    pub slide: usize,
    pub error: bool,
    pub message: String,
}

/// A finding that does not stop the build.
pub fn warn(slide: usize, message: String) -> (f: Finding)
    ensures
        f.slide == slide,
        !f.error,
        f.message@ == message@,
{
    Finding { slide, error: false, message }
}

/// Where a quote is looked for, as a message says it: on the page the
/// slide names, or anywhere in the paper.
pub open spec fn place_of(name: Seq<char>, page: Option<u32>) -> Seq<char> {
    match page {
        Some(p) => "on p. "@ + decimal(p as nat) + " of "@ + name,
        None => "in "@ + name,
    }
}

/// What the check says on slide `slide` about `quote`, looked for in the
/// paper `name` (on `page` when the slide names one) and missed: an error
/// when the words are nowhere, a warning otherwise.
pub open spec fn miss_message(name: Seq<char>, page: Option<u32>, quote: Seq<char>, miss: Miss) -> Seq<char> {
    match miss {
        Miss::NoPage(p) => name + " has no page "@ + decimal(p as nat),
        Miss::Unreadable(e) => place_of(name, page) + ": "@ + e@,
        Miss::Near { page: at, text, distance } => "quote differs from p. "@ + decimal(at as nat)
            + " of "@ + name + " by "@ + decimal(distance as nat)
            + " edit(s): the slide says \""@ + short_of(quote) + "\" and the page prints \""@
            + short_of(text@) + "\""@,
        Miss::Nothing => "quote is not "@ + place_of(name, page) + ": \""@ + short_of(quote) + "\""@,
    }
}

/// The finding for a quote the paper does not hold as the slide says.
pub fn miss_finding(slide: usize, name: &str, page: Option<u32>, quote: &str, miss: &Miss) -> (f: Finding)
    ensures
        f.slide == slide,
        f.error == (*miss is Nothing),
        f.message@ == miss_message(name@, page, quote@, *miss),
{
    let mut place = chars_of("");
    proof {
        reveal_strlit("");
    }
    match page {
        Some(p) => {
            push_str(&mut place, "on p. ");
            push_decimal(&mut place, p as u64);
            push_str(&mut place, " of ");
            push_str(&mut place, name);
        },
        None => {
            push_str(&mut place, "in ");
            push_str(&mut place, name);
        },
    }
    assert(place@ == place_of(name@, page));
    let mut m: Vec<char> = Vec::new();
    let error = match miss {
        Miss::NoPage(p) => {
            push_str(&mut m, name);
            push_str(&mut m, " has no page ");
            push_decimal(&mut m, *p as u64);
            false
        },
        Miss::Unreadable(e) => {
            push_all(&mut m, &place);
            push_str(&mut m, ": ");
            push_str(&mut m, e.as_str());
            false
        },
        Miss::Near { page: at, text, distance } => {
            push_str(&mut m, "quote differs from p. ");
            push_decimal(&mut m, *at as u64);
            push_str(&mut m, " of ");
            push_str(&mut m, name);
            push_str(&mut m, " by ");
            push_decimal(&mut m, *distance as u64);
            push_str(&mut m, " edit(s): the slide says \"");
            push_str(&mut m, short(quote).as_str());
            push_str(&mut m, "\" and the page prints \"");
            push_str(&mut m, short(text.as_str()).as_str());
            push_str(&mut m, "\"");
            false
        },
        Miss::Nothing => {
            push_str(&mut m, "quote is not ");
            push_all(&mut m, &place);
            push_str(&mut m, ": \"");
            push_str(&mut m, short(quote).as_str());
            push_str(&mut m, "\"");
            true
        },
    };
    Finding { slide, error, message: string_of(m.as_slice()) }
}

/// What the check says of a block whose marks carry quotes but that names
/// no paper to check them against.
pub fn no_source_finding(slide: usize) -> (f: Finding)
    ensures
        f.slide == slide,
        !f.error,
        f.message@ == "a mark carries quote=, but the block has no `source:` line naming the paper to check it against - `source: @key` for a bibliography entry with a `file` field, or `source: path/to/paper.pdf`"@,
{
    warn(
        slide,
        "a mark carries quote=, but the block has no `source:` line naming the paper to check it against - `source: @key` for a bibliography entry with a `file` field, or `source: path/to/paper.pdf`".to_string(),
    )
}

/// A quote as a message can carry it: the first sixty characters, and an
/// ellipsis when there were more.
pub open spec fn short_of(q: Seq<char>) -> Seq<char> {
    if q.len() > 60 {
        q.take(60).push('…')
    } else {
        q
    }
}

pub fn short(quote: &str) -> (r: String)
    ensures
        r@ == short_of(quote@),
{
    let q = chars_of(quote);
    if q.len() > 60 {
        let mut s = slice(&q, 0, 60);
        s.push('…');
        assert(s@ =~= q@.take(60).push('…'));
        string_of(s.as_slice())
    } else {
        string_of(q.as_slice())
    }
}

/// The segments of one attachment, with a drive letter split off by `:` put
/// back (`C:\papers\x.pdf`).
pub open spec fn segments_from(parts: Seq<Seq<char>>, i: int) -> Seq<Seq<char>>
    decreases parts.len() - i,
{
    if i < 0 || i >= parts.len() {
        Seq::empty()
    } else if parts[i].len() == 1 && (('a' <= parts[i][0] && parts[i][0] <= 'z') || ('A'
        <= parts[i][0] && parts[i][0] <= 'Z')) && i + 1 < parts.len() && (has_prefix(
        parts[i + 1],
        "\\"@,
    ) || has_prefix(parts[i + 1], "/"@)) {
        seq![parts[i] + ":"@ + parts[i + 1]] + segments_from(parts, i + 2)
    } else {
        seq![parts[i]] + segments_from(parts, i + 1)
    }
}

/// The first segment from `j` on that, trimmed, ends in `.pdf` in any case.
pub open spec fn first_pdf(segs: Seq<Seq<char>>, j: int) -> Option<Seq<char>>
    decreases segs.len() - j,
{
    if j < 0 || j >= segs.len() {
        None
    } else if has_suffix(ascii_lowered(trim(segs[j])), ".pdf"@) {
        Some(trim(segs[j]))
    } else {
        first_pdf(segs, j + 1)
    }
}

/// The first attachment from `a` on that names a PDF.
pub open spec fn pdf_from(attachments: Seq<Seq<char>>, a: int) -> Option<Seq<char>>
    decreases attachments.len() - a,
{
    if a < 0 || a >= attachments.len() {
        None
    } else {
        match first_pdf(segments_from(pieces(attachments[a], ':'), 0), 0) {
            Some(p) => Some(p),
            None => pdf_from(attachments, a + 1),
        }
    }
}

/// A segment that, trimmed, ends in `.pdf` in any case.
pub open spec fn names_pdf(seg: Seq<char>) -> bool {
    has_suffix(ascii_lowered(trim(seg)), ".pdf"@)
}

/// The segments of attachment `a`: its `:`-separated parts, a one-letter
/// drive put back together with the path after it.
pub open spec fn attachment_segments(attachments: Seq<Seq<char>>, a: int) -> Seq<Seq<char>> {
    segments_from(pieces(attachments[a], ':'), 0)
}

proof fn lemma_first_pdf(segs: Seq<Seq<char>>, j: int)
    requires
        0 <= j,
    ensures
        first_pdf(segs, j) matches Some(p) ==> exists|k: int|
            j <= k < segs.len() && p == trim(#[trigger] segs[k]) && names_pdf(segs[k]) && forall|m: int|
                j <= m < k ==> !names_pdf(#[trigger] segs[m]),
        first_pdf(segs, j) is None ==> forall|k: int| j <= k < segs.len() ==> !names_pdf(#[trigger] segs[k]),
    decreases segs.len() - j,
{
    if j < segs.len() && !names_pdf(segs[j]) {
        lemma_first_pdf(segs, j + 1);
        if let Some(p) = first_pdf(segs, j) {
            let k = choose|k: int|
                j + 1 <= k < segs.len() && p == trim(#[trigger] segs[k]) && names_pdf(segs[k]) && forall|
                    m: int,
                | j + 1 <= m < k ==> !names_pdf(#[trigger] segs[m]);
            assert(j <= k < segs.len() && p == trim(segs[k]) && names_pdf(segs[k]));
        }
    } else if j < segs.len() {
        assert(j <= j < segs.len() && first_pdf(segs, j)->0 == trim(segs[j]));
    }
}

proof fn lemma_pdf_from(attachments: Seq<Seq<char>>, a: int)
    requires
        0 <= a,
    ensures
        pdf_from(attachments, a) matches Some(p) ==> exists|b: int, k: int|
            a <= b < attachments.len() && 0 <= k < attachment_segments(attachments, b).len() && p == trim(
                #[trigger] attachment_segments(attachments, b)[k],
            ) && names_pdf(attachment_segments(attachments, b)[k]) && (forall|m: int|
                0 <= m < k ==> !names_pdf(#[trigger] attachment_segments(attachments, b)[m])) && forall|
                c: int,
                m: int,
            |
                a <= c < b && 0 <= m < attachment_segments(attachments, c).len() ==> !names_pdf(
                    #[trigger] attachment_segments(attachments, c)[m],
                ),
        pdf_from(attachments, a) is None ==> forall|b: int, k: int|
            a <= b < attachments.len() && 0 <= k < attachment_segments(attachments, b).len() ==> !names_pdf(
                #[trigger] attachment_segments(attachments, b)[k],
            ),
    decreases attachments.len() - a,
{
    if a < attachments.len() {
        let segs = attachment_segments(attachments, a);
        lemma_first_pdf(segs, 0);
        lemma_pdf_from(attachments, a + 1);
        if first_pdf(segs, 0) is None {
            if let Some(p) = pdf_from(attachments, a) {
                let (b, k) = choose|b: int, k: int|
                    a + 1 <= b < attachments.len() && 0 <= k < attachment_segments(attachments, b).len()
                        && p == trim(#[trigger] attachment_segments(attachments, b)[k]) && names_pdf(
                        attachment_segments(attachments, b)[k],
                    ) && (forall|m: int|
                        0 <= m < k ==> !names_pdf(#[trigger] attachment_segments(attachments, b)[m]))
                        && forall|c: int, m: int|
                        a + 1 <= c < b && 0 <= m < attachment_segments(attachments, c).len() ==> !names_pdf(
                            #[trigger] attachment_segments(attachments, c)[m],
                        );
                assert forall|c: int, m: int|
                    a <= c < b && 0 <= m < attachment_segments(attachments, c).len() implies !names_pdf(
                        #[trigger] attachment_segments(attachments, c)[m],
                    ) by {
                    if c == a {
                        assert(segs[m] == attachment_segments(attachments, c)[m]);
                    }
                }
            }
        }
    }
}

/// A BibTeX `file` field names the first PDF it lists: what is found is
/// trimmed and ends in `.pdf` in any case, and it is a segment of one of
/// the `;`-separated attachments (a one-letter drive rejoined to the path
/// after it), with no earlier attachment listing one and no earlier
/// segment of its own; nothing is found only when no segment of any
/// attachment ends in `.pdf`.
pub proof fn lemma_pdf_in_field(field: Seq<char>)
    ensures
        ({
            let atts = pieces(field, ';');
            &&& pdf_from(atts, 0) matches Some(p) ==> trim(p) == p && has_suffix(ascii_lowered(p), ".pdf"@)
                && exists|b: int, k: int|
                0 <= b < atts.len() && 0 <= k < attachment_segments(atts, b).len() && p == trim(
                    #[trigger] attachment_segments(atts, b)[k],
                ) && (forall|m: int| 0 <= m < k ==> !names_pdf(#[trigger] attachment_segments(atts, b)[m]))
                    && forall|c: int, m: int|
                    0 <= c < b && 0 <= m < attachment_segments(atts, c).len() ==> !names_pdf(
                        #[trigger] attachment_segments(atts, c)[m],
                    )
            &&& pdf_from(atts, 0) is None <==> forall|b: int, k: int|
                0 <= b < atts.len() && 0 <= k < attachment_segments(atts, b).len() ==> !names_pdf(
                    #[trigger] attachment_segments(atts, b)[k],
                )
        }),
{
    let atts = pieces(field, ';');
    lemma_pdf_from(atts, 0);
    if let Some(p) = pdf_from(atts, 0) {
        let (b, k) = choose|b: int, k: int|
            0 <= b < atts.len() && 0 <= k < attachment_segments(atts, b).len() && p == trim(
                #[trigger] attachment_segments(atts, b)[k],
            ) && names_pdf(attachment_segments(atts, b)[k]) && (forall|m: int|
                0 <= m < k ==> !names_pdf(#[trigger] attachment_segments(atts, b)[m])) && forall|
                c: int,
                m: int,
            |
                0 <= c < b && 0 <= m < attachment_segments(atts, c).len() ==> !names_pdf(
                    #[trigger] attachment_segments(atts, c)[m],
                );
        lemma_trim_twice(attachment_segments(atts, b)[k]);
    }
}

pub(crate) fn lowercase_ascii(s: &Vec<char>) -> (r: Vec<char>)
    ensures
        r@ == ascii_lowered(s@),
{
    let mut out: Vec<char> = Vec::new();
    let mut i: usize = 0;
    while i < s.len()
        invariant
            i <= s@.len(),
            out@ == ascii_lowered(s@).take(i as int),
        decreases s@.len() - i,
    {
        let c = s[i];
        let l = if 'A' <= c && c <= 'Z' {
            ((c as u32) + 32) as u8 as char
        } else {
            c
        };
        assert(l == ascii_lowered(s@)[i as int]) by {
            if 'A' <= c && c <= 'Z' {
                assert(((c as u32) + 32) as u8 as char == ((c as u32) + 32) as char);
            }
        }
        out.push(l);
        assert(out@ =~= ascii_lowered(s@).take(i + 1));
        i += 1;
    }
    assert(ascii_lowered(s@).take(s@.len() as int) =~= ascii_lowered(s@));
    out
}

fn pdf_segment(parts: &Vec<Vec<char>>) -> (r: Option<Vec<char>>)
    ensures
        match r {
            Some(p) => first_pdf(segments_from(parts@.map_values(|p: Vec<char>| p@), 0), 0) == Some(p@),
            None => first_pdf(segments_from(parts@.map_values(|p: Vec<char>| p@), 0), 0) is None,
        },
{
    let ghost pv = parts@.map_values(|p: Vec<char>| p@);
    let ext = chars_of(".pdf");
    let bs = chars_of("\\");
    let sl = chars_of("/");
    let mut i: usize = 0;
    while i < parts.len()
        invariant
            i <= parts@.len(),
            pv == parts@.map_values(|p: Vec<char>| p@),
            ext@ == ".pdf"@,
            bs@ == "\\"@,
            sl@ == "/"@,
            first_pdf(segments_from(pv, 0), 0) == first_pdf(segments_from(pv, i as int), 0),
        decreases parts@.len() - i,
    {
        let part = &parts[i];
        assert(pv[i as int] == part@);
        let drive = part.len() == 1 && (('a' <= part[0] && part[0] <= 'z') || ('A' <= part[0]
            && part[0] <= 'Z')) && i + 1 < parts.len() && (starts_with(&parts[i + 1], &bs)
            || starts_with(&parts[i + 1], &sl));
        let (seg, step): (Vec<char>, usize) = if drive {
            assert(pv[i + 1] == parts@[i + 1]@);
            let mut s = part.clone();
            push_str(&mut s, ":");
            push_all(&mut s, &parts[i + 1]);
            (s, 2)
        } else {
            (part.clone(), 1)
        };
        let ghost rest = segments_from(pv, i + step);
        assert(segments_from(pv, i as int) == seq![seg@] + rest);
        let t = trimmed(&seg);
        if ends_with(&lowercase_ascii(&t), &ext) {
            assert((seq![seg@] + rest)[0] == seg@);
            return Some(t);
        }
        proof {
            lemma_first_pdf_shift(seg@, rest);
        }
        i += step;
    }
    None
}

proof fn lemma_first_pdf_shift(seg: Seq<char>, rest: Seq<Seq<char>>)
    requires
        !has_suffix(ascii_lowered(trim(seg)), ".pdf"@),
    ensures
        first_pdf(seq![seg] + rest, 0) == first_pdf(rest, 0),
{
    lemma_first_pdf_from(seq![seg] + rest, rest, 1);
}

proof fn lemma_first_pdf_from(all: Seq<Seq<char>>, rest: Seq<Seq<char>>, k: int)
    requires
        1 <= k <= all.len(),
        all.len() == rest.len() + 1,
        forall|i: int| 0 <= i < rest.len() ==> all[i + 1] == rest[i],
    ensures
        first_pdf(all, k) == first_pdf(rest, k - 1),
    decreases all.len() - k,
{
    if k < all.len() {
        lemma_first_pdf_from(all, rest, k + 1);
    }
}

/// The PDF a BibTeX `file` field names, in the forms reference managers
/// write: a bare path; `Title:path:application/pdf`; `:path:PDF`; several of
/// those separated by `;`. The first that ends in `.pdf` wins.
pub fn pdf_in_file_field(field: &str) -> (r: Option<String>)
    ensures
        match r {
            Some(p) => pdf_from(pieces(field@, ';'), 0) == Some(p@),
            None => pdf_from(pieces(field@, ';'), 0) is None,
        },
{
    let attachments = split_on(&chars_of(field), ';');
    let ghost av = attachments@.map_values(|p: Vec<char>| p@);
    let mut a: usize = 0;
    while a < attachments.len()
        invariant
            a <= attachments@.len(),
            av == attachments@.map_values(|p: Vec<char>| p@),
            av == pieces(field@, ';'),
            pdf_from(av, 0) == pdf_from(av, a as int),
        decreases attachments@.len() - a,
    {
        assert(av[a as int] == attachments@[a as int]@);
        let parts = split_on(&attachments[a], ':');
        if let Some(p) = pdf_segment(&parts) {
            return Some(string_of(p.as_slice()));
        }
        a += 1;
    }
    None
}

/// Where a block's `source:` points, before any directory is joined to it:
/// a path as written, or the PDF a bibliography entry's `file` names.
#[derive(Debug, Clone, PartialEq, Eq)]
pub enum Source {
    /// A path written in the block, relative to the deck unless absolute.
    Given(String),
    /// A path from an entry's `file` field, relative to the `.bib` holding
    /// it, or to the deck when nothing is there.
    Attached(String),
}

pub enum SourceView {
    Given(Seq<char>),
    Attached(Seq<char>),
}

impl View for Source {
    type V = SourceView;

    open spec fn view(&self) -> SourceView {
        match self {
            Source::Given(p) => SourceView::Given(p@),
            Source::Attached(p) => SourceView::Attached(p@),
        }
    }
}

/// What `source:` resolves to against a bibliography.
pub open spec fn source_of(source: Seq<char>, bib: Map<Seq<char>, EntryView>) -> Result<SourceView, Seq<char>> {
    if !has_prefix(source, "@"@) {
        Ok(SourceView::Given(source))
    } else {
        let key = source.skip(1);
        if !bib.contains_key(key) {
            Err("source @"@ + key + " is not in the bibliography"@)
        } else {
            match field_of(bib[key].fields, seq!["file"@]) {
                None => Err(
                    "@"@ + key
                        + " has no `file` field naming its PDF; a reference manager writes one, or write `source: path/to/paper.pdf` in the block instead"@,
                ),
                Some(field) => match pdf_from(pieces(field, ';'), 0) {
                    None => Err("@"@ + key + ": no PDF in its `file` field (`"@ + field + "`)"@),
                    Some(rel) => Ok(SourceView::Attached(rel)),
                },
            }
        }
    }
}

/// Where a block's `source:` points: a path as written, or, for `@key`, the
/// PDF the entry's `file` field names.
pub fn resolve(source: &str, bib: &StrMap<Entry>) -> (r: Result<Source, String>)
    ensures
        match r {
            Ok(s) => source_of(source@, bib@) == Ok::<SourceView, Seq<char>>(s@),
            Err(e) => source_of(source@, bib@) == Err::<SourceView, Seq<char>>(e@),
        },
{
    let s = chars_of(source);
    proof {
        reveal_strlit("@");
    }
    if !starts_with(&s, &chars_of("@")) {
        return Ok(Source::Given(string_of(s.as_slice())));
    }
    let key = slice(&s, 1, s.len());
    assert(key@ == source@.skip(1));
    let ks = string_of(key.as_slice());
    let entry = match bib.get(ks.as_str()) {
        Some(e) => e,
        None => {
            let mut msg: Vec<char> = Vec::new();
            push_str(&mut msg, "source @");
            push_all(&mut msg, &key);
            push_str(&mut msg, " is not in the bibliography");
            return Err(string_of(msg.as_slice()));
        },
    };
    let names: [&str; 1] = ["file"];
    assert(names@.map_values(|n: &str| n@) =~= seq!["file"@]);
    let field = match entry.field(&names) {
        Some(f) => f,
        None => {
            let mut msg: Vec<char> = Vec::new();
            push_str(&mut msg, "@");
            push_all(&mut msg, &key);
            push_str(
                &mut msg,
                " has no `file` field naming its PDF; a reference manager writes one, or write `source: path/to/paper.pdf` in the block instead",
            );
            return Err(string_of(msg.as_slice()));
        },
    };
    match pdf_in_file_field(field) {
        Some(rel) => Ok(Source::Attached(rel)),
        None => {
            let mut msg: Vec<char> = Vec::new();
            push_str(&mut msg, "@");
            push_all(&mut msg, &key);
            push_str(&mut msg, ": no PDF in its `file` field (`");
            push_str(&mut msg, field);
            push_str(&mut msg, "`)");
            Err(string_of(msg.as_slice()))
        },
    }
}

/// `p` against the directory `base`, as a path joins on a system whose
/// separator is `/`: an absolute `p` (one starting `/`) stands as it is.
pub open spec fn against(base: Seq<char>, p: Seq<char>) -> Seq<char> {
    if p.len() > 0 && p[0] == '/' {
        p
    } else {
        joined(base, p)
    }
}

/// The file whose existence decides where an attached PDF is: the path
/// beside the `.bib` in `bib_dir`, when the source is an entry's relative
/// path; `None` when nothing needs to be looked for.
pub open spec fn beside_bib_of(source: SourceView, bib_dir: Seq<char>) -> Option<Seq<char>> {
    match source {
        SourceView::Attached(rel) => if rel.len() > 0 && rel[0] == '/' {
            None
        } else {
            Some(joined(bib_dir, rel))
        },
        SourceView::Given(_) => None,
    }
}

/// The PDF a source opens: a path written in the block against the deck's
/// directory; an entry's path beside the `.bib` when a file is there
/// (`beside_exists`), else against the deck's directory; an absolute path
/// as it is.
pub open spec fn pdf_path_of(
    source: SourceView,
    bib_dir: Seq<char>,
    deck_dir: Seq<char>,
    beside_exists: bool,
) -> Seq<char> {
    match source {
        SourceView::Given(p) => against(deck_dir, p),
        SourceView::Attached(rel) => if rel.len() > 0 && rel[0] == '/' {
            rel
        } else if beside_exists {
            joined(bib_dir, rel)
        } else {
            joined(deck_dir, rel)
        },
    }
}

/// Where to look for an attached PDF beside the `.bib` in `bib_dir`.
pub fn beside_bib(source: &Source, bib_dir: &str) -> (r: Option<String>)
    ensures
        opt_view(r) == beside_bib_of(source@, bib_dir@),
{
    match source {
        Source::Attached(rel) => {
            let cs = chars_of(rel.as_str());
            if cs.len() > 0 && cs[0] == '/' {
                None
            } else {
                Some(join_path(bib_dir, rel.as_str()))
            }
        },
        Source::Given(_) => None,
    }
}

pub open spec fn opt_view(o: Option<String>) -> Option<Seq<char>> {
    match o {
        Some(s) => Some(s@),
        None => None,
    }
}

/// The PDF a resolved source opens, given the `.bib`'s and the deck's
/// directories and whether the file [`beside_bib`] names exists.
pub fn pdf_path(source: &Source, bib_dir: &str, deck_dir: &str, beside_exists: bool) -> (r: String)
    ensures
        r@ == pdf_path_of(source@, bib_dir@, deck_dir@, beside_exists),
{
    match source {
        Source::Given(p) => {
            let cs = chars_of(p.as_str());
            if cs.len() > 0 && cs[0] == '/' {
                p.clone()
            } else {
                join_path(deck_dir, p.as_str())
            }
        },
        Source::Attached(rel) => {
            let cs = chars_of(rel.as_str());
            if cs.len() > 0 && cs[0] == '/' {
                rel.clone()
            } else if beside_exists {
                join_path(bib_dir, rel.as_str())
            } else {
                join_path(deck_dir, rel.as_str())
            }
        },
    }
}

} // verus!
