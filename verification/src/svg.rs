//! The SVG a page converts to, made fit for a slide: the root loses its
//! fixed size and keeps its `viewBox`, and what the view cannot show goes.
//! The tags are read by hand, positions counted in characters; measuring
//! what an element draws is the caller's.
use vstd::prelude::*;
use crate::text::{
    chars_of, contains, find_from, first_at, lead, lead_end, lemma_first_at_some, lemma_lead,
    occurs, occurs_at, push_all, push_str, same, slice, string_of, trim, trimmed, is_ws,
    lemma_first_char, lemma_first_at_is,
};

verus! {

/// The attributes of a root tag from `rest` on, with `width` and `height`
/// left out; `None` where the tag is cut short in a way the reading cannot
/// survive (an `=` at the very end, or a value opened by a character wider
/// than a byte).
pub open spec fn attrs_kept(rest: Seq<char>) -> Option<Seq<char>>
    decreases rest.len(),
{
    let at = lead(rest, 0);
    if !(0 <= at < rest.len()) {
        Some(Seq::empty())
    } else {
        let attribute = rest.skip(at);
        match first_at(attribute, "="@, 0) {
            None => Some(Seq::empty()),
            Some(ne) => {
                let name = trim(attribute.take(ne));
                let after = attribute.skip(ne + 1);
                if after.len() == 0 || (after[0] as u32) >= 128 {
                    None
                } else {
                    match first_at(after.skip(1), seq![after[0]], 0) {
                        None => Some(Seq::empty()),
                        Some(k) => {
                            let close = k + 2;
                            let piece = if name != "width"@ && name != "height"@ {
                                seq![' '] + attribute.take(ne + 1 + close)
                            } else {
                                Seq::empty()
                            };
                            if close <= after.len() && after.skip(close).len() < rest.len() {
                                match attrs_kept(after.skip(close)) {
                                    None => None,
                                    Some(more) => Some(piece + more),
                                }
                            } else {
                                None
                            }
                        },
                    }
                }
            },
        }
    }
}

/// The page with its root's fixed size taken off, when the root has a
/// `viewBox` to keep the shape; otherwise the page as it was.
pub open spec fn scalable_of(svg: Seq<char>) -> Option<Seq<char>> {
    match first_at(svg, "<svg"@, 0) {
        None => Some(svg),
        Some(o) => match first_at(svg, ">"@, o) {
            None => Some(svg),
            Some(e) => {
                let head = svg.subrange(o, e);
                if !contains(head, "viewBox="@) || head.len() < 4 {
                    Some(svg)
                } else {
                    match attrs_kept(head.skip(4)) {
                        None => None,
                        Some(kept) => Some(svg.take(o) + "<svg"@ + kept + svg.skip(e)),
                    }
                }
            },
        },
    }
}

/// What the attributes kept read as is what they were: reading them again
/// keeps them all, and they hold no `>` that the tag did not.
proof fn lemma_attrs_kept_again(rest: Seq<char>)
    ensures
        attrs_kept(rest) matches Some(k) ==> attrs_kept(k) == Some(k),
        attrs_kept(rest) matches Some(k) ==> ((forall|j: int| 0 <= j < rest.len() ==> rest[j] != '>')
            ==> forall|i: int| 0 <= i < k.len() ==> k[i] != '>'),
    decreases rest.len(),
{
    reveal_strlit("=");
    assert("="@ =~= seq!['=']);
    let at = lead(rest, 0);
    lemma_lead(rest, 0);
    if 0 <= at < rest.len() {
        let attribute = rest.skip(at);
        lemma_first_at_some(attribute, "="@, 0);
        if let Some(ne) = first_at(attribute, "="@, 0) {
            let name = trim(attribute.take(ne));
            let after = attribute.skip(ne + 1);
            if !(after.len() == 0 || (after[0] as u32) >= 128) {
                let q = after[0];
                lemma_first_at_some(after.skip(1), seq![q], 0);
                if let Some(k) = first_at(after.skip(1), seq![q], 0) {
                    let close = k + 2;
                    if close <= after.len() && after.skip(close).len() < rest.len() {
                        let more_src = after.skip(close);
                        lemma_attrs_kept_again(more_src);
                        if let Some(more) = attrs_kept(more_src) {
                            let p = attribute.take(ne + 1 + close);
                            let keep = name != "width"@ && name != "height"@;
                            if keep {
                                let t = seq![' '] + p + more;
                                assert(t =~= (seq![' '] + p) + more);
                                // Reading `t`: one space, then the same attribute.
                                assert(is_ws(t[0]));
                                assert(t[1] == rest[at]);
                                assert(lead(t, 1) == 1);
                                assert(lead(t, 0) == 1);
                                let a2 = t.skip(1);
                                assert(a2 =~= p + more);
                                assert forall|i: int| 0 <= i < ne implies a2[i] != '=' by {
                                    assert(a2[i] == attribute[i]);
                                    if attribute[i] == '=' {
                                        assert(attribute.subrange(i, i + 1) =~= seq!['=']);
                                        assert(occurs_at(attribute, "="@, i));
                                    }
                                }
                                assert(a2[ne] == '=') by {
                                    assert(attribute.subrange(ne, ne + 1) == seq!['=']);
                                    assert(attribute.subrange(ne, ne + 1)[0] == attribute[ne]);
                                    assert(a2[ne] == attribute[ne]);
                                }
                                lemma_first_char(a2, '=', 0, ne);
                                assert(a2.take(ne) =~= attribute.take(ne));
                                let after2 = a2.skip(ne + 1);
                                assert(after2 =~= after.take(close) + more);
                                assert(after2[0] == q);
                                let tail2 = after2.skip(1);
                                assert forall|i: int| 0 <= i < k implies tail2[i] != q by {
                                    assert(tail2[i] == after.skip(1)[i]);
                                    if after.skip(1)[i] == q {
                                        assert(after.skip(1).subrange(i, i + 1) =~= seq![q]);
                                        assert(occurs_at(after.skip(1), seq![q], i));
                                    }
                                }
                                assert(tail2[k] == q) by {
                                    assert(after.skip(1).subrange(k, k + 1) == seq![q]);
                                    assert(after.skip(1).subrange(k, k + 1)[0] == after.skip(1)[k]);
                                    assert(tail2[k] == after.skip(1)[k]);
                                }
                                lemma_first_char(tail2, q, 0, k);
                                assert(a2.take(ne + 1 + close) =~= p);
                                assert(after2.skip(close) =~= more);
                            }
                            if (forall|j: int| 0 <= j < rest.len() ==> rest[j] != '>') {
                                assert forall|j: int| 0 <= j < more_src.len() implies more_src[j] != '>' by {
                                    assert(more_src[j] == rest[at + ne + 1 + close + j]);
                                }
                                assert forall|i: int| 0 <= i < p.len() implies p[i] != '>' by {
                                    assert(p[i] == rest[at + i]);
                                }
                            }
                        }
                    }
                }
            }
        }
    }
}

/// Taking the fixed size off twice takes no more than once: the page a
/// first pass gives comes back from a second pass unchanged.
pub proof fn lemma_scalable_twice(svg: Seq<char>)
    ensures
        scalable_of(svg) matches Some(t) ==> scalable_of(t) == Some(t),
{
    reveal_strlit("<svg");
    reveal_strlit(">");
    let open_tag = "<svg"@;
    assert(open_tag =~= seq!['<', 's', 'v', 'g']);
    assert(">"@ =~= seq!['>']);
    lemma_first_at_some(svg, open_tag, 0);
    if let Some(o) = first_at(svg, open_tag, 0) {
        lemma_first_at_some(svg, ">"@, o);
        if let Some(e) = first_at(svg, ">"@, o) {
            let head = svg.subrange(o, e);
            if contains(head, "viewBox="@) && head.len() >= 4 {
                let rest = head.skip(4);
                lemma_attrs_kept_again(rest);
                if let Some(kept) = attrs_kept(rest) {
                    assert forall|j: int| 0 <= j < rest.len() implies rest[j] != '>' by {
                        assert(rest[j] == svg[o + 4 + j]);
                        if svg[o + 4 + j] == '>' {
                            assert(svg.subrange(o + 4 + j, o + 4 + j + 1) =~= seq!['>']);
                            assert(occurs_at(svg, ">"@, o + 4 + j));
                        }
                    }
                    let t = svg.take(o) + open_tag + kept + svg.skip(e);
                    assert(svg.subrange(o, o + 4) == open_tag);
                    // The first `<svg` of the new page is where it was.
                    assert(t.subrange(o, o + 4) =~= open_tag);
                    assert forall|i: int| 0 <= i < o implies !occurs_at(t, open_tag, i) by {
                        assert(t.subrange(i, i + 4) =~= svg.subrange(i, i + 4));
                        assert(!occurs_at(svg, open_tag, i));
                        assert(i + 4 <= svg.len());
                    }
                    lemma_first_at_is(t, open_tag, 0, o);
                    // Its first `>` closes the rebuilt tag.
                    let e2 = o + 4 + kept.len();
                    assert(svg.subrange(e, e + 1) == seq!['>']);
                    assert(svg.subrange(e, e + 1)[0] == svg[e]);
                    assert(t[e2] == svg[e]);
                    assert forall|i: int| o <= i < e2 implies t[i] != '>' by {
                        if i < o + 4 {
                            assert(t[i] == open_tag[i - o]);
                        } else {
                            assert(t[i] == kept[i - o - 4]);
                        }
                    }
                    lemma_first_char(t, '>', o, e2);
                    assert(first_at(t, ">"@, o) == Some(e2));
                    let head2 = t.subrange(o, e2);
                    assert(head2 =~= open_tag + kept);
                    assert(head2.skip(4) =~= kept);
                    assert(t.take(o) =~= svg.take(o));
                    assert(t.skip(e2) =~= svg.skip(e));
                    assert(t.take(o) + open_tag + kept + t.skip(e2) =~= t);
                }
            }
        }
    }
}

fn kept_attrs(rest: &Vec<char>) -> (r: Vec<char>)
    requires
        attrs_kept(rest@) is Some,
    ensures
        r@ == attrs_kept(rest@)->0,
    decreases rest@.len(),
{
    let rl = rest.len();
    let at = lead_end(rest, 0);
    if at >= rest.len() {
        return Vec::new();
    }
    let attribute = slice(rest, at, rest.len());
    assert(attribute@ == rest@.skip(at as int));
    let al = attribute.len();
    let eq = chars_of("=");
    proof {
        reveal_strlit("=");
        reveal_strlit("width");
        reveal_strlit("height");
    }
    let ne = match find_from(&attribute, &eq, 0) {
        Some(ne) => ne,
        None => return Vec::new(),
    };
    proof {
        lemma_first_at_some(attribute@, eq@, 0);
    }
    let name = trimmed(&slice(&attribute, 0, ne));
    assert(attribute@.subrange(0, ne as int) == attribute@.take(ne as int));
    let after = slice(&attribute, ne + 1, attribute.len());
    assert(after@ == attribute@.skip(ne + 1));
    let tail = slice(&after, 1, after.len());
    assert(tail@ == after@.skip(1));
    let mut quote: Vec<char> = Vec::new();
    quote.push(after[0]);
    let k = match find_from(&tail, &quote, 0) {
        Some(k) => k,
        None => return Vec::new(),
    };
    proof {
        lemma_first_at_some(tail@, quote@, 0);
    }
    let close = k + 2;
    let mut out: Vec<char> = Vec::new();
    if !crate::text::is(&name, "width") && !crate::text::is(&name, "height") {
        out.push(' ');
        let piece = slice(&attribute, 0, ne + 1 + close);
        assert(piece@ == attribute@.take(ne + 1 + close));
        push_all(&mut out, &piece);
    }
    let next = slice(&after, close, after.len());
    assert(next@ == after@.skip(close as int));
    let more = kept_attrs(&next);
    push_all(&mut out, &more);
    out
}

/// Takes the fixed size off the root element, leaving the `viewBox`: how
/// big to draw the figure is the deck's business, its shape is the page's.
pub fn scalable(svg: &str) -> (r: String)
    requires
        scalable_of(svg@) is Some,
    ensures
        r@ == scalable_of(svg@)->0,
{
    let s = chars_of(svg);
    let sl = s.len();
    let open_tag = chars_of("<svg");
    let gt = chars_of(">");
    proof {
        reveal_strlit("<svg");
        reveal_strlit(">");
    }
    let o = match find_from(&s, &open_tag, 0) {
        Some(o) => o,
        None => return string_of(s.as_slice()),
    };
    proof {
        lemma_first_at_some(s@, open_tag@, 0);
    }
    let e = match find_from(&s, &gt, o) {
        Some(e) => e,
        None => return string_of(s.as_slice()),
    };
    proof {
        lemma_first_at_some(s@, gt@, o as int);
    }
    let head = slice(&s, o, e);
    if !occurs(&head, &chars_of("viewBox=")) || head.len() < 4 {
        return string_of(s.as_slice());
    }
    let rest = slice(&head, 4, head.len());
    assert(rest@ == head@.skip(4));
    let kept = kept_attrs(&rest);
    let mut out = slice(&s, 0, o);
    assert(out@ == s@.take(o as int));
    push_str(&mut out, "<svg");
    push_all(&mut out, &kept);
    let tail = slice(&s, e, s.len());
    assert(tail@ == s@.skip(e as int));
    push_all(&mut out, &tail);
    string_of(out.as_slice())
}


// ---------------------------------------------------------------------------
// Reading the tags
// ---------------------------------------------------------------------------

/// One element as it appears in the source. Positions are characters.
#[derive(Debug, Clone, Copy, PartialEq, Eq, Structural)]
pub struct Element {
    pub start: usize,
    /// The end of the opening tag.
    pub end: usize,
    /// The end of the element: past its closing tag, when it has one.
    pub close_end: usize,
    /// How deep it sits: the root is at zero.
    pub depth: usize,
    /// Whether it closes itself.
    pub empty: bool,
    /// Where its name sits.
    pub name_start: usize,
    pub name_end: usize,
}

/// Where the `>` that ends a tag sits, from `i` on, quoted values skipped;
/// the text's length when none does.
pub open spec fn tag_close(s: Seq<char>, i: int, quote: Option<char>) -> int
    decreases s.len() - i,
{
    if i < 0 || i >= s.len() {
        s.len() as int
    } else {
        match quote {
            Some(q) => if s[i] == q {
                tag_close(s, i + 1, None)
            } else {
                tag_close(s, i + 1, quote)
            },
            None => if s[i] == '"' || s[i] == '\'' {
                tag_close(s, i + 1, Some(s[i]))
            } else if s[i] == '>' {
                i
            } else {
                tag_close(s, i + 1, None)
            },
        }
    }
}

/// Past the `<` and `/` a tag opens with.
pub open spec fn name_from(s: Seq<char>, i: int, end: int) -> int
    decreases end - i,
{
    if 0 <= i < end && i < s.len() && (s[i] == '<' || s[i] == '/') {
        name_from(s, i + 1, end)
    } else {
        i
    }
}

pub open spec fn ends_name(c: char) -> bool {
    c == ' ' || c == '\t' || c == '\n' || c == '>' || c == '/'
}

/// Where a tag's name, starting at `i`, ends.
pub open spec fn name_to(s: Seq<char>, i: int, end: int) -> int
    decreases end - i,
{
    if 0 <= i < end && i < s.len() && !ends_name(s[i]) {
        name_to(s, i + 1, end)
    } else {
        i
    }
}

/// The elements of `s` from `at` on, given those read so far, the ones
/// still open (innermost last) and the depth reached. A closing tag closes
/// the innermost open element; a tag cut short ends the reading.
pub open spec fn scan_from(
    s: Seq<char>,
    at: int,
    els: Seq<Element>,
    open: Seq<usize>,
    depth: int,
) -> Seq<Element>
    decreases s.len() - at,
{
    match first_at(s, "<"@, at) {
        None => els,
        Some(o) => {
            let e = tag_close(s, o + 1, None);
            if o < at || e < o + 1 || e >= s.len() {
                els
            } else {
                let end = e + 1;
                if s[o + 1] == '/' {
                    let d2 = if depth > 0 {
                        depth - 1
                    } else {
                        0
                    };
                    if open.len() > 0 && open.last() < els.len() {
                        let k = open.last() as int;
                        scan_from(
                            s,
                            end,
                            els.update(k, Element { close_end: end as usize, ..els[k] }),
                            open.drop_last(),
                            d2,
                        )
                    } else {
                        scan_from(s, end, els, open, d2)
                    }
                } else {
                    let ns = name_from(s, o, end);
                    let el = Element {
                        start: o as usize,
                        end: end as usize,
                        close_end: end as usize,
                        depth: depth as usize,
                        empty: s[end - 2] == '/',
                        name_start: ns as usize,
                        name_end: name_to(s, ns, end) as usize,
                    };
                    if el.empty {
                        scan_from(s, end, els.push(el), open, depth)
                    } else {
                        scan_from(s, end, els.push(el), open.push(els.len() as usize), depth + 1)
                    }
                }
            }
        },
    }
}

fn close_of(s: &Vec<char>, from: usize) -> (e: usize)
    requires
        from <= s@.len(),
    ensures
        e == tag_close(s@, from as int, None),
        from <= e <= s@.len(),
{
    let n = s.len();
    let mut i = from;
    let mut quote: Option<char> = None;
    while i < n
        invariant
            from <= i <= n == s@.len(),
            tag_close(s@, from as int, None) == tag_close(s@, i as int, quote),
        decreases n - i,
    {
        let c = s[i];
        match quote {
            Some(q) => {
                if c == q {
                    quote = None;
                }
            },
            None => {
                if c == '"' || c == '\'' {
                    quote = Some(c);
                } else if c == '>' {
                    return i;
                }
            },
        }
        i += 1;
    }
    n
}

/// Every element ends after it starts, and within `bound`.
pub open spec fn placed(els: Seq<Element>, bound: int) -> bool {
    forall|j: int|
        0 <= j < els.len() ==> #[trigger] els[j].start < els[j].end <= els[j].close_end <= bound
}

/// Splits the document into elements, keeping track of nesting. What it
/// does not understand it leaves alone, and leaving something alone here
/// means keeping it.
pub fn scan(s: &Vec<char>) -> (r: Vec<Element>)
    ensures
        r@ == scan_from(s@, 0, Seq::empty(), Seq::empty(), 0),
        placed(r@, s@.len() as int),
{
    let n = s.len();
    let lt = chars_of("<");
    proof {
        reveal_strlit("<");
    }
    let mut els: Vec<Element> = Vec::new();
    let mut open: Vec<usize> = Vec::new();
    let mut depth: usize = 0;
    let mut at: usize = 0;
    loop
        invariant
            at <= n == s@.len(),
            lt@ == "<"@,
            depth <= els@.len() <= at,
            forall|j: int| 0 <= j < open@.len() ==> open@[j] < els@.len(),
            placed(els@, at as int),
            scan_from(s@, 0, Seq::empty(), Seq::empty(), 0) == scan_from(
                s@,
                at as int,
                els@,
                open@,
                depth as int,
            ),
        decreases n - at,
    {
        let o = match find_from(s, &lt, at) {
            Some(o) => o,
            None => return els,
        };
        proof {
            reveal_strlit("<");
            lemma_first_at_some(s@, lt@, at as int);
        }
        let e = close_of(s, o + 1);
        if e >= n {
            return els;
        }
        let end = e + 1;
        assert(at < end);
        let ghost els0 = els@;
        let ghost open0 = open@;
        let ghost depth0 = depth as int;
        if s[o + 1] == '/' {
            depth = if depth > 0 {
                depth - 1
            } else {
                0
            };
            if open.len() > 0 {
                let k = open.pop().unwrap();
                assert(k == open0.last());
                let mut el = els[k];
                el.close_end = end;
                els.set(k, el);
                assert(els@ == els0.update(k as int, Element { close_end: end, ..els0[k as int] }));
                assert(placed(els@, end as int)) by {
                    assert forall|j: int| 0 <= j < els@.len() implies #[trigger] els@[j].start
                        < els@[j].end <= els@[j].close_end <= end by {
                        if j != k {
                            assert(els@[j] == els0[j]);
                            assert(els0[j].start < els0[j].end <= els0[j].close_end <= at);
                        } else {
                            assert(els0[j].start < els0[j].end <= els0[j].close_end <= at);
                        }
                    }
                }
                assert(scan_from(s@, at as int, els0, open0, depth0) == scan_from(
                    s@,
                    end as int,
                    els@,
                    open@,
                    depth as int,
                ));
            } else {
                assert(scan_from(s@, at as int, els0, open0, depth0) == scan_from(
                    s@,
                    end as int,
                    els@,
                    open@,
                    depth as int,
                ));
            }
        } else {
            let mut ns = o;
            while ns < end && (s[ns] == '<' || s[ns] == '/')
                invariant
                    o <= ns <= end <= n == s@.len(),
                    name_from(s@, o as int, end as int) == name_from(s@, ns as int, end as int),
                decreases end - ns,
            {
                ns += 1;
            }
            let mut ne = ns;
            while ne < end && !(s[ne] == ' ' || s[ne] == '\t' || s[ne] == '\n' || s[ne] == '>'
                || s[ne] == '/')
                invariant
                    ns <= ne <= end <= n == s@.len(),
                    name_to(s@, ns as int, end as int) == name_to(s@, ne as int, end as int),
                decreases end - ne,
            {
                ne += 1;
            }
            let empty = s[end - 2] == '/';
            let el = Element {
                start: o,
                end,
                close_end: end,
                depth,
                empty,
                name_start: ns,
                name_end: ne,
            };
            let count = els.len();
            els.push(el);
            assert(placed(els@, end as int)) by {
                assert forall|j: int| 0 <= j < els@.len() implies #[trigger] els@[j].start
                    < els@[j].end <= els@[j].close_end <= end by {
                    if j < count {
                        assert(els@[j] == els0[j]);
                        assert(els0[j].start < els0[j].end <= els0[j].close_end <= at);
                    }
                }
            }
            if !empty {
                open.push(count);
                depth += 1;
            }
            assert(scan_from(s@, at as int, els0, open0, depth0) == scan_from(
                s@,
                end as int,
                els@,
                open@,
                depth as int,
            ));
        }
        at = end;
    }
}


// ---------------------------------------------------------------------------
// Attributes
// ---------------------------------------------------------------------------

/// What may stand before an attribute's name: `d` is not found inside `id`,
/// and `href` is found inside `xlink:href`.
pub open spec fn attr_boundary(c: char) -> bool {
    c == ' ' || c == '\t' || c == '\n' || c == ':' || c == '<'
}

/// The value of attribute `name` in a tag, looking from `at` on: the first
/// place `name` stands after a boundary and is followed by `="`, up to the
/// next `"`.
pub open spec fn attr_from(text: Seq<char>, name: Seq<char>, at: int) -> Option<Seq<char>>
    decreases text.len() + 1 - at,
{
    match first_at(text, name, at) {
        None => None,
        Some(f) => {
            let a = f + name.len();
            if (f == 0 || (f > 0 && attr_boundary(text[f - 1]))) && has_prefix_at(text, a, "=\""@) {
                let v = a + 2;
                Some(
                    text.subrange(
                        v,
                        match first_at(text, "\""@, v) {
                            Some(q) => q,
                            None => text.len() as int,
                        },
                    ),
                )
            } else if at < a <= text.len() {
                attr_from(text, name, a)
            } else {
                None
            }
        },
    }
}

pub open spec fn has_prefix_at(s: Seq<char>, i: int, p: Seq<char>) -> bool {
    0 <= i && i + p.len() <= s.len() && s.subrange(i, i + p.len()) == p
}

/// One attribute's value.
pub fn attribute(text: &Vec<char>, name: &Vec<char>) -> (r: Option<Vec<char>>)
    requires
        name@.len() > 0,
    ensures
        match r {
            Some(v) => attr_from(text@, name@, 0) == Some(v@),
            None => attr_from(text@, name@, 0) is None,
        },
{
    let n = text.len();
    let eq = chars_of("=\"");
    let quote = chars_of("\"");
    proof {
        reveal_strlit("=\"");
        reveal_strlit("\"");
    }
    let mut at: usize = 0;
    loop
        invariant
            at <= n == text@.len(),
            name@.len() > 0,
            eq@ == "=\""@,
            quote@ == "\""@,
            attr_from(text@, name@, 0) == attr_from(text@, name@, at as int),
        decreases n + 1 - at,
    {
        let f = match find_from(text, name, at) {
            Some(f) => f,
            None => return None,
        };
        proof {
            reveal_strlit("=\"");
            reveal_strlit("\"");
            lemma_first_at_some(text@, name@, at as int);
        }
        let a = f + name.len();
        let boundary = f == 0 || {
            let c = text[f - 1];
            c == ' ' || c == '\t' || c == '\n' || c == ':' || c == '<'
        };
        if boundary && crate::text::matches_at(text, &eq, a) {
            let v = a + 2;
            let stop = match find_from(text, &quote, v) {
                Some(q) => q,
                None => n,
            };
            proof {
                lemma_first_at_some(text@, quote@, v as int);
            }
            return Some(slice(text, v, stop));
        }
        at = a;
    }
}

pub open spec fn id_view(text: Seq<char>) -> Option<Seq<char>> {
    attr_from(text, "id"@, 0)
}

/// An element's `id`.
pub fn id_of(text: &Vec<char>) -> (r: Option<Vec<char>>)
    ensures
        match r {
            Some(v) => id_view(text@) == Some(v@),
            None => id_view(text@) is None,
        },
{
    proof {
        reveal_strlit("id");
    }
    attribute(text, &chars_of("id"))
}

// ---------------------------------------------------------------------------
// Culling
// ---------------------------------------------------------------------------

/// Where a removed element's own line starts, so the line goes with it:
/// back over spaces and tabs, then over one line break, never before `at`.
pub open spec fn blank_back(s: Seq<char>, at: int, from: int) -> int
    decreases from - at,
{
    if from > at && from <= s.len() && (s[from - 1] == ' ' || s[from - 1] == '\t') {
        blank_back(s, at, from - 1)
    } else {
        from
    }
}

pub open spec fn trim_removed_of(s: Seq<char>, at: int, start: int) -> int {
    let from = blank_back(s, at, start);
    if from > at && from <= s.len() && s[from - 1] == '\n' {
        from - 1
    } else {
        from
    }
}

pub fn trim_removed(s: &Vec<char>, at: usize, start: usize) -> (r: usize)
    requires
        at <= start <= s@.len(),
    ensures
        r == trim_removed_of(s@, at as int, start as int),
        at <= r <= start,
{
    let mut from = start;
    while from > at && (s[from - 1] == ' ' || s[from - 1] == '\t')
        invariant
            at <= from <= start <= s@.len(),
            blank_back(s@, at as int, start as int) == blank_back(s@, at as int, from as int),
        decreases from - at,
    {
        from -= 1;
    }
    if from > at && s[from - 1] == '\n' {
        from - 1
    } else {
        from
    }
}

/// The text of element `e`'s opening tag.
pub open spec fn tag_text(s: Seq<char>, e: Element) -> Seq<char> {
    s.subrange(e.start as int, e.end as int)
}

/// Whether element `inner` lies within element `outer`.
pub open spec fn within(inner: Element, outer: Element) -> bool {
    inner.start >= outer.start && inner.close_end <= outer.close_end
}

/// Whether element `i` is judged by its own box: drawn straight onto the
/// page (depth one) and no definition.
pub open spec fn judged(s: Seq<char>, els: Seq<Element>, i: int) -> bool {
    els[i].depth == 1 && id_view(tag_text(s, els[i])) is None
}

/// Whether element `j` survives the first `k` elements' judgement: it lies
/// within none of them that was judged invisible.
pub open spec fn seen_upto(s: Seq<char>, els: Seq<Element>, visible: Seq<bool>, j: int, k: int) -> bool
    decreases k,
{
    if k <= 0 {
        true
    } else {
        seen_upto(s, els, visible, j, k - 1) && !(judged(s, els, k - 1) && !visible[k - 1]
            && within(els[j], els[k - 1]))
    }
}

/// What survives the view: everything but what lies within an element
/// judged invisible (a container takes its contents with it).
pub open spec fn seen(s: Seq<char>, els: Seq<Element>, visible: Seq<bool>) -> Seq<bool> {
    Seq::new(els.len(), |j: int| seen_upto(s, els, visible, j, els.len() as int))
}

/// A character a name after `#` is made of.
pub open spec fn ident_char(c: char) -> bool {
    crate::text::is_ascii_alnum(c) || c == '-' || c == '_'
}

pub open spec fn ident_end(t: Seq<char>, i: int) -> int
    decreases t.len() - i,
{
    if 0 <= i < t.len() && ident_char(t[i]) {
        ident_end(t, i + 1)
    } else {
        i
    }
}

/// Every `#name` a tag refers to, from `i` on: a `use`, a clip, a fill that
/// points at a gradient.
pub open spec fn refs_from(t: Seq<char>, i: int) -> Seq<Seq<char>>
    decreases t.len() + 1 - i,
{
    match first_at(t, "#"@, i) {
        None => Seq::empty(),
        Some(h) => if i <= h < t.len() {
            let e = ident_end(t, h + 1);
            (if e > h + 1 {
                seq![t.subrange(h + 1, e)]
            } else {
                Seq::empty()
            }) + refs_from(t, h + 1)
        } else {
            Seq::empty()
        },
    }
}

/// The names that the first `k` elements refer to, counting only those
/// kept and not themselves definitions.
pub open spec fn names_upto(s: Seq<char>, els: Seq<Element>, kept: Seq<bool>, k: int) -> Seq<Seq<char>>
    decreases k,
{
    if k <= 0 {
        Seq::empty()
    } else {
        names_upto(s, els, kept, k - 1) + if kept[k - 1] && id_view(tag_text(s, els[k - 1])) is None {
            refs_from(tag_text(s, els[k - 1]), 0)
        } else {
            Seq::empty()
        }
    }
}

/// What is kept at the end: a definition (a self-closing element with an
/// id) exactly when something kept still names it, everything else as the
/// view left it.
pub open spec fn kept_of(s: Seq<char>, els: Seq<Element>, visible: Seq<bool>) -> Seq<bool> {
    let v = seen(s, els, visible);
    let names = names_upto(s, els, v, els.len() as int);
    Seq::new(
        els.len(),
        |j: int|
            match id_view(tag_text(s, els[j])) {
                Some(id) => if els[j].empty {
                    names.contains(id)
                } else {
                    v[j]
                },
                None => v[j],
            },
    )
}

/// The text with every element not kept cut out, from element `i` and
/// position `at` on; each cut takes its line's indentation and line break
/// with it, and what lies within a cut element goes with it.
pub open spec fn cut_from(s: Seq<char>, els: Seq<Element>, kept: Seq<bool>, i: int, at: int) -> Seq<char>
    decreases els.len() - i,
{
    if i < 0 || i >= els.len() {
        s.subrange(at, s.len() as int)
    } else if kept[i] || els[i].start < at {
        cut_from(s, els, kept, i + 1, at)
    } else {
        s.subrange(at, trim_removed_of(s, at, els[i].start as int)) + cut_from(
            s,
            els,
            kept,
            i + 1,
            els[i].close_end as int,
        )
    }
}

/// The texts of some character vectors.
pub open spec fn vec_texts(v: Seq<Vec<char>>) -> Seq<Seq<char>> {
    v.map_values(|c: Vec<char>| c@)
}

fn refs(t: &Vec<char>, out: &mut Vec<Vec<char>>)
    ensures
        vec_texts(final(out)@) == vec_texts(old(out)@)
            + refs_from(t@, 0),
{
    let n = t.len();
    let hash = chars_of("#");
    proof {
        reveal_strlit("#");
    }
    let mut i: usize = 0;
    let ghost base = vec_texts(old(out)@);
    loop
        invariant
            i <= n == t@.len(),
            hash@ == "#"@,
            base == vec_texts(old(out)@),
            vec_texts(out@) + refs_from(t@, i as int) == base + refs_from(
                t@,
                0,
            ),
        decreases n + 1 - i,
    {
        let h = match find_from(t, &hash, i) {
            Some(h) => h,
            None => {
                assert(vec_texts(out@) =~= base + refs_from(t@, 0));
                return;
            },
        };
        proof {
            reveal_strlit("#");
            lemma_first_at_some(t@, hash@, i as int);
        }
        let mut e = h + 1;
        while e < n && (crate::text::is_ascii_alnum_char(t[e]) || t[e] == '-' || t[e] == '_')
            invariant
                h + 1 <= e <= n == t@.len(),
                ident_end(t@, h + 1) == ident_end(t@, e as int),
            decreases n - e,
        {
            e += 1;
        }
        let ghost before = vec_texts(out@);
        if e > h + 1 {
            let name = slice(t, h + 1, e);
            out.push(name);
            assert(vec_texts(out@) =~= before.push(t@.subrange(h + 1, e as int)));
        }
        assert(vec_texts(out@) + refs_from(t@, h + 1) =~= before + refs_from(
            t@,
            i as int,
        ));
        i = h + 1;
    }
}


pub open spec fn opt_text(o: Option<Vec<char>>) -> Option<Seq<char>> {
    match o {
        Some(v) => Some(v@),
        None => None,
    }
}

fn names_hold(names: &Vec<Vec<char>>, id: &Vec<char>) -> (r: bool)
    ensures
        r == vec_texts(names@).contains(id@),
{
    let mut i: usize = 0;
    while i < names.len()
        invariant
            i <= names@.len(),
            forall|j: int| 0 <= j < i ==> vec_texts(names@)[j] != id@,
        decreases names@.len() - i,
    {
        if same(&names[i], id) {
            assert(vec_texts(names@)[i as int] == id@);
            return true;
        }
        i += 1;
    }
    false
}

/// Drops what the view cannot show, given the document's elements (as
/// [`scan`] reads them) and, when the page has a `viewBox`, whether each
/// element's measured box meets it. Without a view nothing is removed.
/// Only what is drawn straight onto the page, and is no definition, is
/// judged by its box; what lies within an invisible element goes with it;
/// a definition stays exactly while something kept names it; each cut
/// takes its line with it.
pub fn cull(svg: &Vec<char>, els: &Vec<Element>, view: Option<&Vec<bool>>) -> (r: Vec<char>)
    requires
        placed(els@, svg@.len() as int),
        view matches Some(v) ==> v@.len() == els@.len(),
    ensures
        r@ == match view {
            None => svg@,
            Some(v) => cut_from(svg@, els@, kept_of(svg@, els@, v@), 0, 0),
        },
{
    match view {
        None => svg.clone(),
        Some(visible) => cull_judged(svg, els, visible),
    }
}

fn cull_judged(svg: &Vec<char>, els: &Vec<Element>, visible: &Vec<bool>) -> (r: Vec<char>)
    requires
        placed(els@, svg@.len() as int),
        visible@.len() == els@.len(),
    ensures
        r@ == cut_from(svg@, els@, kept_of(svg@, els@, visible@), 0, 0),
{
    let n = els.len();
    let ghost s = svg@;
    let ghost e = els@;
    let mut ids: Vec<Option<Vec<char>>> = Vec::new();
    let mut i: usize = 0;
    while i < n
        invariant
            i <= n == e.len(),
            s == svg@,
            e == els@,
            placed(e, s.len() as int),
            ids@.len() == i,
            forall|j: int| 0 <= j < i ==> #[trigger] opt_text(ids@[j]) == id_view(tag_text(s, e[j])),
        decreases n - i,
    {
        assert(e[i as int].start < e[i as int].end <= e[i as int].close_end <= s.len());
        let t = slice(svg, els[i].start, els[i].end);
        let id = id_of(&t);
        ids.push(id);
        assert(opt_text(ids@[i as int]) == id_view(tag_text(s, e[i as int])));
        i += 1;
    }
    let mut kept: Vec<bool> = Vec::new();
    let mut j: usize = 0;
    while j < n
        invariant
            j <= n == e.len(),
            kept@.len() == j,
            forall|k: int| 0 <= k < j ==> #[trigger] kept@[k] == seen_upto(s, e, visible@, k, 0),
        decreases n - j,
    {
        kept.push(true);
        j += 1;
    }
    let mut i: usize = 0;
    while i < n
        invariant
            i <= n == e.len(),
            e == els@,
            s == svg@,
            visible@.len() == n,
            ids@.len() == n,
            forall|k: int| 0 <= k < n ==> #[trigger] opt_text(ids@[k]) == id_view(tag_text(s, e[k])),
            kept@.len() == n,
            forall|k: int| 0 <= k < n ==> #[trigger] kept@[k] == seen_upto(s, e, visible@, k, i as int),
        decreases n - i,
    {
        let judged_out = els[i].depth == 1 && ids[i].is_none() && !visible[i];
        assert(opt_text(ids@[i as int]) == id_view(tag_text(s, e[i as int])));
        assert(judged_out == (judged(s, e, i as int) && !visible@[i as int]));
        let mut k: usize = 0;
        while k < n
            invariant
                k <= n == e.len(),
                e == els@,
                visible@.len() == n,
                kept@.len() == n,
                judged_out == (judged(s, e, i as int) && !visible@[i as int]),
                i < n,
                forall|m: int|
                    0 <= m < k ==> #[trigger] kept@[m] == seen_upto(s, e, visible@, m, i + 1),
                forall|m: int|
                    k <= m < n ==> #[trigger] kept@[m] == seen_upto(s, e, visible@, m, i as int),
            decreases n - k,
        {
            let inside = els[k].start >= els[i].start && els[k].close_end <= els[i].close_end;
            assert(inside == within(e[k as int], e[i as int]));
            if judged_out && inside {
                kept.set(k, false);
            }
            assert(kept@[k as int] == seen_upto(s, e, visible@, k as int, i + 1));
            k += 1;
        }
        i += 1;
    }
    let ghost v = seen(s, e, visible@);
    assert(kept@ =~= v);
    let mut names: Vec<Vec<char>> = Vec::new();
    let mut i: usize = 0;
    while i < n
        invariant
            i <= n == e.len(),
            e == els@,
            s == svg@,
            placed(e, s.len() as int),
            ids@.len() == n,
            forall|k: int| 0 <= k < n ==> #[trigger] opt_text(ids@[k]) == id_view(tag_text(s, e[k])),
            kept@ == v,
            kept@.len() == n,
            vec_texts(names@) == names_upto(s, e, v, i as int),
        decreases n - i,
    {
        assert(opt_text(ids@[i as int]) == id_view(tag_text(s, e[i as int])));
        if kept[i] && ids[i].is_none() {
            assert(e[i as int].start < e[i as int].end <= e[i as int].close_end <= s.len());
            let t = slice(svg, els[i].start, els[i].end);
            refs(&t, &mut names);
        }
        i += 1;
    }
    let ghost all = names_upto(s, e, v, n as int);
    let ghost fin_spec = kept_of(s, e, visible@);
    let mut fin: Vec<bool> = Vec::new();
    let mut i: usize = 0;
    while i < n
        invariant
            i <= n == e.len(),
            e == els@,
            s == svg@,
            ids@.len() == n,
            forall|k: int| 0 <= k < n ==> #[trigger] opt_text(ids@[k]) == id_view(tag_text(s, e[k])),
            kept@ == v,
            kept@.len() == n,
            v == seen(s, e, visible@),
            vec_texts(names@) == all,
            all == names_upto(s, e, v, n as int),
            fin_spec == kept_of(s, e, visible@),
            fin@.len() == i,
            forall|k: int| 0 <= k < i ==> #[trigger] fin@[k] == fin_spec[k],
        decreases n - i,
    {
        assert(opt_text(ids@[i as int]) == id_view(tag_text(s, e[i as int])));
        let keep = match &ids[i] {
            Some(id) => if els[i].empty {
                names_hold(&names, id)
            } else {
                kept[i]
            },
            None => kept[i],
        };
        fin.push(keep);
        assert(fin@[i as int] == fin_spec[i as int]);
        i += 1;
    }
    assert(fin@ =~= fin_spec);
    let len = svg.len();
    let mut out: Vec<char> = Vec::new();
    let mut at: usize = 0;
    let mut i: usize = 0;
    while i < n
        invariant
            i <= n == e.len(),
            e == els@,
            s == svg@,
            len == s.len(),
            placed(e, s.len() as int),
            fin@ == fin_spec,
            fin@.len() == n,
            at <= len,
            cut_from(s, e, fin_spec, 0, 0) == out@ + cut_from(s, e, fin_spec, i as int, at as int),
        decreases n - i,
    {
        if fin[i] || els[i].start < at {
            i += 1;
        } else {
            assert(e[i as int].start < e[i as int].end <= e[i as int].close_end <= s.len());
            let t = trim_removed(svg, at, els[i].start);
            let piece = slice(svg, at, t);
            let ghost before = out@;
            push_all(&mut out, &piece);
            assert(before + cut_from(s, e, fin_spec, i as int, at as int) =~= out@ + cut_from(
                s,
                e,
                fin_spec,
                i + 1,
                e[i as int].close_end as int,
            ));
            at = els[i].close_end;
            i += 1;
        }
    }
    let rest = slice(svg, at, len);
    push_all(&mut out, &rest);
    out
}

} // verus!
