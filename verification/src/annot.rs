//! The `annotate` block: circle the interesting part of a picture, point an
//! arrow at it, label it; or mark words in a sentence.
//!
//! ```text
//! target: shot                 # a pane name, or a #id
//! rect   40,22 18x12 : label="cache miss"
//! circle 62,40 20x20 : color=@accent1
//! circle #latency-1-2 : pad=6 label="the spike"
//! arrow  12,70 -> 38,30 : style=dashed
//! text   10,80 "throughput doubles here"
//! ```
//!
//! Coordinates are percentages of the target's painted box; an item that
//! names an `#id` is anchored to that element's live box instead.
use vstd::prelude::*;
use crate::anim::{number_sign, sign_of};
use crate::text::{
    alnum, chars_of, find_from, first_at, has_prefix, is, is_alnum, is_space, last_at,
    lemma_first_at_some, lemma_last_at_in, lemma_lead, occurs_at, push_all, push_str, rfind, slice,
    starts_with, string_of, trim, trim_start, trimmed, trimmed_start, word_end, join, words,
    words_of, unsigned_value, parse_u32, decimal, push_decimal, line_at, next_line,
};

verus! {

/// What an item draws.
#[derive(Debug, Clone, Copy, PartialEq, Eq, Structural)]
pub enum Kind {
    Rect,
    Circle,
    Arrow,
    Text,
    /// The three below mark words rather than a region of a picture, and
    /// follow the lines the words are laid out on.
    Highlight,
    Underline,
    Box,
}

pub open spec fn kind_name(k: Kind) -> Seq<char> {
    match k {
        Kind::Rect => "rect"@,
        Kind::Circle => "circle"@,
        Kind::Arrow => "arrow"@,
        Kind::Text => "text"@,
        Kind::Highlight => "highlight"@,
        Kind::Underline => "underline"@,
        Kind::Box => "box"@,
    }
}

pub open spec fn follows_text(k: Kind) -> bool {
    k == Kind::Highlight || k == Kind::Underline || k == Kind::Box
}

impl Kind {
    /// Whether the mark follows text: a phrase that wraps is two line boxes,
    /// not one rectangle.
    pub fn marks_text(self) -> (b: bool)
        ensures
            b == follows_text(self),
    {
        match self {
            Kind::Highlight | Kind::Underline | Kind::Box => true,
            _ => false,
        }
    }

    pub fn as_str(self) -> (r: &'static str)
        ensures
            r@ == kind_name(self),
    {
        match self {
            Kind::Rect => "rect",
            Kind::Circle => "circle",
            Kind::Arrow => "arrow",
            Kind::Text => "text",
            Kind::Highlight => "highlight",
            Kind::Underline => "underline",
            Kind::Box => "box",
        }
    }
}

/// `s` with ASCII capitals lowered (`str::to_ascii_lowercase`).
pub open spec fn ascii_lowered(s: Seq<char>) -> Seq<char> {
    s.map_values(|c: char| if 'A' <= c && c <= 'Z' { ((c as u32) + 32) as char } else { c })
}

/// The extensions of the pictures a browser draws.
pub open spec fn picture_extension(e: Seq<char>) -> bool {
    e == "svg"@ || e == "png"@ || e == "jpg"@ || e == "jpeg"@ || e == "gif"@ || e == "webp"@
        || e == "avif"@
}

/// What follows the last `.` of `t` (all of `t` when it has none).
pub open spec fn extension(t: Seq<char>) -> Seq<char> {
    match last_at(t, "."@, t.len() as int) {
        Some(k) => t.skip(k + 1),
        None => t,
    }
}

/// A `target:` that names an image file: it has a `.`, is not an `#id`, and
/// its extension, in any case, is a picture's.
pub open spec fn names_picture(t: Seq<char>) -> bool {
    contains_dot(t) && !has_prefix(t, "#"@) && picture_extension(ascii_lowered(extension(t)))
}

pub open spec fn contains_dot(t: Seq<char>) -> bool {
    exists|i: int| 0 <= i < t.len() && t[i] == '.'
}

fn lowered_ascii(s: &Vec<char>) -> (r: Vec<char>)
    ensures
        r@ == ascii_lowered(s@),
{
    let mut out: Vec<char> = Vec::new();
    let mut i: usize = 0;
    while i < s.len()
        invariant
            i <= s@.len(),
            out@ == ascii_lowered(s@).take(i as int),
        decreases s@.len() - i,
    {
        let c = s[i];
        let l = if 'A' <= c && c <= 'Z' {
            ((c as u32) + 32) as u8 as char
        } else {
            c
        };
        assert(l == ascii_lowered(s@)[i as int]) by {
            if 'A' <= c && c <= 'Z' {
                assert(((c as u32) + 32) as u8 as char == ((c as u32) + 32) as char);
            }
        }
        out.push(l);
        assert(out@ =~= ascii_lowered(s@).take(i + 1));
        i += 1;
    }
    assert(ascii_lowered(s@).take(s@.len() as int) =~= ascii_lowered(s@));
    out
}

/// Whether a `target:` names an image file. A pane name or an `#id` has no
/// extension; a picture has one of the browser's.
pub fn is_picture(target: &str) -> (b: bool)
    ensures
        b == names_picture(target@),
{
    let t = chars_of(target);
    let tl = t.len();
    let dot = chars_of(".");
    proof {
        reveal_strlit(".");
        reveal_strlit("#");
    }
    let ext = match rfind(&t, &dot) {
        Some(k) => {
            proof {
                lemma_last_at_in(t@, dot@, t@.len() as int);
            }
            slice(&t, k + 1, t.len())
        },
        None => t.clone(),
    };
    assert(ext@ == extension(t@));
    let mut has_dot = false;
    let mut i: usize = 0;
    while i < t.len()
        invariant
            i <= t@.len(),
            has_dot == exists|k: int| 0 <= k < i && t@[k] == '.',
        decreases t@.len() - i,
    {
        if t[i] == '.' {
            has_dot = true;
        }
        i += 1;
    }
    let e = lowered_ascii(&ext);
    let pic = is(&e, "svg") || is(&e, "png") || is(&e, "jpg") || is(&e, "jpeg") || is(&e, "gif")
        || is(&e, "webp") || is(&e, "avif");
    has_dot && !starts_with(&t, &chars_of("#")) && pic
}

/// A character a literal colour may keep: alphanumeric, or one of `#(),.%- `.
pub open spec fn colour_char(c: char) -> bool {
    alnum(c) || c == '#' || c == '(' || c == ')' || c == ',' || c == '.' || c == '%' || c == '-'
        || c == ' '
}

/// The characters of `s` that a literal colour keeps, in order.
pub open spec fn colour_kept(s: Seq<char>) -> Seq<char> {
    s.filter(|c: char| colour_char(c))
}

/// The CSS for a colour: `@token` becomes its custom property; a literal
/// keeps only the characters a colour is written with, so nothing can be
/// smuggled into a style.
pub open spec fn colour_of(v: Seq<char>) -> Seq<char> {
    if has_prefix(v, "@"@) {
        "var(--mz-"@ + v.skip(1) + ")"@
    } else {
        colour_kept(v)
    }
}

pub fn color_css(v: &str) -> (r: String)
    ensures
        r@ == colour_of(v@),
{
    let cs = chars_of(v);
    proof {
        reveal_strlit("@");
    }
    if starts_with(&cs, &chars_of("@")) {
        let mut out: Vec<char> = Vec::new();
        push_str(&mut out, "var(--mz-");
        let name = slice(&cs, 1, cs.len());
        crate::text::push_all(&mut out, &name);
        push_str(&mut out, ")");
        assert(name@ == v@.skip(1));
        return string_of(out.as_slice());
    }
    let mut out: Vec<char> = Vec::new();
    let mut i: usize = 0;
    while i < cs.len()
        invariant
            i <= cs@.len(),
            out@ == colour_kept(cs@.take(i as int)),
        decreases cs@.len() - i,
    {
        let c = cs[i];
        let keep = is_alnum(c) || c == '#' || c == '(' || c == ')' || c == ',' || c == '.' || c
            == '%' || c == '-' || c == ' ';
        proof {
            assert(cs@.take(i + 1) == cs@.take(i as int).push(c));
            cs@.take(i as int).lemma_filter_push(c, |c: char| colour_char(c));
        }
        if keep {
            out.push(c);
        }
        i += 1;
    }
    assert(cs@.take(cs@.len() as int) == cs@);
    string_of(out.as_slice())
}

// ---------------------------------------------------------------------------
// Items
// ---------------------------------------------------------------------------

/// Where an item is: literal percentages of the target box, kept as the
/// numbers were written, or the live box of another element.
#[derive(Debug, Clone, PartialEq, Eq)]
pub enum Place {
    At(String, String),
    Anchor(String),
}

pub enum PlaceView {
    At(Seq<char>, Seq<char>),
    Anchor(Seq<char>),
}

impl View for Place {
    type V = PlaceView;

    open spec fn view(&self) -> PlaceView {
        match self {
            Place::At(x, y) => PlaceView::At(x@, y@),
            Place::Anchor(id) => PlaceView::Anchor(id@),
        }
    }
}

/// One annotation. Numbers (coordinates, sizes, `pad=`) are kept as written;
/// each is one that `f64` reads.
#[derive(Debug, Clone)]
pub struct Item {
    pub kind: Kind,
    /// `id=`, put on the drawn shape for the rest of the deck to refer to.
    pub id: Option<String>,
    pub place: Place,
    /// `w x h` for an item placed by coordinates.
    pub size: Option<(String, String)>,
    /// Where an arrow's head is.
    pub to: Option<Place>,
    /// Room in slide pixels around an anchored box.
    pub pad: Option<String>,
    pub label: Option<String>,
    pub color: Option<String>,
    pub dashed: bool,
    /// The click step the item appears on; 0 is from the start.
    pub step: u32,
    /// `quote=`: the words the mark lies over, for the check.
    pub quote: Option<String>,
    /// `page=`: the page of the source the quote is on.
    pub page: Option<u32>,
}

pub struct ItemView {
    pub kind: Kind,
    pub id: Option<Seq<char>>,
    pub place: PlaceView,
    pub size: Option<(Seq<char>, Seq<char>)>,
    pub to: Option<PlaceView>,
    pub pad: Option<Seq<char>>,
    pub label: Option<Seq<char>>,
    pub color: Option<Seq<char>>,
    pub dashed: bool,
    pub step: u32,
    pub quote: Option<Seq<char>>,
    pub page: Option<u32>,
}

pub open spec fn opt_view(o: Option<String>) -> Option<Seq<char>> {
    match o {
        Some(s) => Some(s@),
        None => None,
    }
}

impl View for Item {
    type V = ItemView;

    open spec fn view(&self) -> ItemView {
        ItemView {
            kind: self.kind,
            id: opt_view(self.id),
            place: self.place@,
            size: match self.size {
                Some((w, h)) => Some((w@, h@)),
                None => None,
            },
            to: match self.to {
                Some(p) => Some(p@),
                None => None,
            },
            pad: opt_view(self.pad),
            label: opt_view(self.label),
            color: opt_view(self.color),
            dashed: self.dashed,
            step: self.step,
            quote: opt_view(self.quote),
            page: self.page,
        }
    }
}

/// A character an id may hold: one that survives a CSS selector.
pub open spec fn id_char(c: char) -> bool {
    alnum(c) || c == '-' || c == '_'
}

pub open spec fn valid_id(id: Seq<char>) -> bool {
    id.len() > 0 && forall|i: int| 0 <= i < id.len() ==> id_char(#[trigger] id[i])
}

fn is_valid_id(id: &Vec<char>) -> (b: bool)
    ensures
        b == valid_id(id@),
{
    if id.len() == 0 {
        return false;
    }
    let mut i: usize = 0;
    while i < id.len()
        invariant
            i <= id@.len(),
            forall|k: int| 0 <= k < i ==> id_char(#[trigger] id@[k]),
        decreases id@.len() - i,
    {
        let c = id[i];
        if !(is_alnum(c) || c == '-' || c == '_') {
            assert(!id_char(id@[i as int]));
            return false;
        }
        i += 1;
    }
    true
}

/// Where the trailing `%` signs of `s[..j]` begin.
pub open spec fn pct_start(s: Seq<char>, j: int) -> int
    decreases j,
{
    if 0 < j <= s.len() && s[j - 1] == '%' {
        pct_start(s, j - 1)
    } else {
        j
    }
}

/// A coordinate or size: trimmed, trailing `%` signs dropped, a number
/// `f64` reads.
pub open spec fn num_of(s: Seq<char>) -> Result<Seq<char>, Seq<char>> {
    let t = trim(s);
    let n = t.take(pct_start(t, t.len() as int));
    if sign_of(n) is Some {
        Ok(n)
    } else {
        Err("not a number: `"@ + t + "`"@)
    }
}

fn parse_num(s: &Vec<char>) -> (r: Result<Vec<char>, String>)
    ensures
        match r {
            Ok(n) => num_of(s@) == Ok::<Seq<char>, Seq<char>>(n@),
            Err(e) => num_of(s@) == Err::<Seq<char>, Seq<char>>(e@),
        },
{
    let t = trimmed(s);
    let mut j = t.len();
    while j > 0 && t[j - 1] == '%'
        invariant
            j <= t@.len(),
            pct_start(t@, t@.len() as int) == pct_start(t@, j as int),
        decreases j,
    {
        j -= 1;
    }
    let n = slice(&t, 0, j);
    assert(n@ == t@.take(j as int));
    if number_sign(&n).is_some() {
        Ok(n)
    } else {
        Err(quoting("not a number: `", &t, "`"))
    }
}

fn quoting(before: &str, what: &Vec<char>, after: &str) -> (r: String)
    ensures
        r@ == before@ + what@ + after@,
{
    let mut msg: Vec<char> = Vec::new();
    push_str(&mut msg, before);
    push_all(&mut msg, what);
    push_str(&mut msg, after);
    string_of(msg.as_slice())
}

/// `#id`, or `x,y` in percentages.
pub open spec fn place_of(s: Seq<char>) -> Result<PlaceView, Seq<char>> {
    if has_prefix(s, "#"@) {
        if valid_id(s.skip(1)) {
            Ok(PlaceView::Anchor(s.skip(1)))
        } else {
            Err("`"@ + s + "` is not a valid id"@)
        }
    } else {
        match first_at(s, ","@, 0) {
            None => Err("`"@ + s + "` is neither `x,y` nor `#id`"@),
            Some(c) => match num_of(s.take(c)) {
                Err(e) => Err(e),
                Ok(x) => match num_of(s.skip(c + 1)) {
                    Err(e) => Err(e),
                    Ok(y) => Ok(PlaceView::At(x, y)),
                },
            },
        }
    }
}

fn parse_place(s: &Vec<char>) -> (r: Result<Place, String>)
    ensures
        match r {
            Ok(p) => place_of(s@) == Ok::<PlaceView, Seq<char>>(p@),
            Err(e) => place_of(s@) == Err::<PlaceView, Seq<char>>(e@),
        },
{
    let sl = s.len();
    proof {
        reveal_strlit("#");
        reveal_strlit(",");
    }
    if starts_with(s, &chars_of("#")) {
        let id = slice(s, 1, s.len());
        assert(id@ == s@.skip(1));
        if is_valid_id(&id) {
            return Ok(Place::Anchor(string_of(id.as_slice())));
        }
        return Err(quoting("`", s, "` is not a valid id"));
    }
    let comma = chars_of(",");
    let c = match find_from(s, &comma, 0) {
        Some(c) => c,
        None => return Err(quoting("`", s, "` is neither `x,y` nor `#id`")),
    };
    proof {
        lemma_first_at_some(s@, comma@, 0);
    }
    let xs = slice(s, 0, c);
    let ys = slice(s, c + 1, s.len());
    assert(xs@ == s@.take(c as int));
    assert(ys@ == s@.skip(c + 1));
    let x = match parse_num(&xs) {
        Ok(x) => x,
        Err(e) => return Err(e),
    };
    let y = match parse_num(&ys) {
        Ok(y) => y,
        Err(e) => return Err(e),
    };
    Ok(Place::At(string_of(x.as_slice()), string_of(y.as_slice())))
}

/// `WxH`.
pub open spec fn size_of(s: Seq<char>) -> Result<(Seq<char>, Seq<char>), Seq<char>> {
    match first_at(s, "x"@, 0) {
        None => Err("`"@ + s + "` is not a `WxH` size"@),
        Some(c) => match num_of(s.take(c)) {
            Err(e) => Err(e),
            Ok(w) => match num_of(s.skip(c + 1)) {
                Err(e) => Err(e),
                Ok(h) => Ok((w, h)),
            },
        },
    }
}

fn parse_size(s: &Vec<char>) -> (r: Result<(String, String), String>)
    ensures
        match r {
            Ok((w, h)) => size_of(s@) == Ok::<(Seq<char>, Seq<char>), Seq<char>>((w@, h@)),
            Err(e) => size_of(s@) == Err::<(Seq<char>, Seq<char>), Seq<char>>(e@),
        },
{
    let sl = s.len();
    let x = chars_of("x");
    proof {
        reveal_strlit("x");
    }
    let c = match find_from(s, &x, 0) {
        Some(c) => c,
        None => return Err(quoting("`", s, "` is not a `WxH` size")),
    };
    proof {
        lemma_first_at_some(s@, x@, 0);
    }
    let ws = slice(s, 0, c);
    let hs = slice(s, c + 1, s.len());
    assert(ws@ == s@.take(c as int));
    assert(hs@ == s@.skip(c + 1));
    let w = match parse_num(&ws) {
        Ok(v) => v,
        Err(e) => return Err(e),
    };
    let h = match parse_num(&hs) {
        Ok(v) => v,
        Err(e) => return Err(e),
    };
    Ok((string_of(w.as_slice()), string_of(h.as_slice())))
}

// ---------------------------------------------------------------------------
// Attributes
// ---------------------------------------------------------------------------

/// `key=value` pairs from `rest` on (white space already gone from its
/// start); a value may be quoted to hold spaces.
pub open spec fn attrs_from(rest: Seq<char>) -> Result<Seq<(Seq<char>, Seq<char>)>, Seq<char>>
    decreases rest.len(),
{
    if rest.len() == 0 {
        Ok(Seq::empty())
    } else {
        match first_at(rest, "="@, 0) {
            None => Err("expected key=value, got `"@ + rest + "`"@),
            Some(eq) => {
                let key = trim(rest.take(eq));
                let after = rest.skip(eq + 1);
                let quoted = after.len() > 0 && after[0] == '"';
                let q = after.skip(1);
                let end = first_at(q, "\""@, 0);
                if quoted && end is None {
                    Err("unclosed quote"@)
                } else {
                    let (value, tail) = if quoted {
                        (q.take(end->0), q.skip(end->0 + 1))
                    } else if word_end(after, 0) < after.len() {
                        (after.take(word_end(after, 0)), after.skip(word_end(after, 0)))
                    } else {
                        (after, Seq::empty())
                    };
                    if tail.len() < rest.len() {
                        proof {
                            lemma_lead(tail, 0);
                        }
                        match attrs_from(trim_start(tail)) {
                            Err(e) => Err(e),
                            Ok(more) => Ok(seq![(key, value)] + more),
                        }
                    } else {
                        Err(Seq::empty())
                    }
                }
            },
        }
    }
}

pub open spec fn attrs_of(src: Seq<char>) -> Result<Seq<(Seq<char>, Seq<char>)>, Seq<char>> {
    attrs_from(trim(src))
}

fn parse_attrs(src: &Vec<char>) -> (r: Result<Vec<(Vec<char>, Vec<char>)>, String>)
    ensures
        match r {
            Ok(v) => attrs_of(src@) == Ok::<Seq<(Seq<char>, Seq<char>)>, Seq<char>>(
                v@.map_values(|p: (Vec<char>, Vec<char>)| (p.0@, p.1@)),
            ),
            Err(e) => attrs_of(src@) == Err::<Seq<(Seq<char>, Seq<char>)>, Seq<char>>(e@),
        },
{
    let mut out: Vec<(Vec<char>, Vec<char>)> = Vec::new();
    let mut rest = trimmed(src);
    let eqs = chars_of("=");
    let quote = chars_of("\"");
    proof {
        reveal_strlit("=");
        reveal_strlit("\"");
    }
    while rest.len() > 0
        invariant
            eqs@ == "="@,
            quote@ == "\""@,
            eqs@.len() == 1,
            quote@.len() == 1,
            attrs_of(src@) == match attrs_from(rest@) {
                Err(e) => Err(e),
                Ok(more) => Ok(out@.map_values(|p: (Vec<char>, Vec<char>)| (p.0@, p.1@)) + more),
            },
        decreases rest@.len(),
    {
        let rl = rest.len();
        let eq = match find_from(&rest, &eqs, 0) {
            Some(e) => e,
            None => return Err(quoting("expected key=value, got `", &rest, "`")),
        };
        proof {
            lemma_first_at_some(rest@, eqs@, 0);
        }
        let key = trimmed(&slice(&rest, 0, eq));
        assert(rest@.subrange(0, eq as int) == rest@.take(eq as int));
        let after = slice(&rest, eq + 1, rest.len());
        assert(after@ == rest@.skip(eq + 1));
        let al = after.len();
        let (value, tail) = if after.len() > 0 && after[0] == '"' {
            let q = slice(&after, 1, after.len());
            assert(q@ == after@.skip(1));
            let ql = q.len();
            let end = match find_from(&q, &quote, 0) {
                Some(e) => e,
                None => return Err("unclosed quote".to_owned()),
            };
            proof {
                lemma_first_at_some(q@, quote@, 0);
            }
            let v = slice(&q, 0, end);
            let t = slice(&q, end + 1, q.len());
            assert(v@ == q@.take(end as int));
            assert(t@ == q@.skip(end + 1));
            (v, t)
        } else {
            let mut i: usize = 0;
            while i < after.len() && !is_space(after[i])
                invariant
                    i <= after@.len(),
                    word_end(after@, 0) == word_end(after@, i as int),
                decreases after@.len() - i,
            {
                i += 1;
            }
            if i < after.len() {
                let v = slice(&after, 0, i);
                let t = slice(&after, i, after.len());
                assert(v@ == after@.take(i as int));
                assert(t@ == after@.skip(i as int));
                (v, t)
            } else {
                let v = slice(&after, 0, after.len());
                assert(v@ == after@);
                (v, Vec::new())
            }
        };
        let ghost before = out@.map_values(|p: (Vec<char>, Vec<char>)| (p.0@, p.1@));
        out.push((key, value));
        assert(out@.map_values(|p: (Vec<char>, Vec<char>)| (p.0@, p.1@)) =~= before.push(
            (key@, value@),
        ));
        assert(tail@.len() < rest@.len());
        proof {
            lemma_lead(tail@, 0);
        }
        rest = trimmed_start(&tail);
        proof {
            match attrs_from(rest@) {
                Err(e) => {},
                Ok(more) => {
                    assert(before + (seq![(key@, value@)] + more) =~= before.push((key@, value@))
                        + more);
                },
            }
        }
    }
    assert(out@.map_values(|p: (Vec<char>, Vec<char>)| (p.0@, p.1@)) + Seq::empty() =~= out@.map_values(
        |p: (Vec<char>, Vec<char>)| (p.0@, p.1@),
    ));
    Ok(out)
}

// ---------------------------------------------------------------------------
// One item line
// ---------------------------------------------------------------------------

/// The kind a line's first word names.
pub open spec fn kind_of(w: Seq<char>) -> Option<Kind> {
    if w == "rect"@ {
        Some(Kind::Rect)
    } else if w == "circle"@ {
        Some(Kind::Circle)
    } else if w == "arrow"@ {
        Some(Kind::Arrow)
    } else if w == "text"@ {
        Some(Kind::Text)
    } else if w == "highlight"@ {
        Some(Kind::Highlight)
    } else if w == "underline"@ {
        Some(Kind::Underline)
    } else if w == "box"@ {
        Some(Kind::Box)
    } else {
        None
    }
}

fn kind_named(w: &Vec<char>) -> (r: Option<Kind>)
    ensures
        r == kind_of(w@),
{
    if is(w, "rect") {
        Some(Kind::Rect)
    } else if is(w, "circle") {
        Some(Kind::Circle)
    } else if is(w, "arrow") {
        Some(Kind::Arrow)
    } else if is(w, "text") {
        Some(Kind::Text)
    } else if is(w, "highlight") {
        Some(Kind::Highlight)
    } else if is(w, "underline") {
        Some(Kind::Underline)
    } else if is(w, "box") {
        Some(Kind::Box)
    } else {
        None
    }
}

/// Where an item is, before its attributes: its place, size, arrow end and
/// text, by what its kind takes after the kind's name.
pub struct Shape {
    pub place: PlaceView,
    pub size: Option<(Seq<char>, Seq<char>)>,
    pub to: Option<PlaceView>,
    pub label: Option<Seq<char>>,
}

pub open spec fn shape_of(kind: Kind, rest: Seq<char>) -> Result<Shape, Seq<char>> {
    let parts = words_of(rest);
    match kind {
        Kind::Box => if parts.len() == 0 {
            Err("`box` marks a phrase, so it needs an `#id`"@)
        } else {
            match place_of(parts[0]) {
                Err(e) => Err(e),
                Ok(p) => if p is At {
                    Err(
                        "`box` marks a phrase written `[like this]{#id}`, so it takes an `#id` rather than coordinates"@,
                    )
                } else if parts.len() > 1 {
                    Err("too many fields before `:`"@)
                } else {
                    Ok(Shape { place: p, size: None, to: None, label: None })
                },
            }
        },
        Kind::Arrow => match first_at(rest, "->"@, 0) {
            None => Err("arrow is written `from -> to`"@),
            Some(a) => match place_of(trim(rest.take(a))) {
                Err(e) => Err(e),
                Ok(p) => match place_of(trim(rest.skip(a + 2))) {
                    Err(e) => Err(e),
                    Ok(q) => Ok(Shape { place: p, size: None, to: Some(q), label: None }),
                },
            },
        },
        Kind::Text => {
            let i = word_end(rest, 0);
            if i >= rest.len() {
                Err("text is written `x,y \"content\"`"@)
            } else {
                match place_of(rest.take(i)) {
                    Err(e) => Err(e),
                    Ok(p) => {
                        let text = trim(rest.skip(i + 1));
                        if text.len() >= 2 && text[0] == '"' && text.last() == '"' {
                            Ok(
                                Shape {
                                    place: p,
                                    size: None,
                                    to: None,
                                    label: Some(text.subrange(1, text.len() - 1)),
                                },
                            )
                        } else {
                            Err("text content must be quoted"@)
                        }
                    },
                }
            }
        },
        _ => if parts.len() == 0 {
            Err("missing position"@)
        } else {
            match place_of(parts[0]) {
                Err(e) => Err(e),
                Ok(p) => match p {
                    PlaceView::At(_, _) => if parts.len() < 2 {
                        Err("coordinates need a size, e.g. `40,22 18x12`"@)
                    } else {
                        match size_of(parts[1]) {
                            Err(e) => Err(e),
                            Ok(sz) => if parts.len() > 2 {
                                Err("too many fields before `:`"@)
                            } else {
                                Ok(Shape { place: p, size: Some(sz), to: None, label: None })
                            },
                        }
                    },
                    PlaceView::Anchor(_) => if parts.len() >= 2 {
                        Err(
                            "an anchored "@ + kind_name(kind) + " takes no size (got `"@ + parts[1]
                                + "`); use pad="@,
                        )
                    } else {
                        Ok(Shape { place: p, size: None, to: None, label: None })
                    },
                },
            }
        },
    }
}

/// The item's attributes from `i` on, applied in order.
pub open spec fn with_attrs(attrs: Seq<(Seq<char>, Seq<char>)>, i: int, it: ItemView) -> Result<ItemView, Seq<char>>
    decreases attrs.len() - i,
{
    if i < 0 || i >= attrs.len() {
        Ok(it)
    } else {
        let (k, v) = attrs[i];
        if k == "label"@ {
            with_attrs(attrs, i + 1, ItemView { label: Some(v), ..it })
        } else if k == "color"@ {
            with_attrs(attrs, i + 1, ItemView { color: Some(v), ..it })
        } else if k == "id"@ {
            if valid_id(v) {
                with_attrs(attrs, i + 1, ItemView { id: Some(v), ..it })
            } else {
                Err("`"@ + v + "` is not a valid id"@)
            }
        } else if k == "pad"@ {
            if sign_of(v) is Some {
                with_attrs(attrs, i + 1, ItemView { pad: Some(v), ..it })
            } else {
                Err("pad is a number of pixels, got `"@ + v + "`"@)
            }
        } else if k == "step"@ {
            match unsigned_value(v, u32::MAX as int) {
                Some(n) => with_attrs(attrs, i + 1, ItemView { step: n as u32, ..it }),
                None => Err("step is a click number, got `"@ + v + "`"@),
            }
        } else if k == "style"@ {
            if v == "dashed"@ {
                with_attrs(attrs, i + 1, ItemView { dashed: true, ..it })
            } else {
                Err("unknown style `"@ + v + "` (only `dashed`)"@)
            }
        } else if k == "quote"@ {
            if trim(v).len() == 0 {
                Err("quote= needs the words to look for"@)
            } else {
                with_attrs(attrs, i + 1, ItemView { quote: Some(v), ..it })
            }
        } else if k == "page"@ {
            match unsigned_value(v, u32::MAX as int) {
                Some(n) => if n > 0 {
                    with_attrs(attrs, i + 1, ItemView { page: Some(n as u32), ..it })
                } else {
                    Err("page is a page number, got `"@ + v + "`"@)
                },
                None => Err("page is a page number, got `"@ + v + "`"@),
            }
        } else {
            Err("unknown attribute `"@ + k + "=`"@)
        }
    }
}

/// The part before the first ` : `, and the attributes after it.
pub open spec fn head_and_attrs(line: Seq<char>) -> (Seq<char>, Seq<char>) {
    match first_at(line, " : "@, 0) {
        Some(i) => (line.take(i), trim(line.skip(i + 3))),
        None => (line, Seq::empty()),
    }
}

/// One item line: `kind geometry [: attributes]`.
pub open spec fn item_of(line: Seq<char>) -> Result<ItemView, Seq<char>> {
    let (head, attrs) = head_and_attrs(line);
    let ws = words_of(head);
    let first = if ws.len() > 0 {
        ws[0]
    } else {
        Seq::empty()
    };
    match kind_of(first) {
        None => Err("unknown annotation `"@ + first + "`"@),
        Some(kind) => match shape_of(kind, trim(join(ws.skip(1), " "@))) {
            Err(e) => Err(e),
            Ok(sh) => match attrs_of(attrs) {
                Err(e) => Err(e),
                Ok(avs) => {
                    let start = ItemView {
                        kind,
                        id: None,
                        place: sh.place,
                        size: sh.size,
                        to: sh.to,
                        pad: None,
                        label: sh.label,
                        color: None,
                        dashed: false,
                        step: 0,
                        quote: None,
                        page: None,
                    };
                    match with_attrs(avs, 0, start) {
                        Err(e) => Err(e),
                        Ok(it) => if it.pad is Some && !(it.place is Anchor) {
                            Err("pad= only applies to an anchored item"@)
                        } else {
                            Ok(it)
                        },
                    }
                },
            },
        },
    }
}

fn join_words(ws: &Vec<Vec<char>>, from: usize) -> (r: Vec<char>)
    requires
        from <= ws@.len(),
    ensures
        r@ == join(ws@.map_values(|w: Vec<char>| w@).skip(from as int), " "@),
{
    let ghost names = ws@.map_values(|w: Vec<char>| w@).skip(from as int);
    let mut out: Vec<char> = Vec::new();
    let mut i: usize = from;
    while i < ws.len()
        invariant
            from <= i <= ws@.len(),
            names == ws@.map_values(|w: Vec<char>| w@).skip(from as int),
            out@ == join(names.take(i - from), " "@),
        decreases ws@.len() - i,
    {
        assert(names.take(i + 1 - from).drop_last() == names.take(i - from));
        assert(names[i - from] == ws@[i as int]@);
        if i > from {
            push_str(&mut out, " ");
        }
        push_all(&mut out, &ws[i]);
        i += 1;
    }
    assert(names.take(ws@.len() - from) == names);
    out
}

fn shape(kind: Kind, rest: &Vec<char>) -> (r: Result<(Place, Option<(String, String)>, Option<Place>, Option<String>), String>)
    ensures
        match r {
            Ok((p, sz, to, label)) => shape_of(kind, rest@) == Ok::<Shape, Seq<char>>(
                Shape {
                    place: p@,
                    size: match sz {
                        Some((w, h)) => Some((w@, h@)),
                        None => None,
                    },
                    to: match to {
                        Some(q) => Some(q@),
                        None => None,
                    },
                    label: opt_view(label),
                },
            ),
            Err(e) => shape_of(kind, rest@) == Err::<Shape, Seq<char>>(e@),
        },
{
    let parts = words(rest);
    let ghost pv = parts@.map_values(|w: Vec<char>| w@);
    let rl = rest.len();
    match kind {
        Kind::Box => {
            if parts.len() == 0 {
                return Err("`box` marks a phrase, so it needs an `#id`".to_owned());
            }
            assert(pv[0] == parts@[0]@);
            let p = match parse_place(&parts[0]) {
                Ok(p) => p,
                Err(e) => return Err(e),
            };
            if let Place::At(_, _) = p {
                return Err(
                    "`box` marks a phrase written `[like this]{#id}`, so it takes an `#id` rather than coordinates".to_owned(),
                );
            }
            if parts.len() > 1 {
                return Err("too many fields before `:`".to_owned());
            }
            Ok((p, None, None, None))
        },
        Kind::Arrow => {
            let arrow = chars_of("->");
            proof {
                reveal_strlit("->");
            }
            let a = match find_from(rest, &arrow, 0) {
                Some(a) => a,
                None => return Err("arrow is written `from -> to`".to_owned()),
            };
            proof {
                lemma_first_at_some(rest@, arrow@, 0);
            }
            let from = trimmed(&slice(rest, 0, a));
            let to = trimmed(&slice(rest, a + 2, rest.len()));
            assert(rest@.subrange(0, a as int) == rest@.take(a as int));
            assert(rest@.subrange(a + 2, rest@.len() as int) == rest@.skip(a + 2));
            let p = match parse_place(&from) {
                Ok(p) => p,
                Err(e) => return Err(e),
            };
            let q = match parse_place(&to) {
                Ok(q) => q,
                Err(e) => return Err(e),
            };
            Ok((p, None, Some(q), None))
        },
        Kind::Text => {
            let mut i: usize = 0;
            while i < rest.len() && !is_space(rest[i])
                invariant
                    i <= rest@.len(),
                    word_end(rest@, 0) == word_end(rest@, i as int),
                decreases rest@.len() - i,
            {
                i += 1;
            }
            if i >= rest.len() {
                return Err("text is written `x,y \"content\"`".to_owned());
            }
            let pos = slice(rest, 0, i);
            assert(pos@ == rest@.take(i as int));
            let p = match parse_place(&pos) {
                Ok(p) => p,
                Err(e) => return Err(e),
            };
            let text = trimmed(&slice(rest, i + 1, rest.len()));
            assert(rest@.subrange(i + 1, rest@.len() as int) == rest@.skip(i + 1));
            if text.len() >= 2 && text[0] == '"' && text[text.len() - 1] == '"' {
                let inner = slice(&text, 1, text.len() - 1);
                Ok((p, None, None, Some(string_of(inner.as_slice()))))
            } else {
                Err("text content must be quoted".to_owned())
            }
        },
        _ => {
            if parts.len() == 0 {
                return Err("missing position".to_owned());
            }
            assert(pv[0] == parts@[0]@);
            let p = match parse_place(&parts[0]) {
                Ok(p) => p,
                Err(e) => return Err(e),
            };
            match p {
                Place::At(_, _) => {
                    if parts.len() < 2 {
                        return Err("coordinates need a size, e.g. `40,22 18x12`".to_owned());
                    }
                    assert(pv[1] == parts@[1]@);
                    let sz = match parse_size(&parts[1]) {
                        Ok(sz) => sz,
                        Err(e) => return Err(e),
                    };
                    if parts.len() > 2 {
                        return Err("too many fields before `:`".to_owned());
                    }
                    Ok((p, Some(sz), None, None))
                },
                Place::Anchor(_) => {
                    if parts.len() >= 2 {
                        assert(pv[1] == parts@[1]@);
                        let mut msg: Vec<char> = Vec::new();
                        push_str(&mut msg, "an anchored ");
                        push_str(&mut msg, kind.as_str());
                        push_str(&mut msg, " takes no size (got `");
                        push_all(&mut msg, &parts[1]);
                        push_str(&mut msg, "`); use pad=");
                        return Err(string_of(msg.as_slice()));
                    }
                    Ok((p, None, None, None))
                },
            }
        },
    }
}

fn item_with_attrs(attrs: &Vec<(Vec<char>, Vec<char>)>, item: Item) -> (r: Result<Item, String>)
    ensures
        match r {
            Ok(it) => with_attrs(attrs@.map_values(|p: (Vec<char>, Vec<char>)| (p.0@, p.1@)), 0, item@)
                == Ok::<ItemView, Seq<char>>(it@),
            Err(e) => with_attrs(attrs@.map_values(|p: (Vec<char>, Vec<char>)| (p.0@, p.1@)), 0, item@)
                == Err::<ItemView, Seq<char>>(e@),
        },
{
    let ghost av = attrs@.map_values(|p: (Vec<char>, Vec<char>)| (p.0@, p.1@));
    let ghost start = item@;
    let mut it = item;
    let mut i: usize = 0;
    while i < attrs.len()
        invariant
            i <= attrs@.len(),
            av == attrs@.map_values(|p: (Vec<char>, Vec<char>)| (p.0@, p.1@)),
            start == item@,
            with_attrs(av, 0, start) == with_attrs(av, i as int, it@),
        decreases attrs@.len() - i,
    {
        let (k, v) = (&attrs[i].0, &attrs[i].1);
        assert(av[i as int] == (k@, v@));
        let vs = string_of(v.as_slice());
        if is(k, "label") {
            it.label = Some(vs);
        } else if is(k, "color") {
            it.color = Some(vs);
        } else if is(k, "id") {
            if !is_valid_id(v) {
                return Err(quoting("`", v, "` is not a valid id"));
            }
            it.id = Some(vs);
        } else if is(k, "pad") {
            if number_sign(v).is_none() {
                return Err(quoting("pad is a number of pixels, got `", v, "`"));
            }
            it.pad = Some(vs);
        } else if is(k, "step") {
            match parse_u32(v) {
                Some(n) => it.step = n,
                None => return Err(quoting("step is a click number, got `", v, "`")),
            }
        } else if is(k, "style") {
            if is(v, "dashed") {
                it.dashed = true;
            } else {
                return Err(quoting("unknown style `", v, "` (only `dashed`)"));
            }
        } else if is(k, "quote") {
            if trimmed(v).len() == 0 {
                return Err("quote= needs the words to look for".to_owned());
            }
            it.quote = Some(vs);
        } else if is(k, "page") {
            match parse_u32(v) {
                Some(n) => {
                    if n > 0 {
                        it.page = Some(n);
                    } else {
                        return Err(quoting("page is a page number, got `", v, "`"));
                    }
                },
                None => return Err(quoting("page is a page number, got `", v, "`")),
            }
        } else {
            return Err(quoting("unknown attribute `", k, "=`"));
        }
        i += 1;
    }
    Ok(it)
}

/// Reads one item line.
pub fn parse_item(line: &str) -> (r: Result<Item, String>)
    ensures
        match r {
            Ok(it) => item_of(line@) == Ok::<ItemView, Seq<char>>(it@),
            Err(e) => item_of(line@) == Err::<ItemView, Seq<char>>(e@),
        },
{
    let l = chars_of(line);
    let ll = l.len();
    let sep = chars_of(" : ");
    proof {
        reveal_strlit(" : ");
    }
    let (head, attrs) = match find_from(&l, &sep, 0) {
        Some(i) => {
            proof {
                lemma_first_at_some(l@, sep@, 0);
            }
            let h = slice(&l, 0, i);
            let a = trimmed(&slice(&l, i + 3, l.len()));
            assert(h@ == l@.take(i as int));
            assert(l@.subrange(i + 3, l@.len() as int) == l@.skip(i + 3));
            (h, a)
        },
        None => (l.clone(), Vec::new()),
    };
    assert(head_and_attrs(line@) == (head@, attrs@));
    let ws = words(&head);
    let ghost wv = ws@.map_values(|w: Vec<char>| w@);
    let first: Vec<char> = if ws.len() > 0 {
        assert(wv[0] == ws@[0]@);
        ws[0].clone()
    } else {
        Vec::new()
    };
    let kind = match kind_named(&first) {
        Some(k) => k,
        None => return Err(quoting("unknown annotation `", &first, "`")),
    };
    proof {
        reveal_strlit("rect");
        reveal_strlit("circle");
        reveal_strlit("arrow");
        reveal_strlit("text");
        reveal_strlit("highlight");
        reveal_strlit("underline");
        reveal_strlit("box");
        if ws.len() == 0 {
            assert(first@.len() == 0);
            assert(first@ != "rect"@);
            assert(first@ != "circle"@);
            assert(first@ != "arrow"@);
            assert(first@ != "text"@);
            assert(first@ != "highlight"@);
            assert(first@ != "underline"@);
            assert(first@ != "box"@);
        }
    }
    assert(ws.len() > 0);
    let joined = join_words(&ws, 1);
    let rest = trimmed(&joined);
    let (place, size, to, label) = match shape(kind, &rest) {
        Ok(s) => s,
        Err(e) => return Err(e),
    };
    let avs = match parse_attrs(&attrs) {
        Ok(a) => a,
        Err(e) => return Err(e),
    };
    let item = Item {
        kind,
        id: None,
        place,
        size,
        to,
        pad: None,
        label,
        color: None,
        dashed: false,
        step: 0,
        quote: None,
        page: None,
    };
    let it = match item_with_attrs(&avs, item) {
        Ok(it) => it,
        Err(e) => return Err(e),
    };
    let anchored = match it.place {
        Place::Anchor(_) => true,
        Place::At(_, _) => false,
    };
    if it.pad.is_some() && !anchored {
        return Err("pad= only applies to an anchored item".to_owned());
    }
    Ok(it)
}

// ---------------------------------------------------------------------------
// Whole blocks
// ---------------------------------------------------------------------------

/// A parsed block.
#[derive(Debug, Default)]
pub struct AnnotDoc {
    /// `#id`, a bare pane name, or the path of a picture not on the slide.
    pub target: Option<String>,
    /// `source:`: where the picture's words come from, for the check of a
    /// `quote=`.
    pub source: Option<String>,
    pub items: Vec<Item>,
    pub errors: Vec<String>,
}

/// A block as read so far, or in the end.
pub struct Scan {
    pub target: Option<Seq<char>>,
    pub source: Option<Seq<char>>,
    pub items: Seq<ItemView>,
    pub errors: Seq<Seq<char>>,
}

impl AnnotDoc {
    pub open spec fn scan(&self) -> Scan {
        Scan {
            target: opt_view(self.target),
            source: opt_view(self.source),
            items: self.items@.map_values(|i: Item| i@),
            errors: self.errors@.map_values(|e: String| e@),
        }
    }
}

pub open spec fn line_error(n: nat, e: Seq<char>) -> Seq<char> {
    "annotate line "@ + decimal(n + 1) + ": "@ + e
}

/// What the (trimmed) `n + 1`th line does to the block read so far.
pub open spec fn scan_line(line: Seq<char>, n: nat, st: Scan) -> Scan {
    if line.len() == 0 || has_prefix(line, "//"@) {
        st
    } else if has_prefix(line, "target:"@) {
        let t = trim(line.skip(7));
        if t.len() == 0 {
            Scan { errors: st.errors.push(line_error(n, "empty target"@)), ..st }
        } else {
            Scan { target: Some(t), ..st }
        }
    } else if has_prefix(line, "source:"@) {
        let t = trim(line.skip(7));
        if t.len() == 0 {
            Scan { errors: st.errors.push(line_error(n, "empty source"@)), ..st }
        } else {
            Scan { source: Some(t), ..st }
        }
    } else {
        match item_of(line) {
            Ok(it) => Scan { items: st.items.push(it), ..st },
            Err(e) => Scan { errors: st.errors.push(line_error(n, e)), ..st },
        }
    }
}

/// The lines from `from` on, the first being line `n + 1`, read into `st`.
pub open spec fn scan_from(s: Seq<char>, from: int, n: nat, st: Scan) -> Scan
    decreases s.len() + 1 - from,
{
    if 0 <= from < s.len() && from < next_line(s, from) <= s.len() + 1 {
        scan_from(s, next_line(s, from), n + 1, scan_line(trim(line_at(s, from)->0), n, st))
    } else {
        st
    }
}

pub open spec fn fully_anchored(items: Seq<ItemView>) -> bool {
    forall|i: int|
        0 <= i < items.len() ==> (#[trigger] items[i]).place is Anchor && !(items[i].to matches Some(
            PlaceView::At(_, _),
        ))
}

pub open spec fn picture_of(target: Option<Seq<char>>) -> Option<Seq<char>> {
    match target {
        Some(t) => if names_picture(t) {
            Some(t)
        } else {
            None
        },
        None => None,
    }
}

/// The anchored marks, each of which a card shows as a chip.
pub open spec fn chips_of(items: Seq<ItemView>) -> Seq<ItemView> {
    items.filter(|i: ItemView| i.place is Anchor)
}

pub open spec fn quotes_somewhere(items: Seq<ItemView>) -> bool {
    exists|i: int| 0 <= i < items.len() && (#[trigger] items[i]).place is Anchor && items[i].quote is Some
}

/// Whether the block is a card: its target is a picture not on the slide,
/// or it names no target and quotes on a phrase.
pub open spec fn card_of(target: Option<Seq<char>>, items: Seq<ItemView>) -> bool {
    picture_of(target) is Some || (target is None && quotes_somewhere(items))
}

pub open spec fn no_target_message() -> Seq<char> {
    "annotate block has no `target:` line, and an item is placed by coordinates (which are percentages of the target)"@
}

pub open spec fn no_phrase_message() -> Seq<char> {
    "the target is a picture that is not on the slide, so the block needs a phrase to open it from: an anchored mark such as `highlight #q1`"@
}

pub open spec fn no_source_message() -> Seq<char> {
    "a quote on a phrase says the phrase quotes a source, but the block names none: `source: @key` for a bibliography entry whose `file` field names the PDF, or `source: path/to/paper.pdf`"@
}

pub open spec fn silent_message(id: Seq<char>) -> Seq<char> {
    "the block is a card with no picture, so `#"@ + id
        + "` needs the words it quotes: `quote=\"…\"` on its mark, or a `target:` naming a picture of them"@
}

/// One message per chip that quotes nothing.
pub open spec fn silent_chips(items: Seq<ItemView>) -> Seq<Seq<char>>
    decreases items.len(),
{
    if items.len() == 0 {
        Seq::empty()
    } else {
        let rest = silent_chips(items.drop_last());
        match items.last().place {
            PlaceView::Anchor(id) => if items.last().quote is None {
                rest.push(silent_message(id))
            } else {
                rest
            },
            PlaceView::At(_, _) => rest,
        }
    }
}

/// What an item cannot be in a card: an anchored mark that is not on words,
/// or an arrow or text on the picture.
pub open spec fn card_problem(it: ItemView) -> Option<Seq<char>> {
    if it.place is Anchor && !follows_text(it.kind) {
        Some(
            "an anchored `"@ + kind_name(it.kind)
                + "` in a card block would mark something on the slide, but the picture is not there; a chip is a `highlight`, `underline` or `box` on a phrase"@,
        )
    } else if it.place is At && (it.kind == Kind::Arrow || it.kind == Kind::Text) {
        Some(
            "`"@ + kind_name(it.kind)
                + "` cannot be drawn in a card; a card places highlights, underlines, rects and circles on the picture"@,
        )
    } else {
        None
    }
}

pub open spec fn card_problems(items: Seq<ItemView>) -> Seq<Seq<char>>
    decreases items.len(),
{
    if items.len() == 0 {
        Seq::empty()
    } else {
        let rest = card_problems(items.drop_last());
        match card_problem(items.last()) {
            Some(p) => rest.push(p),
            None => rest,
        }
    }
}

/// The errors a card block adds.
pub open spec fn card_errors(st: Scan) -> Seq<Seq<char>> {
    let e1 = if st.items.len() > 0 && chips_of(st.items).len() == 0 {
        seq![no_phrase_message()]
    } else {
        Seq::empty()
    };
    let e2 = if picture_of(st.target) is None {
        (if st.source is None {
            seq![no_source_message()]
        } else {
            Seq::empty()
        }) + silent_chips(st.items)
    } else {
        Seq::empty()
    };
    e1 + e2 + card_problems(st.items)
}

pub open spec fn empty_scan() -> Scan {
    Scan { target: None, source: None, items: Seq::empty(), errors: Seq::empty() }
}

/// A whole `annotate` block.
pub open spec fn doc_of(src: Seq<char>) -> Scan {
    let st = scan_from(src, 0, 0, empty_scan());
    let st2 = if st.target is None && st.items.len() > 0 && !fully_anchored(st.items) {
        Scan { errors: st.errors.push(no_target_message()), ..st }
    } else {
        st
    };
    if card_of(st2.target, st2.items) {
        Scan { errors: st2.errors + card_errors(st2), ..st2 }
    } else {
        st2
    }
}

fn read_line_into(line: &Vec<char>, n: usize, doc: &mut AnnotDoc)
    requires
        n < usize::MAX,
    ensures
        final(doc).scan() == scan_line(line@, n as nat, old(doc).scan()),
{
    let ll = line.len();
    proof {
        reveal_strlit("//");
        reveal_strlit("target:");
        reveal_strlit("source:");
    }
    if line.len() == 0 || starts_with(line, &chars_of("//")) {
        return;
    }
    let is_target = starts_with(line, &chars_of("target:"));
    let is_source = !is_target && starts_with(line, &chars_of("source:"));
    if is_target || is_source {
        let t = trimmed(&slice(line, 7, line.len()));
        assert(line@.subrange(7, line@.len() as int) == line@.skip(7));
        if t.len() == 0 {
            let mut msg: Vec<char> = Vec::new();
            push_str(&mut msg, "annotate line ");
            push_decimal(&mut msg, (n + 1) as u64);
            push_str(&mut msg, ": ");
            if is_target {
                push_str(&mut msg, "empty target");
            } else {
                push_str(&mut msg, "empty source");
            }
            let ghost before = doc.errors@.map_values(|e: String| e@);
            doc.errors.push(string_of(msg.as_slice()));
            assert(doc.errors@.map_values(|e: String| e@) =~= before.push(msg@));
        } else if is_target {
            doc.target = Some(string_of(t.as_slice()));
        } else {
            doc.source = Some(string_of(t.as_slice()));
        }
        return;
    }
    match parse_item(string_of(line.as_slice()).as_str()) {
        Ok(it) => {
            let ghost before = doc.items@.map_values(|i: Item| i@);
            doc.items.push(it);
            assert(doc.items@.map_values(|i: Item| i@) =~= before.push(it@));
        },
        Err(e) => {
            let mut msg: Vec<char> = Vec::new();
            push_str(&mut msg, "annotate line ");
            push_decimal(&mut msg, (n + 1) as u64);
            push_str(&mut msg, ": ");
            push_str(&mut msg, e.as_str());
            let ghost before = doc.errors@.map_values(|e: String| e@);
            doc.errors.push(string_of(msg.as_slice()));
            assert(doc.errors@.map_values(|e: String| e@) =~= before.push(msg@));
        },
    }
}

fn all_anchored(items: &Vec<Item>) -> (b: bool)
    ensures
        b == fully_anchored(items@.map_values(|i: Item| i@)),
{
    let ghost iv = items@.map_values(|i: Item| i@);
    let mut i: usize = 0;
    while i < items.len()
        invariant
            i <= items@.len(),
            iv == items@.map_values(|i: Item| i@),
            forall|k: int|
                0 <= k < i ==> (#[trigger] iv[k]).place is Anchor && !(iv[k].to matches Some(
                    PlaceView::At(_, _),
                )),
        decreases items@.len() - i,
    {
        assert(iv[i as int] == items@[i as int]@);
        let ok = match (&items[i].place, &items[i].to) {
            (Place::Anchor(_), Some(Place::At(_, _))) => false,
            (Place::Anchor(_), _) => true,
            _ => false,
        };
        if !ok {
            return false;
        }
        i += 1;
    }
    true
}

impl AnnotDoc {
    /// The picture a card block shows: a `target:` that names an image file.
    pub fn picture(&self) -> (r: Option<&str>)
        ensures
            match r {
                Some(p) => picture_of(opt_view(self.target)) == Some(p@),
                None => picture_of(opt_view(self.target)) is None,
            },
    {
        match &self.target {
            Some(t) => if is_picture(t.as_str()) {
                Some(t.as_str())
            } else {
                None
            },
            None => None,
        }
    }

    /// The anchored marks, each of which a card shows as a chip.
    pub fn chips(&self) -> (r: Vec<&Item>)
        ensures
            r@.map_values(|i: &Item| i@) == chips_of(self.items@.map_values(|i: Item| i@)),
    {
        let ghost iv = self.items@.map_values(|i: Item| i@);
        let mut out: Vec<&Item> = Vec::new();
        let mut i: usize = 0;
        while i < self.items.len()
            invariant
                i <= self.items@.len(),
                iv == self.items@.map_values(|i: Item| i@),
                out@.map_values(|i: &Item| i@) == chips_of(iv.take(i as int)),
            decreases self.items@.len() - i,
        {
            let it = &self.items[i];
            assert(iv.take(i + 1) == iv.take(i as int).push(it@));
            proof {
                iv.take(i as int).lemma_filter_push(it@, |i: ItemView| i.place is Anchor);
            }
            let ghost before = out@.map_values(|i: &Item| i@);
            if let Place::Anchor(_) = it.place {
                out.push(it);
                assert(out@.map_values(|i: &Item| i@) =~= before.push(it@));
            }
            i += 1;
        }
        assert(iv.take(self.items@.len() as int) == iv);
        out
    }

    /// Whether the block is a card: nothing drawn on the slide, a chip after
    /// each phrase that opens the source.
    pub fn is_card(&self) -> (b: bool)
        ensures
            b == card_of(opt_view(self.target), self.items@.map_values(|i: Item| i@)),
    {
        if self.picture().is_some() {
            return true;
        }
        if self.target.is_some() {
            return false;
        }
        let ghost iv = self.items@.map_values(|i: Item| i@);
        let mut i: usize = 0;
        while i < self.items.len()
            invariant
                i <= self.items@.len(),
                iv == self.items@.map_values(|i: Item| i@),
                self.target is None,
                forall|k: int| 0 <= k < i ==> !((#[trigger] iv[k]).place is Anchor && iv[k].quote is Some),
            decreases self.items@.len() - i,
        {
            assert(iv[i as int] == self.items@[i as int]@);
            if let Place::Anchor(_) = self.items[i].place {
                if self.items[i].quote.is_some() {
                    assert(iv[i as int].place is Anchor && iv[i as int].quote is Some);
                    return true;
                }
            }
            i += 1;
        }
        false
    }
}

fn add_card_errors(doc: &mut AnnotDoc)
    ensures
        final(doc).target == old(doc).target,
        final(doc).source == old(doc).source,
        final(doc).items@ == old(doc).items@,
        final(doc).errors@.map_values(|e: String| e@) == old(doc).errors@.map_values(|e: String| e@)
            + card_errors(old(doc).scan()),
{
    let ghost st = doc.scan();
    let ghost iv = st.items;
    let chips = doc.chips().len();
    let mut new_errors: Vec<String> = Vec::new();
    if doc.items.len() > 0 && chips == 0 {
        new_errors.push(
            "the target is a picture that is not on the slide, so the block needs a phrase to open it from: an anchored mark such as `highlight #q1`".to_owned(),
        );
    }
    assert(new_errors@.map_values(|e: String| e@) =~= (if st.items.len() > 0 && chips_of(st.items).len() == 0 {
        seq![no_phrase_message()]
    } else {
        Seq::empty()
    }));
    if doc.picture().is_none() {
        if doc.source.is_none() {
            new_errors.push(
                "a quote on a phrase says the phrase quotes a source, but the block names none: `source: @key` for a bibliography entry whose `file` field names the PDF, or `source: path/to/paper.pdf`".to_owned(),
            );
        }
        let ghost base = new_errors@.map_values(|e: String| e@);
        let mut i: usize = 0;
        while i < doc.items.len()
            invariant
                i <= doc.items@.len(),
                iv == doc.items@.map_values(|i: Item| i@),
                new_errors@.map_values(|e: String| e@) == base + silent_chips(iv.take(i as int)),
            decreases doc.items@.len() - i,
        {
            assert(iv.take(i + 1).drop_last() == iv.take(i as int));
            assert(iv[i as int] == doc.items@[i as int]@);
            if let Place::Anchor(id) = &doc.items[i].place {
                if doc.items[i].quote.is_none() {
                    let mut msg: Vec<char> = Vec::new();
                    push_str(&mut msg, "the block is a card with no picture, so `#");
                    push_str(&mut msg, id.as_str());
                    push_str(
                        &mut msg,
                        "` needs the words it quotes: `quote=\"…\"` on its mark, or a `target:` naming a picture of them",
                    );
                    let ghost before = new_errors@.map_values(|e: String| e@);
                    new_errors.push(string_of(msg.as_slice()));
                    assert(new_errors@.map_values(|e: String| e@) =~= before.push(msg@));
                }
            }
            i += 1;
        }
        assert(iv.take(doc.items@.len() as int) == iv);
    }
    let ghost before_problems = new_errors@.map_values(|e: String| e@);
    let mut i: usize = 0;
    while i < doc.items.len()
        invariant
            i <= doc.items@.len(),
            iv == doc.items@.map_values(|i: Item| i@),
            new_errors@.map_values(|e: String| e@) == before_problems + card_problems(iv.take(i as int)),
        decreases doc.items@.len() - i,
    {
        assert(iv.take(i + 1).drop_last() == iv.take(i as int));
        let it = &doc.items[i];
        assert(iv[i as int] == it@);
        let anchored = match it.place {
            Place::Anchor(_) => true,
            Place::At(_, _) => false,
        };
        let ghost before = new_errors@.map_values(|e: String| e@);
        if anchored && !it.kind.marks_text() {
            let mut msg: Vec<char> = Vec::new();
            push_str(&mut msg, "an anchored `");
            push_str(&mut msg, it.kind.as_str());
            push_str(
                &mut msg,
                "` in a card block would mark something on the slide, but the picture is not there; a chip is a `highlight`, `underline` or `box` on a phrase",
            );
            new_errors.push(string_of(msg.as_slice()));
            assert(new_errors@.map_values(|e: String| e@) =~= before.push(msg@));
        } else if !anchored && (it.kind == Kind::Arrow || it.kind == Kind::Text) {
            let mut msg: Vec<char> = Vec::new();
            push_str(&mut msg, "`");
            push_str(&mut msg, it.kind.as_str());
            push_str(
                &mut msg,
                "` cannot be drawn in a card; a card places highlights, underlines, rects and circles on the picture",
            );
            new_errors.push(string_of(msg.as_slice()));
            assert(new_errors@.map_values(|e: String| e@) =~= before.push(msg@));
        }
        i += 1;
    }
    assert(iv.take(doc.items@.len() as int) == iv);
    let ghost old_errors = doc.errors@.map_values(|e: String| e@);
    let mut j: usize = 0;
    while j < new_errors.len()
        invariant
            j <= new_errors@.len(),
            doc.target == old(doc).target,
            doc.source == old(doc).source,
            doc.items@ == old(doc).items@,
            doc.errors@.map_values(|e: String| e@) == old_errors + new_errors@.map_values(
                |e: String| e@,
            ).take(j as int),
        decreases new_errors@.len() - j,
    {
        let ghost before = doc.errors@.map_values(|e: String| e@);
        let e = new_errors[j].clone();
        assert(new_errors@.map_values(|e: String| e@)[j as int] == e@);
        doc.errors.push(e);
        assert(doc.errors@.map_values(|e: String| e@) =~= before.push(e@));
        assert(doc.errors@.map_values(|e: String| e@) =~= old_errors + new_errors@.map_values(
            |e: String| e@,
        ).take(j + 1));
        j += 1;
    }
    assert(new_errors@.map_values(|e: String| e@).take(new_errors@.len() as int) =~= card_errors(st));
}

/// Parses an `annotate` block.
pub fn parse(src: &str) -> (doc: AnnotDoc)
    ensures
        doc.scan() == doc_of(src@),
{
    let cs = chars_of(src);
    let mut doc = AnnotDoc { target: None, source: None, items: Vec::new(), errors: Vec::new() };
    assert(doc.scan().items =~= Seq::<ItemView>::empty());
    assert(doc.scan().errors =~= Seq::<Seq<char>>::empty());
    let ghost all = scan_from(src@, 0, 0, empty_scan());
    let mut from: usize = 0;
    let mut n: usize = 0;
    while from < cs.len()
        invariant
            from <= cs@.len(),
            n <= from,
            cs@ == src@,
            all == scan_from(cs@, 0, 0, empty_scan()),
            scan_from(cs@, from as int, n as nat, doc.scan()) == all,
        decreases cs@.len() - from,
    {
        let (raw, end) = crate::text::read_line(&cs, from);
        proof {
            crate::text::lemma_line_end(cs@, from as int);
        }
        let line = trimmed(&raw);
        let ghost before = doc.scan();
        assert(scan_from(cs@, from as int, n as nat, before) == scan_from(
            cs@,
            end + 1,
            (n + 1) as nat,
            scan_line(line@, n as nat, before),
        ));
        read_line_into(&line, n, &mut doc);
        if end >= cs.len() {
            from = cs.len();
        } else {
            from = end + 1;
        }
        n = n + 1;
    }
    if doc.target.is_none() && doc.items.len() > 0 && !all_anchored(&doc.items) {
        let ghost before = doc.errors@.map_values(|e: String| e@);
        doc.errors.push(
            "annotate block has no `target:` line, and an item is placed by coordinates (which are percentages of the target)".to_owned(),
        );
        assert(doc.errors@.map_values(|e: String| e@) =~= before.push(no_target_message()));
    }
    if doc.is_card() {
        add_card_errors(&mut doc);
    }
    doc
}

/// The block's items that anchor on an `#id`, an arrow's end included: the
/// renderer warns when one matches nothing on the slide.
pub open spec fn ids_of(items: Seq<ItemView>) -> Seq<Seq<char>>
    decreases items.len(),
{
    if items.len() == 0 {
        Seq::empty()
    } else {
        let it = items.last();
        let a = match it.place {
            PlaceView::Anchor(id) => seq![id],
            PlaceView::At(_, _) => Seq::empty(),
        };
        let b = match it.to {
            Some(PlaceView::Anchor(id)) => seq![id],
            _ => Seq::empty(),
        };
        ids_of(items.drop_last()) + a + b
    }
}

/// An item anchors on `id`, where it is placed or where its arrow points.
pub open spec fn anchors_on(it: ItemView, id: Seq<char>) -> bool {
    it.place == PlaceView::Anchor(id) || it.to == Some(PlaceView::Anchor(id))
}

/// Some item of `items` anchors on `id`.
pub open spec fn some_item_anchors_on(items: Seq<ItemView>, id: Seq<char>) -> bool {
    exists|i: int| 0 <= i < items.len() && #[trigger] anchors_on(items[i], id)
}

/// The ids a block references are exactly those its items anchor on: each
/// anchored place and each anchored arrow end is listed, and nothing else.
pub proof fn lemma_referenced_ids_are_the_anchors(items: Seq<ItemView>)
    ensures
        forall|i: int, id: Seq<char>|
            0 <= i < items.len() && #[trigger] anchors_on(items[i], id) ==> ids_of(items).contains(id),
        forall|k: int|
            0 <= k < ids_of(items).len() ==> some_item_anchors_on(items, #[trigger] ids_of(items)[k]),
    decreases items.len(),
{
    if items.len() > 0 {
        let rest = items.drop_last();
        lemma_referenced_ids_are_the_anchors(rest);
        let it = items.last();
        let a = match it.place {
            PlaceView::Anchor(id) => seq![id],
            PlaceView::At(_, _) => Seq::<Seq<char>>::empty(),
        };
        let b = match it.to {
            Some(PlaceView::Anchor(id)) => seq![id],
            _ => Seq::<Seq<char>>::empty(),
        };
        let r = ids_of(rest);
        assert(ids_of(items) == r + a + b);
        assert forall|i: int, id: Seq<char>|
            0 <= i < items.len() && #[trigger] anchors_on(items[i], id) implies ids_of(items).contains(id) by {
            if i < rest.len() {
                assert(items[i] == rest[i]);
                assert(anchors_on(rest[i], id));
                let k = choose|k: int| 0 <= k < r.len() && r[k] == id;
                assert((r + a + b)[k] == id);
            } else if it.place == PlaceView::Anchor(id) {
                assert((r + a + b)[r.len() as int] == id);
            } else {
                assert((r + a + b)[(r.len() + a.len()) as int] == id);
            }
        }
        assert forall|k: int| 0 <= k < ids_of(items).len() implies some_item_anchors_on(
            items,
            #[trigger] ids_of(items)[k],
        ) by {
            let x = ids_of(items)[k];
            if k < r.len() {
                assert(x == r[k]);
                assert(some_item_anchors_on(rest, r[k]));
                let i = choose|i: int| 0 <= i < rest.len() && #[trigger] anchors_on(rest[i], r[k]);
                assert(items[i] == rest[i]);
                assert(anchors_on(items[i], x));
            } else if k < r.len() + a.len() {
                assert(anchors_on(items[items.len() - 1], x));
            } else {
                assert(anchors_on(items[items.len() - 1], x));
            }
        }
    } else {
        assert(ids_of(items) =~= Seq::<Seq<char>>::empty());
    }
}

/// Every `#id` the block references.
pub fn referenced_ids(doc: &AnnotDoc) -> (r: Vec<&str>)
    ensures
        r@.map_values(|s: &str| s@) == ids_of(doc.items@.map_values(|i: Item| i@)),
{
    let ghost iv = doc.items@.map_values(|i: Item| i@);
    let mut out: Vec<&str> = Vec::new();
    let mut i: usize = 0;
    while i < doc.items.len()
        invariant
            i <= doc.items@.len(),
            iv == doc.items@.map_values(|i: Item| i@),
            out@.map_values(|s: &str| s@) == ids_of(iv.take(i as int)),
        decreases doc.items@.len() - i,
    {
        assert(iv.take(i + 1).drop_last() == iv.take(i as int));
        let it = &doc.items[i];
        assert(iv[i as int] == it@);
        let ghost before = out@.map_values(|s: &str| s@);
        if let Place::Anchor(id) = &it.place {
            out.push(id.as_str());
        }
        let ghost mid = out@.map_values(|s: &str| s@);
        if let Some(Place::Anchor(id)) = &it.to {
            out.push(id.as_str());
        }
        assert(out@.map_values(|s: &str| s@) =~= ids_of(iv.take(i + 1)));
        i += 1;
    }
    assert(iv.take(doc.items@.len() as int) == iv);
    out
}

} // verus!
