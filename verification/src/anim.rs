//! The `anim` block: one line per track, `[trigger] target : effect`, read
//! into the timeline a slide plays. Also the deck-wide `transition:` and
//! `autoplay:` settings, which share its timing grammar.
//!
//! ```text
//! [enter]   .title       : chars fade-in 400ms stagger=30ms ease=out-cubic
//! [click 1] #latency-0-2 : grow-y 500ms
//! [after #latency-0-2 +200ms] .caption : fade-in 300ms
//! [exit]    slide        : iris-out 500ms
//! ```
use vstd::prelude::*;
use crate::text::{
    all_digits, chars_of, decimal, digits_value, find_from, first_at, has_prefix, has_suffix, is,
    join, lemma_first_at_some, occurs_at, parse_i64, parse_u32, push_all, push_decimal,
    push_joined, push_str, same, signed_value, slice, string_of, trim, trimmed, unsigned_value,
    words, words_of, is_ws, is_space, ends_with, starts_with, is_digit, line_at, next_line,
    lemma_first_char,
};

verus! {

// ---------------------------------------------------------------------------
// The pieces of a track
// ---------------------------------------------------------------------------

/// What starts a track playing.
#[derive(Debug, Clone, PartialEq, Eq)]
pub enum Trigger {
    /// When the slide is entered.
    Enter,
    /// On the Nth `click` advance within the slide, counted from 1.
    Click(u32),
    /// When the slide is left.
    Exit,
    /// `offset_ms` after another track's target id; negative starts earlier.
    After { id: String, offset_ms: i64 },
}

pub enum TriggerView {
    Enter,
    Click(u32),
    Exit,
    After(Seq<char>, i64),
}

impl View for Trigger {
    type V = TriggerView;

    open spec fn view(&self) -> TriggerView {
        match self {
            Trigger::Enter => TriggerView::Enter,
            Trigger::Click(n) => TriggerView::Click(*n),
            Trigger::Exit => TriggerView::Exit,
            Trigger::After { id, offset_ms } => TriggerView::After(id@, *offset_ms),
        }
    }
}

/// A text-splitting granularity.
#[derive(Debug, Clone, Copy, PartialEq, Eq, Structural)]
pub enum Split {
    Chars,
    Words,
    Lines,
}

pub open spec fn split_name(s: Split) -> Seq<char> {
    match s {
        Split::Chars => "chars"@,
        Split::Words => "words"@,
        Split::Lines => "lines"@,
    }
}

impl Split {
    pub fn as_str(&self) -> (r: &'static str)
        ensures
            r@ == split_name(*self),
    {
        match self {
            Split::Chars => "chars",
            Split::Words => "words",
            Split::Lines => "lines",
        }
    }
}

/// The split keyword a token names, if it names one.
pub open spec fn split_of(t: Seq<char>) -> Option<Split> {
    if t == "chars"@ {
        Some(Split::Chars)
    } else if t == "words"@ {
        Some(Split::Words)
    } else if t == "lines"@ {
        Some(Split::Lines)
    } else {
        None
    }
}

pub fn parse_split(tok: &str) -> (r: Option<Split>)
    ensures
        r == split_of(tok@),
{
    let t = chars_of(tok);
    if is(&t, "chars") {
        Some(Split::Chars)
    } else if is(&t, "words") {
        Some(Split::Words)
    } else if is(&t, "lines") {
        Some(Split::Lines)
    } else {
        None
    }
}

/// What a track animates: a CSS selector, and how its text is split.
#[derive(Debug, Clone, PartialEq, Eq)]
pub struct Target {
    pub sel: String,
    pub split: Option<Split>,
}

pub struct TargetView {
    pub sel: Seq<char>,
    pub split: Option<Split>,
}

impl View for Target {
    type V = TargetView;

    open spec fn view(&self) -> TargetView {
        TargetView { sel: self.sel@, split: self.split }
    }
}

/// The way a travelling effect travels.
#[derive(Debug, Clone, Copy, PartialEq, Eq, Structural)]
pub enum Direction {
    Left,
    Right,
    Up,
    Down,
}

pub open spec fn direction_name(d: Direction) -> Seq<char> {
    match d {
        Direction::Left => "left"@,
        Direction::Right => "right"@,
        Direction::Up => "up"@,
        Direction::Down => "down"@,
    }
}

impl Direction {
    pub fn as_str(&self) -> (r: &'static str)
        ensures
            r@ == direction_name(*self),
    {
        match self {
            Direction::Left => "left",
            Direction::Right => "right",
            Direction::Up => "up",
            Direction::Down => "down",
        }
    }
}

pub open spec fn direction_of(v: Seq<char>) -> Result<Direction, Seq<char>> {
    if v == "left"@ {
        Ok(Direction::Left)
    } else if v == "right"@ {
        Ok(Direction::Right)
    } else if v == "up"@ {
        Ok(Direction::Up)
    } else if v == "down"@ {
        Ok(Direction::Down)
    } else {
        Err("unknown direction `"@ + v + "`; expected left, right, up or down"@)
    }
}

pub fn parse_dir(v: &str) -> (r: Result<Direction, String>)
    ensures
        match r {
            Ok(d) => direction_of(v@) == Ok::<Direction, Seq<char>>(d),
            Err(e) => direction_of(v@) == Err::<Direction, Seq<char>>(e@),
        },
{
    let t = chars_of(v);
    if is(&t, "left") {
        Ok(Direction::Left)
    } else if is(&t, "right") {
        Ok(Direction::Right)
    } else if is(&t, "up") {
        Ok(Direction::Up)
    } else if is(&t, "down") {
        Ok(Direction::Down)
    } else {
        let mut msg: Vec<char> = Vec::new();
        push_str(&mut msg, "unknown direction `");
        push_all(&mut msg, &t);
        push_str(&mut msg, "`; expected left, right, up or down");
        Err(string_of(msg.as_slice()))
    }
}

// ---------------------------------------------------------------------------
// Durations
// ---------------------------------------------------------------------------

/// A duration in milliseconds: a `u32` followed by `ms`.
pub open spec fn ms_of(t: Seq<char>) -> Option<u32> {
    if has_suffix(t, "ms"@) {
        match unsigned_value(t.take(t.len() - 2), u32::MAX as int) {
            Some(v) => Some(v as u32),
            None => None,
        }
    } else {
        None
    }
}

pub open spec fn ms_error(t: Seq<char>) -> Seq<char> {
    "expected a duration in ms, e.g. `400ms`, got `"@ + t + "`"@
}

pub fn is_ms_token(tok: &str) -> (b: bool)
    ensures
        b == has_suffix(tok@, "ms"@),
{
    ends_with(&chars_of(tok), &chars_of("ms"))
}

pub fn parse_ms(tok: &str) -> (r: Result<u32, String>)
    ensures
        match r {
            Ok(v) => ms_of(tok@) == Some(v),
            Err(e) => ms_of(tok@) is None && e@ == ms_error(tok@),
        },
{
    let t = chars_of(tok);
    proof {
        reveal_strlit("ms");
    }
    if ends_with(&t, &chars_of("ms")) {
        if let Some(v) = parse_u32(&slice(&t, 0, t.len() - 2)) {
            return Ok(v);
        }
    }
    let mut msg: Vec<char> = Vec::new();
    push_str(&mut msg, "expected a duration in ms, e.g. `400ms`, got `");
    push_all(&mut msg, &t);
    push_str(&mut msg, "`");
    Err(string_of(msg.as_slice()))
}

/// Every `u32` written in decimal with `ms` after it reads back as
/// itself, and nothing reads as a duration that does not end in `ms`.
pub proof fn lemma_ms_reads_back(n: u32, t: Seq<char>)
    ensures
        ms_of(crate::text::decimal(n as nat) + "ms"@) == Some(n),
        ms_of(t) is Some ==> has_suffix(t, "ms"@),
{
    reveal_strlit("ms");
    let d = crate::text::decimal(n as nat);
    crate::lsp::lemma_decimal_reads_back(n as nat);
    let w = d + "ms"@;
    assert(w.subrange(w.len() - 2, w.len() as int) =~= "ms"@);
    assert(w.take(w.len() - 2) =~= d);
}

/// How a dialect reads durations: the part of the grammar a consumer with
/// another time base (beats, frames) replaces.
pub trait Timing {
    /// What `duration` makes of a token.
    spec fn duration_of(&self, tok: Seq<char>) -> Result<u32, Seq<char>>;

    /// Whether `bare_duration` takes a token without `key=` for a duration.
    spec fn is_bare(&self, tok: Seq<char>) -> bool;

    /// A duration token, in milliseconds.
    fn duration(&self, tok: &str) -> (r: Result<u32, String>)
        ensures
            match r {
                Ok(v) => self.duration_of(tok@) == Ok::<u32, Seq<char>>(v),
                Err(e) => self.duration_of(tok@) == Err::<u32, Seq<char>>(e@),
            },
    ;

    /// Whether a bare token is read as a duration.
    fn bare_duration(&self, tok: &str) -> (b: bool)
        ensures
            b == self.is_bare(tok@),
    ;
}

/// The slide grammar's timing: `ms` only.
#[derive(Debug, Clone, Copy)]
pub struct Millis;

impl Timing for Millis {
    open spec fn duration_of(&self, tok: Seq<char>) -> Result<u32, Seq<char>> {
        match ms_of(tok) {
            Some(v) => Ok(v),
            None => Err(ms_error(tok)),
        }
    }

    open spec fn is_bare(&self, tok: Seq<char>) -> bool {
        has_suffix(tok, "ms"@)
    }

    fn duration(&self, tok: &str) -> (r: Result<u32, String>) {
        parse_ms(tok)
    }

    fn bare_duration(&self, tok: &str) -> (b: bool) {
        is_ms_token(tok)
    }
}

// ---------------------------------------------------------------------------
// Eases
// ---------------------------------------------------------------------------

/// Named easing curves, each with the CSS easing function it lowers to. The
/// Penner curves are the approximations published at easings.net.
pub const NAMED_EASES: [(&'static str, &'static str); 29] = [
    ("linear", "linear"),
    ("ease", "ease"),
    ("ease-in", "ease-in"),
    ("ease-out", "ease-out"),
    ("ease-in-out", "ease-in-out"),
    ("in-quad", "cubic-bezier(.11,0,.5,0)"),
    ("out-quad", "cubic-bezier(.5,1,.89,1)"),
    ("in-out-quad", "cubic-bezier(.45,0,.55,1)"),
    ("in-cubic", "cubic-bezier(.32,0,.67,0)"),
    ("out-cubic", "cubic-bezier(.33,1,.68,1)"),
    ("in-out-cubic", "cubic-bezier(.65,0,.35,1)"),
    ("in-quart", "cubic-bezier(.5,0,.75,0)"),
    ("out-quart", "cubic-bezier(.25,1,.5,1)"),
    ("in-out-quart", "cubic-bezier(.76,0,.24,1)"),
    ("in-quint", "cubic-bezier(.64,0,.78,0)"),
    ("out-quint", "cubic-bezier(.22,1,.36,1)"),
    ("in-out-quint", "cubic-bezier(.83,0,.17,1)"),
    ("in-sine", "cubic-bezier(.12,0,.39,0)"),
    ("out-sine", "cubic-bezier(.61,1,.88,1)"),
    ("in-out-sine", "cubic-bezier(.37,0,.63,1)"),
    ("in-expo", "cubic-bezier(.7,0,.84,0)"),
    ("out-expo", "cubic-bezier(.16,1,.3,1)"),
    ("in-out-expo", "cubic-bezier(.87,0,.13,1)"),
    ("in-circ", "cubic-bezier(.55,0,1,.45)"),
    ("out-circ", "cubic-bezier(0,.55,.45,1)"),
    ("in-out-circ", "cubic-bezier(.85,0,.15,1)"),
    ("in-back", "cubic-bezier(.36,0,.66,-.56)"),
    ("out-back", "cubic-bezier(.34,1.56,.64,1)"),
    ("in-out-back", "cubic-bezier(.68,-.6,.32,1.6)"),
];

pub open spec fn ease_table() -> Seq<(Seq<char>, Seq<char>)> {
    seq![
        ("linear"@, "linear"@),
        ("ease"@, "ease"@),
        ("ease-in"@, "ease-in"@),
        ("ease-out"@, "ease-out"@),
        ("ease-in-out"@, "ease-in-out"@),
        ("in-quad"@, "cubic-bezier(.11,0,.5,0)"@),
        ("out-quad"@, "cubic-bezier(.5,1,.89,1)"@),
        ("in-out-quad"@, "cubic-bezier(.45,0,.55,1)"@),
        ("in-cubic"@, "cubic-bezier(.32,0,.67,0)"@),
        ("out-cubic"@, "cubic-bezier(.33,1,.68,1)"@),
        ("in-out-cubic"@, "cubic-bezier(.65,0,.35,1)"@),
        ("in-quart"@, "cubic-bezier(.5,0,.75,0)"@),
        ("out-quart"@, "cubic-bezier(.25,1,.5,1)"@),
        ("in-out-quart"@, "cubic-bezier(.76,0,.24,1)"@),
        ("in-quint"@, "cubic-bezier(.64,0,.78,0)"@),
        ("out-quint"@, "cubic-bezier(.22,1,.36,1)"@),
        ("in-out-quint"@, "cubic-bezier(.83,0,.17,1)"@),
        ("in-sine"@, "cubic-bezier(.12,0,.39,0)"@),
        ("out-sine"@, "cubic-bezier(.61,1,.88,1)"@),
        ("in-out-sine"@, "cubic-bezier(.37,0,.63,1)"@),
        ("in-expo"@, "cubic-bezier(.7,0,.84,0)"@),
        ("out-expo"@, "cubic-bezier(.16,1,.3,1)"@),
        ("in-out-expo"@, "cubic-bezier(.87,0,.13,1)"@),
        ("in-circ"@, "cubic-bezier(.55,0,1,.45)"@),
        ("out-circ"@, "cubic-bezier(0,.55,.45,1)"@),
        ("in-out-circ"@, "cubic-bezier(.85,0,.15,1)"@),
        ("in-back"@, "cubic-bezier(.36,0,.66,-.56)"@),
        ("out-back"@, "cubic-bezier(.34,1.56,.64,1)"@),
        ("in-out-back"@, "cubic-bezier(.68,-.6,.32,1.6)"@)
    ]
}

/// The CSS for the first entry from `i` on that is named `name`.
pub open spec fn css_from(name: Seq<char>, i: int) -> Option<Seq<char>>
    decreases ease_table().len() - i,
{
    if i < 0 || i >= ease_table().len() {
        None
    } else if ease_table()[i].0 == name {
        Some(ease_table()[i].1)
    } else {
        css_from(name, i + 1)
    }
}

pub open spec fn css_of(name: Seq<char>) -> Option<Seq<char>> {
    css_from(name, 0)
}

/// The CSS easing function a named curve lowers to.
pub fn css_ease(name: &str) -> (r: Option<&'static str>)
    ensures
        match r {
            Some(c) => css_of(name@) == Some(c@),
            None => css_of(name@) is None,
        },
{
    let table = NAMED_EASES;
    assert(table@.map_values(|p: (&'static str, &'static str)| (p.0@, p.1@)) =~= ease_table());
    let n = chars_of(name);
    let mut i: usize = 0;
    while i < 29
        invariant
            i <= 29,
            n@ == name@,
            table@.map_values(|p: (&'static str, &'static str)| (p.0@, p.1@)) == ease_table(),
            css_of(name@) == css_from(name@, i as int),
        decreases 29 - i,
    {
        assert(table@[i as int].0@ == ease_table()[i as int].0);
        assert(table@[i as int].1@ == ease_table()[i as int].1);
        if is(&n, table[i].0) {
            return Some(table[i].1);
        }
        i += 1;
    }
    None
}

/// How a curve is eased: a named curve, or a spring given by its mass,
/// stiffness and damping, each kept as the decimal number it was written as.
#[derive(Debug, Clone, PartialEq, Eq)]
pub enum Ease {
    Named(String),
    Spring { mass: String, stiffness: String, damping: String },
}

pub enum EaseView {
    Named(Seq<char>),
    Spring(Seq<char>, Seq<char>, Seq<char>),
}

impl View for Ease {
    type V = EaseView;

    open spec fn view(&self) -> EaseView {
        match self {
            Ease::Named(n) => EaseView::Named(n@),
            Ease::Spring { mass, stiffness, damping } => EaseView::Spring(mass@, stiffness@, damping@),
        }
    }
}

// ---------------------------------------------------------------------------
// Decimal numbers, as `f64`'s `FromStr` reads them
// ---------------------------------------------------------------------------

/// Which side of zero a number falls on, or that it is not a number.
#[derive(Debug, Clone, Copy, PartialEq, Eq, Structural)]
pub enum Sign {
    Positive,
    Zero,
    Negative,
    NotANumber,
}

/// Where the run of ASCII digits from `i` ends.
pub open spec fn digits_end(s: Seq<char>, i: int) -> int
    decreases s.len() - i,
{
    if 0 <= i < s.len() && is_digit(s[i]) {
        digits_end(s, i + 1)
    } else {
        i
    }
}

/// Whether a digit other than `0` occurs in `s`.
pub open spec fn has_nonzero(s: Seq<char>) -> bool {
    exists|k: int| 0 <= k < s.len() && s[k] != '0'
}

/// `s` with ASCII capitals lowered.
pub open spec fn folded(s: Seq<char>) -> Seq<char> {
    s.map_values(|c: char| if 'A' <= c && c <= 'Z' { ((c as u32) + 32) as char } else { c })
}

/// A number without its sign: digits with an optional point and fraction
/// (at least one digit in all), then an optional exponent. `Some` tells
/// whether a digit other than zero occurs before the exponent.
pub open spec fn mantissa_nonzero(b: Seq<char>) -> Option<bool> {
    let i1 = digits_end(b, 0);
    let f0 = if i1 < b.len() && b[i1] == '.' {
        i1 + 1
    } else {
        i1
    };
    let i2 = if f0 > i1 {
        digits_end(b, f0)
    } else {
        i1
    };
    let nz = has_nonzero(b.take(i1)) || has_nonzero(b.subrange(f0, i2));
    if i1 + (i2 - f0) == 0 {
        None
    } else if i2 == b.len() {
        Some(nz)
    } else if b[i2] == 'e' || b[i2] == 'E' {
        let j = i2 + 1;
        let j2 = if j < b.len() && (b[j] == '+' || b[j] == '-') {
            j + 1
        } else {
            j
        };
        let k = digits_end(b, j2);
        if k > j2 && k == b.len() {
            Some(nz)
        } else {
            None
        }
    } else {
        None
    }
}

/// The sign of the number `s` spells, `None` when it spells none: an
/// optional sign, then `inf`, `infinity` or `nan` in any case, or digits as
/// `mantissa_nonzero` reads them. (A value so small that it rounds to zero is
/// taken by its digits.)
pub open spec fn sign_of(s: Seq<char>) -> Option<Sign> {
    let neg = s.len() > 0 && s[0] == '-';
    let body = if s.len() > 0 && (s[0] == '-' || s[0] == '+') {
        s.skip(1)
    } else {
        s
    };
    if folded(body) == "inf"@ || folded(body) == "infinity"@ {
        Some(
            if neg {
                Sign::Negative
            } else {
                Sign::Positive
            },
        )
    } else if folded(body) == "nan"@ {
        Some(Sign::NotANumber)
    } else {
        match mantissa_nonzero(body) {
            None => None,
            Some(nz) => Some(
                if !nz {
                    Sign::Zero
                } else if neg {
                    Sign::Negative
                } else {
                    Sign::Positive
                },
            ),
        }
    }
}

fn digits_to(s: &Vec<char>, from: usize) -> (r: usize)
    requires
        from <= s@.len(),
    ensures
        r == digits_end(s@, from as int),
        from <= r <= s@.len(),
{
    let mut i = from;
    while i < s.len() && '0' <= s[i] && s[i] <= '9'
        invariant
            from <= i <= s@.len(),
            digits_end(s@, from as int) == digits_end(s@, i as int),
        decreases s@.len() - i,
    {
        i += 1;
    }
    i
}

fn any_nonzero(s: &Vec<char>, lo: usize, hi: usize) -> (r: bool)
    requires
        lo <= hi <= s@.len(),
    ensures
        r == has_nonzero(s@.subrange(lo as int, hi as int)),
{
    let mut i = lo;
    while i < hi
        invariant
            lo <= i <= hi <= s@.len(),
            forall|k: int| lo <= k < i ==> s@[k] == '0',
        decreases hi - i,
    {
        if s[i] != '0' {
            assert(s@.subrange(lo as int, hi as int)[i - lo] != '0');
            return true;
        }
        i += 1;
    }
    assert forall|k: int| 0 <= k < hi - lo implies s@.subrange(lo as int, hi as int)[k] == '0' by {
        assert(s@[lo + k] == '0');
    }
    false
}

fn fold_ascii(s: &Vec<char>) -> (r: Vec<char>)
    ensures
        r@ == folded(s@),
{
    let mut out: Vec<char> = Vec::new();
    let mut i: usize = 0;
    while i < s.len()
        invariant
            i <= s@.len(),
            out@ == folded(s@).take(i as int),
        decreases s@.len() - i,
    {
        let c = s[i];
        let l = if 'A' <= c && c <= 'Z' {
            ((c as u32) + 32) as u8 as char
        } else {
            c
        };
        assert(l == folded(s@)[i as int]) by {
            if 'A' <= c && c <= 'Z' {
                assert(((c as u32) + 32) as u8 as char == ((c as u32) + 32) as char);
            }
        }
        out.push(l);
        assert(out@ =~= folded(s@).take(i + 1));
        i += 1;
    }
    assert(folded(s@).take(s@.len() as int) =~= folded(s@));
    out
}

fn mantissa(b: &Vec<char>) -> (r: Option<bool>)
    ensures
        r == mantissa_nonzero(b@),
{
    let i1 = digits_to(b, 0);
    let f0 = if i1 < b.len() && b[i1] == '.' {
        i1 + 1
    } else {
        i1
    };
    let i2 = if f0 > i1 {
        digits_to(b, f0)
    } else {
        i1
    };
    let nz = any_nonzero(b, 0, i1) || any_nonzero(b, f0, i2);
    assert(b@.subrange(0, i1 as int) == b@.take(i1 as int));
    if i1 + (i2 - f0) == 0 {
        None
    } else if i2 == b.len() {
        Some(nz)
    } else if b[i2] == 'e' || b[i2] == 'E' {
        let j = i2 + 1;
        let j2 = if j < b.len() && (b[j] == '+' || b[j] == '-') {
            j + 1
        } else {
            j
        };
        let k = digits_to(b, j2);
        if k > j2 && k == b.len() {
            Some(nz)
        } else {
            None
        }
    } else {
        None
    }
}

/// The sign of the number a token spells, as `f64`'s `FromStr` would read
/// it; `None` when it would refuse the token.
pub fn number_sign(s: &Vec<char>) -> (r: Option<Sign>)
    ensures
        r == sign_of(s@),
{
    let neg = s.len() > 0 && s[0] == '-';
    let body = if s.len() > 0 && (s[0] == '-' || s[0] == '+') {
        slice(s, 1, s.len())
    } else {
        slice(s, 0, s.len())
    };
    assert(s@.subrange(0, s@.len() as int) == s@);
    let f = fold_ascii(&body);
    if is(&f, "inf") || is(&f, "infinity") {
        return Some(
            if neg {
                Sign::Negative
            } else {
                Sign::Positive
            },
        );
    }
    if is(&f, "nan") {
        return Some(Sign::NotANumber);
    }
    match mantissa(&body) {
        None => None,
        Some(nz) => Some(
            if !nz {
                Sign::Zero
            } else if neg {
                Sign::Negative
            } else {
                Sign::Positive
            },
        ),
    }
}

// ---------------------------------------------------------------------------
// `ease=`
// ---------------------------------------------------------------------------

/// The three comma-separated arguments of `spring(...)`, trimmed, when there
/// are exactly three.
pub open spec fn spring_args(inner: Seq<char>) -> Option<(Seq<char>, Seq<char>, Seq<char>)> {
    match first_at(inner, ","@, 0) {
        None => None,
        Some(a) => match first_at(inner, ","@, a + 1) {
            None => None,
            Some(b) => if first_at(inner, ","@, b + 1) is Some {
                None
            } else {
                Some((trim(inner.take(a)), trim(inner.subrange(a + 1, b)), trim(inner.skip(b + 1))))
            },
        },
    }
}

pub open spec fn is_spring(v: Seq<char>) -> bool {
    v.len() >= 8 && has_prefix(v, "spring("@) && v.last() == ')'
}

/// What `ease=` makes of its value.
pub open spec fn ease_of(v: Seq<char>) -> Result<EaseView, Seq<char>> {
    if is_spring(v) {
        match spring_args(v.subrange(7, v.len() - 1)) {
            None => Err(
                "`spring(...)` needs 3 arguments: mass, stiffness, damping, got `"@ + v + "`"@,
            ),
            Some((m, k, c)) => match (sign_of(m), sign_of(k), sign_of(c)) {
                (None, _, _) => Err("bad spring mass: `"@ + m + "`"@),
                (Some(_), None, _) => Err("bad spring stiffness: `"@ + k + "`"@),
                (Some(_), Some(_), None) => Err("bad spring damping: `"@ + c + "`"@),
                (Some(sm), Some(sk), Some(sc)) => if sm == Sign::Zero || sm == Sign::Negative
                    || sk == Sign::Zero || sk == Sign::Negative || sc == Sign::Negative {
                    Err(
                        "spring mass and stiffness must be positive, damping must not be negative: `"@
                            + v + "`"@,
                    )
                } else {
                    Ok(EaseView::Spring(m, k, c))
                },
            },
        }
    } else if css_of(v) is Some {
        Ok(EaseView::Named(v))
    } else {
        Err("unknown ease `"@ + v + "`"@)
    }
}

fn comma_args(inner: &Vec<char>) -> (r: Option<(Vec<char>, Vec<char>, Vec<char>)>)
    ensures
        match r {
            Some((m, k, c)) => spring_args(inner@) == Some((m@, k@, c@)),
            None => spring_args(inner@) is None,
        },
{
    let il = inner.len();
    let comma = chars_of(",");
    proof {
        reveal_strlit(",");
    }
    let a = match find_from(inner, &comma, 0) {
        Some(a) => a,
        None => return None,
    };
    proof {
        lemma_first_at_some(inner@, comma@, 0);
    }
    let b = match find_from(inner, &comma, a + 1) {
        Some(b) => b,
        None => return None,
    };
    proof {
        lemma_first_at_some(inner@, comma@, a + 1);
    }
    if find_from(inner, &comma, b + 1).is_some() {
        return None;
    }
    assert(inner@.subrange(0, a as int) == inner@.take(a as int));
    assert(inner@.subrange(b + 1, inner@.len() as int) == inner@.skip(b + 1));
    Some(
        (
            trimmed(&slice(inner, 0, a)),
            trimmed(&slice(inner, a + 1, b)),
            trimmed(&slice(inner, b + 1, inner.len())),
        ),
    )
}

fn error_quoting(before: &str, what: &Vec<char>, after: &str) -> (r: String)
    ensures
        r@ == before@ + what@ + after@,
{
    let mut msg: Vec<char> = Vec::new();
    push_str(&mut msg, before);
    push_all(&mut msg, what);
    push_str(&mut msg, after);
    string_of(msg.as_slice())
}

/// Reads an `ease=` value: a named curve, or `spring(mass, stiffness,
/// damping)` with a positive mass and stiffness and a damping that is not
/// negative.
pub fn parse_ease(v: &str) -> (r: Result<Ease, String>)
    ensures
        match r {
            Ok(e) => ease_of(v@) == Ok::<EaseView, Seq<char>>(e@),
            Err(e) => ease_of(v@) == Err::<EaseView, Seq<char>>(e@),
        },
{
    let cs = chars_of(v);
    proof {
        reveal_strlit("spring(");
    }
    if cs.len() >= 8 && starts_with(&cs, &chars_of("spring(")) && cs[cs.len() - 1] == ')' {
        let inner = slice(&cs, 7, cs.len() - 1);
        let (m, k, c) = match comma_args(&inner) {
            Some(args) => args,
            None => {
                return Err(
                    error_quoting(
                        "`spring(...)` needs 3 arguments: mass, stiffness, damping, got `",
                        &cs,
                        "`",
                    ),
                )
            },
        };
        let sm = match number_sign(&m) {
            Some(s) => s,
            None => return Err(error_quoting("bad spring mass: `", &m, "`")),
        };
        let sk = match number_sign(&k) {
            Some(s) => s,
            None => return Err(error_quoting("bad spring stiffness: `", &k, "`")),
        };
        let sc = match number_sign(&c) {
            Some(s) => s,
            None => return Err(error_quoting("bad spring damping: `", &c, "`")),
        };
        let bad_m = match sm {
            Sign::Zero | Sign::Negative => true,
            _ => false,
        };
        let bad_k = match sk {
            Sign::Zero | Sign::Negative => true,
            _ => false,
        };
        let bad_c = match sc {
            Sign::Negative => true,
            _ => false,
        };
        if bad_m || bad_k || bad_c {
            return Err(
                error_quoting(
                    "spring mass and stiffness must be positive, damping must not be negative: `",
                    &cs,
                    "`",
                ),
            );
        }
        return Ok(
            Ease::Spring {
                mass: string_of(m.as_slice()),
                stiffness: string_of(k.as_slice()),
                damping: string_of(c.as_slice()),
            },
        );
    }
    if css_ease(v).is_some() {
        return Ok(Ease::Named(string_of(cs.as_slice())));
    }
    Err(error_quoting("unknown ease `", &cs, "`"))
}

// ---------------------------------------------------------------------------
// Effects and dialects
// ---------------------------------------------------------------------------

/// The slide grammar's effects.
pub const EFFECTS: [&'static str; 14] = [
    "fade-in",
    "fade-out",
    "slide-in",
    "slide-out",
    "wipe-in",
    "wipe-out",
    "zoom-in",
    "zoom-out",
    "blur-in",
    "grow-x",
    "grow-y",
    "pop",
    "draw",
    "iris-out",
];

/// The effects that travel, and so need `dir=`.
pub const DIRECTIONAL: [&'static str; 4] = ["slide-in", "slide-out", "wipe-in", "wipe-out"];

pub open spec fn effect_names() -> Seq<Seq<char>> {
    seq![
        "fade-in"@,
        "fade-out"@,
        "slide-in"@,
        "slide-out"@,
        "wipe-in"@,
        "wipe-out"@,
        "zoom-in"@,
        "zoom-out"@,
        "blur-in"@,
        "grow-x"@,
        "grow-y"@,
        "pop"@,
        "draw"@,
        "iris-out"@
    ]
}

pub open spec fn directional_names() -> Seq<Seq<char>> {
    seq!["slide-in"@, "slide-out"@, "wipe-in"@, "wipe-out"@]
}

/// The views of a list of names.
pub open spec fn names(s: &[&str]) -> Seq<Seq<char>> {
    s@.map_values(|x: &str| x@)
}

/// The parts of the effect grammar a consumer may swap out: which effects
/// exist, which of them travel, and how a duration reads. The line shape,
/// `key=value` attributes, splits and eases stay the grammar's own.
pub struct Dialect<'a, T: Timing> {
    pub effects: &'a [&'a str],
    pub directional: &'a [&'a str],
    pub timing: T,
}

impl Default for Dialect<'static, Millis> {
    /// The slide grammar: its own effect set and `ms`-only durations.
    fn default() -> (d: Self)
        ensures
            names(d.effects) == effect_names(),
            names(d.directional) == directional_names(),
    {
        let d = Dialect { effects: &EFFECTS, directional: &DIRECTIONAL, timing: Millis };
        assert(names(d.effects) =~= effect_names());
        assert(names(d.directional) =~= directional_names());
        d
    }
}

/// A parsed effect clause: everything after the `:` on a track line.
#[derive(Debug, Clone, PartialEq, Eq)]
pub struct ParsedEffect {
    pub effect: String,
    pub dir: Option<Direction>,
    pub dur_ms: u32,
    pub delay_ms: u32,
    pub stagger_ms: u32,
    pub ease: Ease,
    pub split: Option<Split>,
}

pub struct EffectView {
    pub effect: Seq<char>,
    pub dir: Option<Direction>,
    pub dur_ms: u32,
    pub delay_ms: u32,
    pub stagger_ms: u32,
    pub ease: EaseView,
    pub split: Option<Split>,
}

impl View for ParsedEffect {
    type V = EffectView;

    open spec fn view(&self) -> EffectView {
        EffectView {
            effect: self.effect@,
            dir: self.dir,
            dur_ms: self.dur_ms,
            delay_ms: self.delay_ms,
            stagger_ms: self.stagger_ms,
            ease: self.ease@,
            split: self.split,
        }
    }
}

/// The attributes read so far.
pub struct Attrs {
    pub dur: Option<u32>,
    pub delay: u32,
    pub stagger: u32,
    pub ease: EaseView,
    pub dir: Option<Direction>,
}

/// The attribute tokens from `i` on, read into `st`.
pub open spec fn attrs_from<T: Timing>(t: T, toks: Seq<Seq<char>>, i: int, st: Attrs) -> Result<Attrs, Seq<char>>
    decreases toks.len() - i,
{
    if i < 0 || i >= toks.len() {
        Ok(st)
    } else {
        let tok = toks[i];
        match first_at(tok, "="@, 0) {
            Some(p) => {
                let k = tok.take(p);
                let v = tok.skip(p + 1);
                if k == "dur"@ {
                    match t.duration_of(v) {
                        Ok(d) => attrs_from(t, toks, i + 1, Attrs { dur: Some(d), ..st }),
                        Err(e) => Err(e),
                    }
                } else if k == "delay"@ {
                    match t.duration_of(v) {
                        Ok(d) => attrs_from(t, toks, i + 1, Attrs { delay: d, ..st }),
                        Err(e) => Err(e),
                    }
                } else if k == "stagger"@ {
                    match t.duration_of(v) {
                        Ok(d) => attrs_from(t, toks, i + 1, Attrs { stagger: d, ..st }),
                        Err(e) => Err(e),
                    }
                } else if k == "ease"@ {
                    match ease_of(v) {
                        Ok(e) => attrs_from(t, toks, i + 1, Attrs { ease: e, ..st }),
                        Err(e) => Err(e),
                    }
                } else if k == "dir"@ {
                    match direction_of(v) {
                        Ok(d) => attrs_from(t, toks, i + 1, Attrs { dir: Some(d), ..st }),
                        Err(e) => Err(e),
                    }
                } else {
                    Err("unknown attribute `"@ + k + "=`"@)
                }
            },
            None => if st.dur is None && t.is_bare(tok) {
                match t.duration_of(tok) {
                    Ok(d) => attrs_from(t, toks, i + 1, Attrs { dur: Some(d), ..st }),
                    Err(e) => Err(e),
                }
            } else {
                Err("unexpected token `"@ + tok + "`"@)
            },
        }
    }
}

/// An effect clause read in a dialect with these effects, travelling
/// effects and timing.
pub open spec fn effect_of<T: Timing>(
    effects: Seq<Seq<char>>,
    directional: Seq<Seq<char>>,
    t: T,
    s: Seq<char>,
) -> Result<EffectView, Seq<char>> {
    let toks = words_of(s);
    if toks.len() == 0 {
        Err("empty effect"@)
    } else {
        let split = split_of(toks[0]);
        if split is Some && toks.len() < 2 {
            Err("missing effect name after the split keyword"@)
        } else {
            let at = if split is Some {
                1int
            } else {
                0int
            };
            let first = toks[at];
            if !effects.contains(first) {
                Err("unknown effect `"@ + first + "`; expected one of "@ + join(effects, ", "@))
            } else {
                effect_after(directional, first, split, attrs_from(t, toks, at + 1, start_attrs()))
            }
        }
    }
}

/// The attributes before any is read.
pub open spec fn start_attrs() -> Attrs {
    Attrs { dur: None, delay: 0, stagger: 0, ease: EaseView::Named("linear"@), dir: None }
}

/// The effect clause once its attributes are read: a duration is owed, and
/// `dir=` goes with the travelling effects and only with them.
pub open spec fn effect_after(
    directional: Seq<Seq<char>>,
    first: Seq<char>,
    split: Option<Split>,
    attrs: Result<Attrs, Seq<char>>,
) -> Result<EffectView, Seq<char>> {
    match attrs {
        Err(e) => Err(e),
        Ok(a) => match a.dur {
            None => Err("missing duration, e.g. `400ms`"@),
            Some(dur) => {
                let travels = directional.contains(first);
                if travels && a.dir is None {
                    Err("`"@ + first + "` needs a direction: add `dir=left|right|up|down`"@)
                } else if a.dir is Some && !travels {
                    Err(
                        "`dir=` only applies to "@ + join(directional, "/"@) + ", not `"@ + first
                            + "`"@,
                    )
                } else {
                    Ok(
                        EffectView {
                            effect: first,
                            dir: a.dir,
                            dur_ms: dur,
                            delay_ms: a.delay,
                            stagger_ms: a.stagger,
                            ease: a.ease,
                            split,
                        },
                    )
                }
            },
        },
    }
}

/// A clause that reads names one of the dialect's effects and carries a
/// direction exactly when that effect travels; a known effect whose
/// attributes read but give no duration is refused for the missing
/// duration.
pub proof fn lemma_effect_in_dialect<T: Timing>(
    effects: Seq<Seq<char>>,
    directional: Seq<Seq<char>>,
    t: T,
    s: Seq<char>,
)
    ensures
        effect_of(effects, directional, t, s) matches Ok(p) ==> effects.contains(p.effect) && (
        p.dir is Some <==> directional.contains(p.effect)),
        ({
            let toks = words_of(s);
            let at: int = if toks.len() > 0 && split_of(toks[0]) is Some {
                1
            } else {
                0
            };
            &&& at < toks.len()
            &&& effects.contains(toks[at])
            &&& attrs_from(t, toks, at + 1, start_attrs()) matches Ok(a)
            &&& a.dur is None
        }) ==> effect_of(effects, directional, t, s) == Err::<EffectView, Seq<char>>(
            "missing duration, e.g. `400ms`"@,
        ),
{
}

fn listed(list: &[&str], w: &Vec<char>) -> (r: bool)
    ensures
        r == names(list).contains(w@),
{
    let mut i: usize = 0;
    while i < list.len()
        invariant
            i <= list@.len(),
            forall|k: int| 0 <= k < i ==> names(list)[k] != w@,
        decreases list@.len() - i,
    {
        if is(w, list[i]) {
            assert(names(list)[i as int] == w@);
            return true;
        }
        i += 1;
    }
    false
}

/// Parses an effect clause in a consumer's dialect. The `dir=` rules hold in
/// every dialect: a travelling effect needs a direction, a stationary one
/// refuses it.
pub fn parse_effect_in<T: Timing>(dialect: &Dialect<T>, s: &str) -> (r: Result<ParsedEffect, String>)
    ensures
        match r {
            Ok(p) => effect_of(names(dialect.effects), names(dialect.directional), dialect.timing, s@)
                == Ok::<EffectView, Seq<char>>(p@),
            Err(e) => effect_of(names(dialect.effects), names(dialect.directional), dialect.timing, s@)
                == Err::<EffectView, Seq<char>>(e@),
        },
{
    let ghost effects = names(dialect.effects);
    let ghost directional = names(dialect.directional);
    let toks = words(&chars_of(s));
    let ghost tv = toks@.map_values(|w: Vec<char>| w@);
    if toks.len() == 0 {
        return Err("empty effect".to_owned());
    }
    assert(tv[0] == toks@[0]@);
    let split = parse_split(string_of(toks[0].as_slice()).as_str());
    if split.is_some() && toks.len() < 2 {
        return Err("missing effect name after the split keyword".to_owned());
    }
    let at: usize = if split.is_some() {
        1
    } else {
        0
    };
    let first = &toks[at];
    assert(tv[at as int] == first@);
    if !listed(dialect.effects, first) {
        let mut msg: Vec<char> = Vec::new();
        push_str(&mut msg, "unknown effect `");
        push_all(&mut msg, first);
        push_str(&mut msg, "`; expected one of ");
        push_joined(&mut msg, dialect.effects, ", ");
        return Err(string_of(msg.as_slice()));
    }
    let mut dur: Option<u32> = None;
    let mut delay: u32 = 0;
    let mut stagger: u32 = 0;
    let mut ease = Ease::Named("linear".to_owned());
    let mut dir: Option<Direction> = None;
    let ghost start = start_attrs();
    assert(effect_of(effects, directional, dialect.timing, s@) == effect_after(
        directional,
        tv[at as int],
        split,
        attrs_from(dialect.timing, tv, at + 1, start),
    ));
    let mut i: usize = at + 1;
    let eq = chars_of("=");
    proof {
        reveal_strlit("=");
    }
    while i < toks.len()
        invariant
            at + 1 <= i <= toks@.len(),
            tv == toks@.map_values(|w: Vec<char>| w@),
            eq@ == "="@,
            eq@.len() == 1,
            effects == names(dialect.effects),
            directional == names(dialect.directional),
            effect_of(effects, directional, dialect.timing, s@) == effect_after(
                directional,
                tv[at as int],
                split,
                attrs_from(dialect.timing, tv, at + 1, start),
            ),
            attrs_from(dialect.timing, tv, at + 1, start) == attrs_from(
                dialect.timing,
                tv,
                i as int,
                Attrs { dur, delay, stagger, ease: ease@, dir },
            ),
        decreases toks@.len() - i,
    {
        let tok = &toks[i];
        let tl = tok.len();
        assert(tv[i as int] == tok@);
        let ghost st = Attrs { dur, delay, stagger, ease: ease@, dir };
        match find_from(tok, &eq, 0) {
            Some(p) => {
                proof {
                    lemma_first_at_some(tok@, eq@, 0);
                }
                let k = slice(tok, 0, p);
                let v = string_of(slice(tok, p + 1, tok.len()).as_slice());
                assert(tok@.subrange(0, p as int) == tok@.take(p as int));
                assert(tok@.subrange(p + 1, tok@.len() as int) == tok@.skip(p + 1));
                if is(&k, "dur") {
                    match dialect.timing.duration(v.as_str()) {
                        Ok(d) => dur = Some(d),
                        Err(e) => return Err(e),
                    }
                } else if is(&k, "delay") {
                    match dialect.timing.duration(v.as_str()) {
                        Ok(d) => delay = d,
                        Err(e) => return Err(e),
                    }
                } else if is(&k, "stagger") {
                    match dialect.timing.duration(v.as_str()) {
                        Ok(d) => stagger = d,
                        Err(e) => return Err(e),
                    }
                } else if is(&k, "ease") {
                    match parse_ease(v.as_str()) {
                        Ok(e) => ease = e,
                        Err(e) => return Err(e),
                    }
                } else if is(&k, "dir") {
                    match parse_dir(v.as_str()) {
                        Ok(d) => dir = Some(d),
                        Err(e) => return Err(e),
                    }
                } else {
                    return Err(error_quoting("unknown attribute `", &k, "=`"));
                }
            },
            None => {
                let ts = string_of(tok.as_slice());
                if dur.is_none() && dialect.timing.bare_duration(ts.as_str()) {
                    match dialect.timing.duration(ts.as_str()) {
                        Ok(d) => dur = Some(d),
                        Err(e) => return Err(e),
                    }
                } else {
                    return Err(error_quoting("unexpected token `", tok, "`"));
                }
            },
        }
        i += 1;
    }
    let dur = match dur {
        Some(d) => d,
        None => return Err("missing duration, e.g. `400ms`".to_owned()),
    };
    let travels = listed(dialect.directional, first);
    if travels && dir.is_none() {
        return Err(error_quoting("`", first, "` needs a direction: add `dir=left|right|up|down`"));
    }
    if dir.is_some() && !travels {
        let mut msg: Vec<char> = Vec::new();
        push_str(&mut msg, "`dir=` only applies to ");
        push_joined(&mut msg, dialect.directional, "/");
        push_str(&mut msg, ", not `");
        push_all(&mut msg, first);
        push_str(&mut msg, "`");
        return Err(string_of(msg.as_slice()));
    }
    Ok(
        ParsedEffect {
            effect: string_of(first.as_slice()),
            dir,
            dur_ms: dur,
            delay_ms: delay,
            stagger_ms: stagger,
            ease,
            split,
        },
    )
}

// ---------------------------------------------------------------------------
// Track lines
// ---------------------------------------------------------------------------

/// A track line's three fields: `[trigger]`, target, effect, each trimmed.
pub open spec fn fields_of(l: Seq<char>) -> Result<(Seq<char>, Seq<char>, Seq<char>), Seq<char>> {
    if !(l.len() > 0 && l[0] == '[') {
        Err("expected a `[trigger]` at the start of the line"@)
    } else {
        let a = l.skip(1);
        match first_at(a, "]"@, 0) {
            None => Err("unterminated `[trigger]`"@),
            Some(k) => {
                let rest = trim(a.skip(k + 1));
                match first_at(rest, ":"@, 0) {
                    None => Err("expected `target : effect`"@),
                    Some(c) => {
                        let t = trim(rest.take(c));
                        let e = trim(rest.skip(c + 1));
                        if t.len() == 0 {
                            Err("missing target before `:`"@)
                        } else if e.len() == 0 {
                            Err("missing effect after `:`"@)
                        } else {
                            Ok((trim(a.take(k)), t, e))
                        }
                    },
                }
            },
        }
    }
}

/// A track line laid out as `[x]y`, with no `]` in `x`, and `y` trimmed
/// reading `u:v`, with no `:` in `u`, and text on both sides of the `:`.
pub open spec fn track_line_shape(
    l: Seq<char>,
    x: Seq<char>,
    y: Seq<char>,
    u: Seq<char>,
    v: Seq<char>,
) -> bool {
    &&& l == seq!['['] + x + seq![']'] + y
    &&& !x.contains(']')
    &&& trim(y) == u + seq![':'] + v
    &&& !u.contains(':')
    &&& trim(u).len() > 0
    &&& trim(v).len() > 0
}

/// A line splits into its fields exactly when it is laid out as
/// `[trigger] target : effect`: a `[`, the trigger up to the first `]`,
/// then, once trimmed, a target up to the first `:` and an effect, neither
/// of them blank. The fields are the three parts, each trimmed; the
/// trigger is not read.
pub proof fn lemma_split_line_shape(l: Seq<char>)
    ensures
        fields_of(l) matches Ok((g, t, e)) ==> exists|x: Seq<char>, y: Seq<char>, u: Seq<char>, v: Seq<char>|
            #[trigger] track_line_shape(l, x, y, u, v) && g == trim(x) && t == trim(u) && e == trim(v),
        forall|x: Seq<char>, y: Seq<char>, u: Seq<char>, v: Seq<char>|
            #[trigger] track_line_shape(l, x, y, u, v) ==> fields_of(l) == Ok::<
                (Seq<char>, Seq<char>, Seq<char>),
                Seq<char>,
            >((trim(x), trim(u), trim(v))),
{
    reveal_strlit("]");
    reveal_strlit(":");
    assert("]"@ =~= seq![']']);
    assert(":"@ =~= seq![':']);
    if fields_of(l) is Ok {
        let a = l.skip(1);
        lemma_first_at_some(a, "]"@, 0);
        let k = first_at(a, "]"@, 0)->0;
        let rest = trim(a.skip(k + 1));
        lemma_first_at_some(rest, ":"@, 0);
        let c = first_at(rest, ":"@, 0)->0;
        let x = a.take(k);
        let y = a.skip(k + 1);
        let u = rest.take(c);
        let v = rest.skip(c + 1);
        assert(a.subrange(k, k + 1)[0] == a[k]);
        assert(rest.subrange(c, c + 1)[0] == rest[c]);
        assert(l =~= seq!['['] + x + seq![']'] + y);
        assert(rest =~= u + seq![':'] + v);
        assert(!x.contains(']')) by {
            if x.contains(']') {
                let i = choose|i: int| 0 <= i < x.len() && x[i] == ']';
                assert(a.subrange(i, i + 1) =~= seq![']']);
                assert(occurs_at(a, "]"@, i));
            }
        }
        assert(!u.contains(':')) by {
            if u.contains(':') {
                let i = choose|i: int| 0 <= i < u.len() && u[i] == ':';
                assert(rest.subrange(i, i + 1) =~= seq![':']);
                assert(occurs_at(rest, ":"@, i));
            }
        }
        assert(track_line_shape(l, x, y, u, v));
    }
    assert forall|x: Seq<char>, y: Seq<char>, u: Seq<char>, v: Seq<char>|
        #[trigger] track_line_shape(l, x, y, u, v) implies fields_of(l) == Ok::<
            (Seq<char>, Seq<char>, Seq<char>),
            Seq<char>,
        >((trim(x), trim(u), trim(v))) by {
        let a = l.skip(1);
        assert(a =~= x + seq![']'] + y);
        assert forall|i: int| 0 <= i < x.len() implies a[i] != ']' by {
            assert(x[i] == a[i]);
            if x[i] == ']' {
                assert(x.contains(']'));
            }
        }
        lemma_first_char(a, ']', 0, x.len() as int);
        assert(a.take(x.len() as int) =~= x);
        assert(a.skip(x.len() as int + 1) =~= y);
        let rest = trim(y);
        assert forall|i: int| 0 <= i < u.len() implies rest[i] != ':' by {
            assert(u[i] == rest[i]);
            if u[i] == ':' {
                assert(u.contains(':'));
            }
        }
        lemma_first_char(rest, ':', 0, u.len() as int);
        assert(rest.take(u.len() as int) =~= u);
        assert(rest.skip(u.len() as int + 1) =~= v);
    }
}

/// Splits a track line into its three fields without interpreting the
/// trigger, which is the half of the grammar a consumer with its own time
/// model replaces.
pub fn split_line(line: &str) -> (r: Result<(String, String, String), String>)
    ensures
        match r {
            Ok((g, t, e)) => fields_of(line@) == Ok::<(Seq<char>, Seq<char>, Seq<char>), Seq<char>>(
                (g@, t@, e@),
            ),
            Err(e) => fields_of(line@) == Err::<(Seq<char>, Seq<char>, Seq<char>), Seq<char>>(e@),
        },
{
    let l = chars_of(line);
    let ll = l.len();
    if !(l.len() > 0 && l[0] == '[') {
        return Err("expected a `[trigger]` at the start of the line".to_owned());
    }
    let a = slice(&l, 1, l.len());
    assert(a@ == line@.skip(1));
    let close = chars_of("]");
    let colon = chars_of(":");
    proof {
        reveal_strlit("]");
        reveal_strlit(":");
    }
    let k = match find_from(&a, &close, 0) {
        Some(k) => k,
        None => return Err("unterminated `[trigger]`".to_owned()),
    };
    proof {
        lemma_first_at_some(a@, close@, 0);
    }
    let rest = trimmed(&slice(&a, k + 1, a.len()));
    assert(a@.subrange(k + 1, a@.len() as int) == a@.skip(k + 1));
    let rl = rest.len();
    let c = match find_from(&rest, &colon, 0) {
        Some(c) => c,
        None => return Err("expected `target : effect`".to_owned()),
    };
    proof {
        lemma_first_at_some(rest@, colon@, 0);
    }
    let t = trimmed(&slice(&rest, 0, c));
    let e = trimmed(&slice(&rest, c + 1, rest.len()));
    assert(rest@.subrange(0, c as int) == rest@.take(c as int));
    assert(rest@.subrange(c + 1, rest@.len() as int) == rest@.skip(c + 1));
    if t.len() == 0 {
        return Err("missing target before `:`".to_owned());
    }
    if e.len() == 0 {
        return Err("missing effect after `:`".to_owned());
    }
    let g = trimmed(&slice(&a, 0, k));
    assert(a@.subrange(0, k as int) == a@.take(k as int));
    Ok((string_of(g.as_slice()), string_of(t.as_slice()), string_of(e.as_slice())))
}

/// A signed offset such as `+200ms` or `-50ms`. A minus applied to the most
/// negative `i64` wraps, as the multiplication does in a release build.
pub open spec fn signed_ms_of(tok: Seq<char>) -> Result<i64, Seq<char>> {
    if !(tok.len() > 0 && (tok[0] == '+' || tok[0] == '-')) {
        Err("expected a signed offset like `+200ms`, got `"@ + tok + "`"@)
    } else {
        let digits = tok.skip(1);
        if !has_suffix(digits, "ms"@) {
            Err("expected an offset in ms, got `"@ + tok + "`"@)
        } else {
            match signed_value(digits.take(digits.len() - 2)) {
                None => Err("not a number of milliseconds: `"@ + tok + "`"@),
                Some(v) => Ok(
                    if tok[0] == '-' {
                        if v == i64::MIN {
                            i64::MIN
                        } else {
                            (-v) as i64
                        }
                    } else {
                        v as i64
                    },
                ),
            }
        }
    }
}

fn parse_signed_ms(tok: &Vec<char>) -> (r: Result<i64, String>)
    ensures
        match r {
            Ok(v) => signed_ms_of(tok@) == Ok::<i64, Seq<char>>(v),
            Err(e) => signed_ms_of(tok@) == Err::<i64, Seq<char>>(e@),
        },
{
    if !(tok.len() > 0 && (tok[0] == '+' || tok[0] == '-')) {
        return Err(error_quoting("expected a signed offset like `+200ms`, got `", tok, "`"));
    }
    let digits = slice(tok, 1, tok.len());
    assert(digits@ == tok@.skip(1));
    proof {
        reveal_strlit("ms");
    }
    if !ends_with(&digits, &chars_of("ms")) {
        return Err(error_quoting("expected an offset in ms, got `", tok, "`"));
    }
    let v = match parse_i64(&slice(&digits, 0, digits.len() - 2)) {
        Some(v) => v,
        None => return Err(error_quoting("not a number of milliseconds: `", tok, "`")),
    };
    assert(digits@.subrange(0, digits@.len() - 2) == digits@.take(digits@.len() - 2));
    if tok[0] == '-' {
        if v == i64::MIN {
            Ok(i64::MIN)
        } else {
            Ok(-v)
        }
    } else {
        Ok(v)
    }
}

/// What a `[trigger]` says.
pub open spec fn trigger_of(s: Seq<char>) -> Result<TriggerView, Seq<char>> {
    if s == "enter"@ {
        Ok(TriggerView::Enter)
    } else if s == "exit"@ {
        Ok(TriggerView::Exit)
    } else if has_prefix(s, "click"@) {
        match unsigned_value(trim(s.skip(5)), u32::MAX as int) {
            None => Err("`click` needs a step number, e.g. `[click 1]`, got `["@ + s + "]`"@),
            Some(n) => if n == 0 {
                Err("click steps start at 1, not 0"@)
            } else {
                Ok(TriggerView::Click(n as u32))
            },
        }
    } else if has_prefix(s, "after"@) {
        let parts = words_of(s.skip(5));
        if parts.len() == 0 {
            Err("`after` needs a target, e.g. `[after #id]`"@)
        } else if !has_prefix(parts[0], "#"@) {
            Err("`after` target must be `#id`, got `"@ + parts[0] + "`"@)
        } else {
            let id = parts[0].skip(1);
            if id.len() == 0 {
                Err("empty `#id` after `after`"@)
            } else {
                let offset = if parts.len() >= 2 {
                    signed_ms_of(parts[1])
                } else {
                    Ok(0i64)
                };
                match offset {
                    Err(e) => Err(e),
                    Ok(o) => if parts.len() >= 3 {
                        Err("unexpected extra text in `[after #"@ + id + " ...]`"@)
                    } else {
                        Ok(TriggerView::After(id, o))
                    },
                }
            }
        }
    } else {
        Err("unknown trigger `["@ + s + "]`; expected enter, click N, exit or after #id"@)
    }
}

pub fn parse_trigger(s: &str) -> (r: Result<Trigger, String>)
    ensures
        match r {
            Ok(t) => trigger_of(s@) == Ok::<TriggerView, Seq<char>>(t@),
            Err(e) => trigger_of(s@) == Err::<TriggerView, Seq<char>>(e@),
        },
{
    let cs = chars_of(s);
    proof {
        reveal_strlit("click");
        reveal_strlit("after");
        reveal_strlit("#");
    }
    if is(&cs, "enter") {
        return Ok(Trigger::Enter);
    }
    if is(&cs, "exit") {
        return Ok(Trigger::Exit);
    }
    if starts_with(&cs, &chars_of("click")) {
        let n = trimmed(&slice(&cs, 5, cs.len()));
        assert(cs@.subrange(5, cs@.len() as int) == cs@.skip(5));
        return match parse_u32(&n) {
            None => Err(error_quoting("`click` needs a step number, e.g. `[click 1]`, got `[", &cs, "]`")),
            Some(v) => if v == 0 {
                Err("click steps start at 1, not 0".to_owned())
            } else {
                Ok(Trigger::Click(v))
            },
        };
    }
    if starts_with(&cs, &chars_of("after")) {
        let tail = slice(&cs, 5, cs.len());
        assert(tail@ == cs@.skip(5));
        let parts = words(&tail);
        let ghost pv = parts@.map_values(|w: Vec<char>| w@);
        if parts.len() == 0 {
            return Err("`after` needs a target, e.g. `[after #id]`".to_owned());
        }
        assert(pv[0] == parts@[0]@);
        if !starts_with(&parts[0], &chars_of("#")) {
            return Err(error_quoting("`after` target must be `#id`, got `", &parts[0], "`"));
        }
        let id = slice(&parts[0], 1, parts[0].len());
        assert(id@ == pv[0].skip(1));
        if id.len() == 0 {
            return Err("empty `#id` after `after`".to_owned());
        }
        let offset = if parts.len() >= 2 {
            assert(pv[1] == parts@[1]@);
            match parse_signed_ms(&parts[1]) {
                Ok(o) => o,
                Err(e) => return Err(e),
            }
        } else {
            0
        };
        if parts.len() >= 3 {
            return Err(error_quoting("unexpected extra text in `[after #", &id, " ...]`"));
        }
        return Ok(Trigger::After { id: string_of(id.as_slice()), offset_ms: offset });
    }
    Err(error_quoting("unknown trigger `[", &cs, "]`; expected enter, click N, exit or after #id"))
}

/// A target: one token, `slide` meaning the slide itself (`:scope`).
pub open spec fn target_of(s: Seq<char>) -> Result<TargetView, Seq<char>> {
    if exists|i: int| 0 <= i < s.len() && is_ws(s[i]) {
        Err("target must be a single token with no spaces: `"@ + s + "`"@)
    } else if s == "slide"@ {
        Ok(TargetView { sel: ":scope"@, split: None })
    } else {
        Ok(TargetView { sel: s, split: None })
    }
}

pub fn parse_target(s: &str) -> (r: Result<Target, String>)
    ensures
        match r {
            Ok(t) => target_of(s@) == Ok::<TargetView, Seq<char>>(t@),
            Err(e) => target_of(s@) == Err::<TargetView, Seq<char>>(e@),
        },
{
    let cs = chars_of(s);
    let mut i: usize = 0;
    while i < cs.len()
        invariant
            i <= cs@.len(),
            cs@ == s@,
            forall|k: int| 0 <= k < i ==> !is_ws(cs@[k]),
        decreases cs@.len() - i,
    {
        if is_space(cs[i]) {
            return Err(error_quoting("target must be a single token with no spaces: `", &cs, "`"));
        }
        i += 1;
    }
    let sel = if is(&cs, "slide") {
        ":scope".to_owned()
    } else {
        string_of(cs.as_slice())
    };
    Ok(Target { sel, split: None })
}

/// One track of the timeline.
#[derive(Debug, Clone, PartialEq, Eq)]
pub struct Track {
    pub trigger: Trigger,
    pub target: Target,
    pub effect: String,
    /// Only on a travelling effect, where it is required.
    pub dir: Option<Direction>,
    pub dur_ms: u32,
    pub delay_ms: u32,
    pub stagger_ms: u32,
    pub ease: Ease,
}

pub struct TrackView {
    pub trigger: TriggerView,
    pub target: TargetView,
    pub effect: Seq<char>,
    pub dir: Option<Direction>,
    pub dur_ms: u32,
    pub delay_ms: u32,
    pub stagger_ms: u32,
    pub ease: EaseView,
}

impl View for Track {
    type V = TrackView;

    open spec fn view(&self) -> TrackView {
        TrackView {
            trigger: self.trigger@,
            target: self.target@,
            effect: self.effect@,
            dir: self.dir,
            dur_ms: self.dur_ms,
            delay_ms: self.delay_ms,
            stagger_ms: self.stagger_ms,
            ease: self.ease@,
        }
    }
}

/// A track line in the slide grammar.
pub open spec fn track_of(line: Seq<char>) -> Result<TrackView, Seq<char>> {
    match fields_of(line) {
        Err(e) => Err(e),
        Ok((g, t, e)) => match trigger_of(g) {
            Err(x) => Err(x),
            Ok(trigger) => match target_of(t) {
                Err(x) => Err(x),
                Ok(target) => match effect_of(effect_names(), directional_names(), Millis, e) {
                    Err(x) => Err(x),
                    Ok(p) => Ok(
                        TrackView {
                            trigger,
                            target: TargetView {
                                sel: target.sel,
                                split: if p.split is Some {
                                    p.split
                                } else {
                                    target.split
                                },
                            },
                            effect: p.effect,
                            dir: p.dir,
                            dur_ms: p.dur_ms,
                            delay_ms: p.delay_ms,
                            stagger_ms: p.stagger_ms,
                            ease: p.ease,
                        },
                    ),
                },
            },
        },
    }
}

pub fn parse_line(line: &str) -> (r: Result<Track, String>)
    ensures
        match r {
            Ok(t) => track_of(line@) == Ok::<TrackView, Seq<char>>(t@),
            Err(e) => track_of(line@) == Err::<TrackView, Seq<char>>(e@),
        },
{
    let (g, t, e) = match split_line(line) {
        Ok(f) => f,
        Err(x) => return Err(x),
    };
    let trigger = match parse_trigger(g.as_str()) {
        Ok(x) => x,
        Err(x) => return Err(x),
    };
    let mut target = match parse_target(t.as_str()) {
        Ok(x) => x,
        Err(x) => return Err(x),
    };
    let dialect = Dialect::default();
    let parsed = match parse_effect_in(&dialect, e.as_str()) {
        Ok(x) => x,
        Err(x) => return Err(x),
    };
    if parsed.split.is_some() {
        target.split = parsed.split;
    }
    Ok(
        Track {
            trigger,
            target,
            effect: parsed.effect,
            dir: parsed.dir,
            dur_ms: parsed.dur_ms,
            delay_ms: parsed.delay_ms,
            stagger_ms: parsed.stagger_ms,
            ease: parsed.ease,
        },
    )
}

// ---------------------------------------------------------------------------
// Whole blocks
// ---------------------------------------------------------------------------

/// A parsed block: its tracks, and one message per line that failed.
#[derive(Debug, Default)]
pub struct AnimDoc {
    pub tracks: Vec<Track>,
    pub errors: Vec<String>,
}

/// What one (trimmed) line, the `n + 1`th, adds in front of what the lines
/// after it give.
pub open spec fn with_line(line: Seq<char>, n: nat, rest: (Seq<TrackView>, Seq<Seq<char>>)) -> (Seq<TrackView>, Seq<Seq<char>>) {
    if line.len() == 0 {
        rest
    } else {
        match track_of(line) {
            Ok(t) => (seq![t] + rest.0, rest.1),
            Err(e) => (rest.0, seq!["anim line "@ + decimal(n + 1) + ": "@ + e] + rest.1),
        }
    }
}

/// The tracks and the errors of the lines from `from` on, the first of them
/// being line `n + 1`. A blank line is skipped; a line that fails becomes an
/// error naming its line and the rest still count.
pub open spec fn doc_from(s: Seq<char>, from: int, n: nat) -> (Seq<TrackView>, Seq<Seq<char>>)
    decreases s.len() + 1 - from,
{
    if 0 <= from < s.len() && from < next_line(s, from) <= s.len() + 1 {
        with_line(trim(line_at(s, from)->0), n, doc_from(s, next_line(s, from), n + 1))
    } else {
        (Seq::empty(), Seq::empty())
    }
}

fn add_line(line: &Vec<char>, n: usize, tracks: &mut Vec<Track>, errors: &mut Vec<String>)
    requires
        n < usize::MAX,
    ensures
        forall|rest: (Seq<TrackView>, Seq<Seq<char>>)|
            {
                let r = #[trigger] with_line(line@, n as nat, rest);
                &&& old(tracks)@.map_values(|t: Track| t@) + r.0 == final(tracks)@.map_values(
                    |t: Track| t@,
                ) + rest.0
                &&& old(errors)@.map_values(|e: String| e@) + r.1 == final(errors)@.map_values(
                    |e: String| e@,
                ) + rest.1
            },
{
    if line.len() == 0 {
        return;
    }
    let ls = string_of(line.as_slice());
    match parse_line(ls.as_str()) {
        Ok(t) => {
            let ghost before = tracks@.map_values(|t: Track| t@);
            tracks.push(t);
            assert(tracks@.map_values(|t: Track| t@) =~= before.push(t@));
            assert forall|rest: (Seq<TrackView>, Seq<Seq<char>>)| #[trigger]
                with_line(line@, n as nat, rest).0 == seq![t@] + rest.0 implies before
                + with_line(line@, n as nat, rest).0 == tracks@.map_values(|t: Track| t@)
                + rest.0 by {
                assert(before + (seq![t@] + rest.0) =~= before.push(t@) + rest.0);
            }
        },
        Err(e) => {
            let mut msg: Vec<char> = Vec::new();
            push_str(&mut msg, "anim line ");
            push_decimal(&mut msg, (n + 1) as u64);
            push_str(&mut msg, ": ");
            push_str(&mut msg, e.as_str());
            let ghost before = errors@.map_values(|e: String| e@);
            let m = string_of(msg.as_slice());
            errors.push(m);
            assert(errors@.map_values(|e: String| e@) =~= before.push(msg@));
            assert forall|rest: (Seq<TrackView>, Seq<Seq<char>>)| #[trigger]
                with_line(line@, n as nat, rest).1 == seq![msg@] + rest.1 implies before
                + with_line(line@, n as nat, rest).1 == errors@.map_values(|e: String| e@)
                + rest.1 by {
                assert(before + (seq![msg@] + rest.1) =~= before.push(msg@) + rest.1);
            }
        },
    }
}

/// Parses an `anim` block's source, one track per line.
pub fn parse(src: &str) -> (doc: AnimDoc)
    ensures
        doc.tracks@.map_values(|t: Track| t@) == doc_from(src@, 0, 0).0,
        doc.errors@.map_values(|e: String| e@) == doc_from(src@, 0, 0).1,
{
    let cs = chars_of(src);
    let mut tracks: Vec<Track> = Vec::new();
    let mut errors: Vec<String> = Vec::new();
    let mut from: usize = 0;
    let mut n: usize = 0;
    let ghost full = doc_from(src@, 0, 0);
    assert(tracks@.map_values(|t: Track| t@) + full.0 =~= full.0);
    assert(errors@.map_values(|e: String| e@) + full.1 =~= full.1);
    while from < cs.len()
        invariant
            from <= cs@.len(),
            n <= from,
            cs@ == src@,
            full == doc_from(src@, 0, 0),
            tracks@.map_values(|t: Track| t@) + doc_from(cs@, from as int, n as nat).0 == full.0,
            errors@.map_values(|e: String| e@) + doc_from(cs@, from as int, n as nat).1 == full.1,
        decreases cs@.len() - from,
    {
        let (raw, end) = crate::text::read_line(&cs, from);
        proof {
            crate::text::lemma_line_end(cs@, from as int);
        }
        let line = trimmed(&raw);
        let ghost rest = doc_from(cs@, end + 1, (n + 1) as nat);
        assert(doc_from(cs@, from as int, n as nat) == with_line(line@, n as nat, rest));
        add_line(&line, n, &mut tracks, &mut errors);
        if end >= cs.len() {
            assert(rest == doc_from(cs@, cs@.len() as int, (n + 1) as nat));
            from = cs.len();
        } else {
            from = end + 1;
        }
        n = n + 1;
    }
    assert(tracks@.map_values(|t: Track| t@) =~= full.0);
    assert(errors@.map_values(|e: String| e@) =~= full.1);
    AnimDoc { tracks, errors }
}

/// How many of the lines from `from` on hold anything once trimmed.
pub open spec fn nonblank_from(s: Seq<char>, from: int) -> nat
    decreases s.len() + 1 - from,
{
    if 0 <= from < s.len() && from < next_line(s, from) <= s.len() + 1 {
        nonblank_from(s, next_line(s, from)) + if trim(line_at(s, from)->0).len() == 0 {
            0nat
        } else {
            1nat
        }
    } else {
        0
    }
}

proof fn lemma_lines_accounted(s: Seq<char>, from: int, n: nat)
    ensures
        doc_from(s, from, n).0.len() + doc_from(s, from, n).1.len() == nonblank_from(s, from),
    decreases s.len() + 1 - from,
{
    if 0 <= from < s.len() && from < next_line(s, from) <= s.len() + 1 {
        lemma_lines_accounted(s, next_line(s, from), n + 1);
    }
}

/// One bad line does not hide the rest: every line of a block that holds
/// anything becomes exactly one track or exactly one error.
pub proof fn lemma_every_line_is_a_track_or_an_error(src: Seq<char>)
    ensures
        doc_from(src, 0, 0).0.len() + doc_from(src, 0, 0).1.len() == nonblank_from(src, 0),
{
    lemma_lines_accounted(src, 0, 0);
}

/// Where the line `m` lines after the one starting at `from` starts.
pub open spec fn line_start_after(s: Seq<char>, from: int, m: nat) -> int
    decreases m,
{
    if m == 0 {
        from
    } else {
        line_start_after(s, next_line(s, from), (m - 1) as nat)
    }
}

/// Why a line does not read as a track; empty when it does.
pub open spec fn track_error(l: Seq<char>) -> Seq<char> {
    match track_of(l) {
        Err(e) => e,
        Ok(_) => Seq::empty(),
    }
}

/// The numbers of the lines from `from` on (the first of them being line
/// `n + 1`) that hold something and do not read as a track.
pub open spec fn failing_lines(s: Seq<char>, from: int, n: nat) -> Seq<nat>
    decreases s.len() + 1 - from,
{
    if 0 <= from < s.len() && from < next_line(s, from) <= s.len() + 1 {
        let l = trim(line_at(s, from)->0);
        let rest = failing_lines(s, next_line(s, from), n + 1);
        if l.len() > 0 && track_of(l) is Err {
            seq![n + 1] + rest
        } else {
            rest
        }
    } else {
        Seq::empty()
    }
}

proof fn lemma_errors_name_lines(s: Seq<char>, from: int, n: nat)
    ensures
        ({
            let ks = failing_lines(s, from, n);
            let errs = doc_from(s, from, n).1;
            &&& errs.len() == ks.len()
            &&& forall|i: int| 0 <= i < ks.len() ==> #[trigger] ks[i] > n
            &&& forall|i: int, j: int| 0 <= i < j < ks.len() ==> ks[i] < ks[j]
            &&& forall|i: int|
                0 <= i < ks.len() ==> #[trigger] errs[i] == "anim line "@ + decimal(ks[i]) + ": "@
                    + track_error(trim(line_at(s, line_start_after(s, from, (ks[i] - 1 - n) as nat))->0))
        }),
    decreases s.len() + 1 - from,
{
    if 0 <= from < s.len() && from < next_line(s, from) <= s.len() + 1 {
        let next = next_line(s, from);
        lemma_errors_name_lines(s, next, n + 1);
        let l = trim(line_at(s, from)->0);
        let rest = failing_lines(s, next, n + 1);
        let rerr = doc_from(s, next, n + 1).1;
        assert forall|i: int| 0 <= i < rest.len() implies line_start_after(
            s,
            from,
            (rest[i] - 1 - n) as nat,
        ) == line_start_after(s, next, (rest[i] - 1 - (n + 1)) as nat) by {
            assert(rest[i] > n + 1);
        }
        if l.len() > 0 && track_of(l) is Err {
            let ks = seq![n + 1] + rest;
            let errs = doc_from(s, from, n).1;
            assert(errs == seq!["anim line "@ + decimal(n + 1) + ": "@ + track_error(l)] + rerr);
            assert forall|i: int| 0 <= i < ks.len() implies #[trigger] errs[i] == "anim line "@ + decimal(
                ks[i],
            ) + ": "@ + track_error(trim(line_at(s, line_start_after(s, from, (ks[i] - 1 - n) as nat))->0)) by {
                if i > 0 {
                    assert(ks[i] == rest[i - 1]);
                    assert(errs[i] == rerr[i - 1]);
                }
            }
            assert forall|i: int| 0 <= i < ks.len() implies #[trigger] ks[i] > n by {
                if i > 0 {
                    assert(ks[i] == rest[i - 1]);
                }
            }
            assert forall|i: int, j: int| 0 <= i < j < ks.len() implies ks[i] < ks[j] by {
                assert(ks[j] == rest[j - 1]);
                if i > 0 {
                    assert(ks[i] == rest[i - 1]);
                }
            }
        }
    }
}

/// Each error of a block names, 1-based, the line it came from and why
/// that line does not read, and the errors come in the order of their
/// lines.
pub proof fn lemma_errors_name_their_lines(src: Seq<char>)
    ensures
        ({
            let ks = failing_lines(src, 0, 0);
            let errs = doc_from(src, 0, 0).1;
            &&& errs.len() == ks.len()
            &&& forall|i: int| 0 <= i < ks.len() ==> #[trigger] ks[i] >= 1
            &&& forall|i: int, j: int| 0 <= i < j < ks.len() ==> ks[i] < ks[j]
            &&& forall|i: int|
                0 <= i < ks.len() ==> #[trigger] errs[i] == "anim line "@ + decimal(ks[i]) + ": "@
                    + track_error(trim(line_at(src, line_start_after(src, 0, (ks[i] - 1) as nat))->0))
        }),
{
    lemma_errors_name_lines(src, 0, 0);
}

/// The highest `click` step among the tracks, or zero.
pub open spec fn steps_of(tracks: Seq<TrackView>) -> u32
    decreases tracks.len(),
{
    if tracks.len() == 0 {
        0
    } else {
        let rest = steps_of(tracks.drop_last());
        match tracks.last().trigger {
            TriggerView::Click(n) => if n > rest {
                n
            } else {
                rest
            },
            _ => rest,
        }
    }
}

/// The click steps a slide needs are the highest `click N` its tracks use:
/// no track clicks later than that, and some track clicks at that step
/// (zero when no track waits for a click).
pub proof fn lemma_steps_is_the_highest_click(tracks: Seq<TrackView>)
    ensures
        forall|i: int|
            0 <= i < tracks.len() ==> (#[trigger] tracks[i].trigger matches TriggerView::Click(n) ==> n
                <= steps_of(tracks)),
        steps_of(tracks) == 0 || exists|i: int|
            0 <= i < tracks.len() && #[trigger] tracks[i].trigger == TriggerView::Click(steps_of(tracks)),
    decreases tracks.len(),
{
    if tracks.len() > 0 {
        let rest = tracks.drop_last();
        lemma_steps_is_the_highest_click(rest);
        assert forall|i: int|
            0 <= i < tracks.len() implies (#[trigger] tracks[i].trigger matches TriggerView::Click(n) ==> n
                <= steps_of(tracks)) by {
            if i < rest.len() {
                assert(tracks[i] == rest[i]);
            }
        }
        if steps_of(tracks) != 0 && steps_of(tracks) == steps_of(rest) {
            let i = choose|i: int|
                0 <= i < rest.len() && #[trigger] rest[i].trigger == TriggerView::Click(steps_of(rest));
            assert(tracks[i] == rest[i]);
        } else if steps_of(tracks) != 0 {
            assert(tracks[tracks.len() - 1].trigger == TriggerView::Click(steps_of(tracks)));
        }
    }
}

/// The number of `click` steps the slide needs: the highest `click N` used.
pub fn steps(doc: &AnimDoc) -> (n: u32)
    ensures
        n == steps_of(doc.tracks@.map_values(|t: Track| t@)),
        forall|i: int|
            0 <= i < doc.tracks@.len() ==> (#[trigger] doc.tracks@[i].trigger@ matches TriggerView::Click(c)
                ==> c <= n),
        n == 0 || exists|i: int|
            0 <= i < doc.tracks@.len() && #[trigger] doc.tracks@[i].trigger@ == TriggerView::Click(n),
{
    proof {
        let tv = doc.tracks@.map_values(|t: Track| t@);
        lemma_steps_is_the_highest_click(tv);
        assert forall|i: int| 0 <= i < doc.tracks@.len() implies #[trigger] doc.tracks@[i].trigger@ == tv[i].trigger by {}
    }
    let ghost tv = doc.tracks@.map_values(|t: Track| t@);
    let mut best: u32 = 0;
    let mut i: usize = 0;
    while i < doc.tracks.len()
        invariant
            i <= doc.tracks@.len(),
            tv == doc.tracks@.map_values(|t: Track| t@),
            best == steps_of(tv.take(i as int)),
        decreases doc.tracks@.len() - i,
    {
        assert(tv.take(i + 1).drop_last() == tv.take(i as int));
        match doc.tracks[i].trigger {
            Trigger::Click(n) => {
                if n > best {
                    best = n;
                }
            },
            _ => {},
        }
        i += 1;
    }
    assert(tv.take(doc.tracks@.len() as int) == tv);
    best
}

// ---------------------------------------------------------------------------
// Deck-wide transitions
// ---------------------------------------------------------------------------

/// A slide transition: the pair of whole-slide tracks a deck would otherwise
/// repeat on every slide.
#[derive(Debug, Clone, PartialEq, Eq)]
pub struct Transition {
    pub name: String,
    pub in_effect: String,
    pub out_effect: String,
    /// The direction the slide travels, for the sliding transitions.
    pub dir: Option<Direction>,
    pub dur_ms: u32,
    pub ease: Ease,
}

pub struct TransitionView {
    pub name: Seq<char>,
    pub in_effect: Seq<char>,
    pub out_effect: Seq<char>,
    pub dir: Option<Direction>,
    pub dur_ms: u32,
    pub ease: EaseView,
}

impl View for Transition {
    type V = TransitionView;

    open spec fn view(&self) -> TransitionView {
        TransitionView {
            name: self.name@,
            in_effect: self.in_effect@,
            out_effect: self.out_effect@,
            dir: self.dir,
            dur_ms: self.dur_ms,
            ease: self.ease@,
        }
    }
}

/// Transition names, with the effects they lower to and the way they travel.
pub const TRANSITIONS: [&'static str; 12] = [
    "none",
    "fade",
    "slide-left",
    "slide-right",
    "slide-up",
    "slide-down",
    "wipe-left",
    "wipe-right",
    "wipe-up",
    "wipe-down",
    "zoom",
    "iris",
];

pub open spec fn transition_names() -> Seq<Seq<char>> {
    seq![
        "none"@,
        "fade"@,
        "slide-left"@,
        "slide-right"@,
        "slide-up"@,
        "slide-down"@,
        "wipe-left"@,
        "wipe-right"@,
        "wipe-up"@,
        "wipe-down"@,
        "zoom"@,
        "iris"@
    ]
}

/// The in and out effects, and direction, of a transition named in
/// `transition_names()`.
pub open spec fn lowering(name: Seq<char>) -> (Seq<char>, Seq<char>, Option<Direction>) {
    if name == "none"@ {
        ("none"@, "none"@, None)
    } else if name == "fade"@ {
        ("fade-in"@, "fade-out"@, None)
    } else if name == "iris"@ {
        ("fade-in"@, "iris-out"@, None)
    } else if name == "zoom"@ {
        ("zoom-in"@, "zoom-out"@, None)
    } else if name == "slide-left"@ {
        ("slide-in"@, "slide-out"@, Some(Direction::Left))
    } else if name == "slide-right"@ {
        ("slide-in"@, "slide-out"@, Some(Direction::Right))
    } else if name == "slide-up"@ {
        ("slide-in"@, "slide-out"@, Some(Direction::Up))
    } else if name == "slide-down"@ {
        ("slide-in"@, "slide-out"@, Some(Direction::Down))
    } else if name == "wipe-left"@ {
        ("wipe-in"@, "wipe-out"@, Some(Direction::Left))
    } else if name == "wipe-right"@ {
        ("wipe-in"@, "wipe-out"@, Some(Direction::Right))
    } else if name == "wipe-up"@ {
        ("wipe-in"@, "wipe-out"@, Some(Direction::Up))
    } else {
        ("wipe-in"@, "wipe-out"@, Some(Direction::Down))
    }
}

/// The tokens after a transition's name from `i` on, read into a duration
/// and an ease.
pub open spec fn transition_attrs(toks: Seq<Seq<char>>, i: int, dur: u32, ease: EaseView) -> Result<(u32, EaseView), Seq<char>>
    decreases toks.len() - i,
{
    if i < 0 || i >= toks.len() {
        Ok((dur, ease))
    } else {
        let tok = toks[i];
        match first_at(tok, "="@, 0) {
            Some(p) => {
                let k = tok.take(p);
                let v = tok.skip(p + 1);
                if k == "dur"@ {
                    match ms_of(v) {
                        Some(d) => transition_attrs(toks, i + 1, d, ease),
                        None => Err(ms_error(v)),
                    }
                } else if k == "ease"@ {
                    match ease_of(v) {
                        Ok(e) => transition_attrs(toks, i + 1, dur, e),
                        Err(e) => Err(e),
                    }
                } else {
                    Err("unknown attribute `"@ + k + "=`"@)
                }
            },
            None => if has_suffix(tok, "ms"@) {
                match ms_of(tok) {
                    Some(d) => transition_attrs(toks, i + 1, d, ease),
                    None => Err(ms_error(tok)),
                }
            } else {
                Err("unexpected token `"@ + tok + "`"@)
            },
        }
    }
}

/// Frontmatter `transition:`: a name, then optionally a duration (300ms
/// when none is given) and an ease (`out-cubic` when none is given).
pub open spec fn transition_of(src: Seq<char>) -> Result<TransitionView, Seq<char>> {
    let toks = words_of(src);
    if toks.len() == 0 {
        Err("empty transition"@)
    } else if !transition_names().contains(toks[0]) {
        Err(
            "unknown transition `"@ + toks[0] + "`; expected one of "@ + join(
                transition_names(),
                ", "@,
            ),
        )
    } else {
        match transition_attrs(toks, 1, 300, EaseView::Named("out-cubic"@)) {
            Err(e) => Err(e),
            Ok((dur, ease)) => {
                let (i, o, d) = lowering(toks[0]);
                Ok(
                    TransitionView {
                        name: toks[0],
                        in_effect: i,
                        out_effect: o,
                        dir: d,
                        dur_ms: dur,
                        ease,
                    },
                )
            },
        }
    }
}

fn lower(name: &Vec<char>) -> (r: (&'static str, &'static str, Option<Direction>))
    ensures
        (r.0@, r.1@, r.2) == lowering(name@),
{
    if is(name, "none") {
        ("none", "none", None)
    } else if is(name, "fade") {
        ("fade-in", "fade-out", None)
    } else if is(name, "iris") {
        ("fade-in", "iris-out", None)
    } else if is(name, "zoom") {
        ("zoom-in", "zoom-out", None)
    } else if is(name, "slide-left") {
        ("slide-in", "slide-out", Some(Direction::Left))
    } else if is(name, "slide-right") {
        ("slide-in", "slide-out", Some(Direction::Right))
    } else if is(name, "slide-up") {
        ("slide-in", "slide-out", Some(Direction::Up))
    } else if is(name, "slide-down") {
        ("slide-in", "slide-out", Some(Direction::Down))
    } else if is(name, "wipe-left") {
        ("wipe-in", "wipe-out", Some(Direction::Left))
    } else if is(name, "wipe-right") {
        ("wipe-in", "wipe-out", Some(Direction::Right))
    } else if is(name, "wipe-up") {
        ("wipe-in", "wipe-out", Some(Direction::Up))
    } else {
        ("wipe-in", "wipe-out", Some(Direction::Down))
    }
}

/// Parses frontmatter `transition:`, e.g. `slide-left 300ms ease=out-cubic`.
pub fn parse_transition(src: &str) -> (r: Result<Transition, String>)
    ensures
        match r {
            Ok(t) => transition_of(src@) == Ok::<TransitionView, Seq<char>>(t@),
            Err(e) => transition_of(src@) == Err::<TransitionView, Seq<char>>(e@),
        },
{
    let toks = words(&chars_of(src));
    let ghost tv = toks@.map_values(|w: Vec<char>| w@);
    if toks.len() == 0 {
        return Err("empty transition".to_owned());
    }
    let table = TRANSITIONS;
    assert(names(&table) =~= transition_names());
    let name = &toks[0];
    assert(tv[0] == name@);
    if !listed(&table, name) {
        let mut msg: Vec<char> = Vec::new();
        push_str(&mut msg, "unknown transition `");
        push_all(&mut msg, name);
        push_str(&mut msg, "`; expected one of ");
        push_joined(&mut msg, &table, ", ");
        return Err(string_of(msg.as_slice()));
    }
    let mut dur: u32 = 300;
    let mut ease = Ease::Named("out-cubic".to_owned());
    let eq = chars_of("=");
    proof {
        reveal_strlit("=");
        reveal_strlit("ms");
    }
    let ms = chars_of("ms");
    let mut i: usize = 1;
    while i < toks.len()
        invariant
            1 <= i <= toks@.len(),
            tv == toks@.map_values(|w: Vec<char>| w@),
            eq@ == "="@,
            eq@.len() == 1,
            ms@ == "ms"@,
            transition_of(src@) == match transition_attrs(tv, i as int, dur, ease@) {
                Err(e) => Err(e),
                Ok((d, e)) => {
                    let (a, b, c) = lowering(tv[0]);
                    Ok(
                        TransitionView {
                            name: tv[0],
                            in_effect: a,
                            out_effect: b,
                            dir: c,
                            dur_ms: d,
                            ease: e,
                        },
                    )
                },
            },
        decreases toks@.len() - i,
    {
        let tok = &toks[i];
        let tl = tok.len();
        assert(tv[i as int] == tok@);
        match find_from(tok, &eq, 0) {
            Some(p) => {
                proof {
                    lemma_first_at_some(tok@, eq@, 0);
                }
                let k = slice(tok, 0, p);
                let v = string_of(slice(tok, p + 1, tok.len()).as_slice());
                assert(tok@.subrange(0, p as int) == tok@.take(p as int));
                assert(tok@.subrange(p + 1, tok@.len() as int) == tok@.skip(p + 1));
                if is(&k, "dur") {
                    match parse_ms(v.as_str()) {
                        Ok(d) => dur = d,
                        Err(e) => return Err(e),
                    }
                } else if is(&k, "ease") {
                    match parse_ease(v.as_str()) {
                        Ok(e) => ease = e,
                        Err(e) => return Err(e),
                    }
                } else {
                    return Err(error_quoting("unknown attribute `", &k, "=`"));
                }
            },
            None => {
                if ends_with(tok, &ms) {
                    match parse_ms(string_of(tok.as_slice()).as_str()) {
                        Ok(d) => dur = d,
                        Err(e) => return Err(e),
                    }
                } else {
                    return Err(error_quoting("unexpected token `", tok, "`"));
                }
            },
        }
        i += 1;
    }
    let (a, b, c) = lower(name);
    Ok(
        Transition {
            name: string_of(name.as_slice()),
            in_effect: a.to_owned(),
            out_effect: b.to_owned(),
            dir: c,
            dur_ms: dur,
            ease,
        },
    )
}

// ---------------------------------------------------------------------------
// Deck-wide autoplay
// ---------------------------------------------------------------------------

/// A deck that turns its own pages, from frontmatter `autoplay:`.
#[derive(Debug, Clone, Copy, PartialEq, Eq, Structural)]
pub struct Autoplay {
    /// Milliseconds between advances.
    pub interval_ms: u32,
    /// Whether the deck wraps from the last slide back to the first.
    pub looped: bool,
}

/// A number as `f64`'s `FromStr` reads it, kept exactly: its sign, its
/// digits, and where the decimal point falls among them (which may be
/// before the first or after the last).
pub enum Amount {
    Finite { neg: bool, digits: Seq<char>, point: int },
    Infinite { neg: bool },
    NotANumber,
}

pub open spec fn amount_of(s: Seq<char>) -> Option<Amount> {
    let neg = s.len() > 0 && s[0] == '-';
    let b = if s.len() > 0 && (s[0] == '-' || s[0] == '+') {
        s.skip(1)
    } else {
        s
    };
    if folded(b) == "inf"@ || folded(b) == "infinity"@ {
        Some(Amount::Infinite { neg })
    } else if folded(b) == "nan"@ {
        Some(Amount::NotANumber)
    } else {
        let i1 = digits_end(b, 0);
        let f0 = if i1 < b.len() && b[i1] == '.' {
            i1 + 1
        } else {
            i1
        };
        let i2 = if f0 > i1 {
            digits_end(b, f0)
        } else {
            i1
        };
        let digits = b.take(i1) + b.subrange(f0, i2);
        if i1 + (i2 - f0) == 0 {
            None
        } else if i2 == b.len() {
            Some(Amount::Finite { neg, digits, point: i1 })
        } else if b[i2] == 'e' || b[i2] == 'E' {
            let j = i2 + 1;
            let j2 = if j < b.len() && (b[j] == '+' || b[j] == '-') {
                j + 1
            } else {
                j
            };
            let k = digits_end(b, j2);
            if k > j2 && k == b.len() {
                let e = digits_value(b.subrange(j2, k));
                Some(
                    Amount::Finite {
                        neg,
                        digits,
                        point: i1 + if b[j] == '-' {
                            -e
                        } else {
                            e
                        },
                    },
                )
            } else {
                None
            }
        } else {
            None
        }
    }
}

pub open spec fn pow10(k: nat) -> nat
    decreases k,
{
    if k == 0 {
        1
    } else {
        10 * pow10((k - 1) as nat)
    }
}

/// The whole part of the number whose digits are `d`, with the point `p`
/// digits in: the digits before it, with zeros for any it runs past.
pub open spec fn whole_part(d: Seq<char>, p: int) -> nat {
    if p <= 0 {
        0
    } else if p <= d.len() {
        digits_value(d.take(p)) as nat
    } else {
        (digits_value(d) as nat) * pow10((p - d.len()) as nat)
    }
}

/// Whether that number's fraction is at least a half.
pub open spec fn half_or_more(d: Seq<char>, p: int) -> bool {
    0 <= p < d.len() && d[p] >= '5'
}

/// Milliseconds for an amount of `10^scale` milliseconds, rounded half away
/// from zero and saturated into a `u32` the way `as u32` does: a negative or
/// not-a-number interval is zero.
pub open spec fn interval_of(a: Amount, scale: int) -> nat {
    match a {
        Amount::NotANumber => 0,
        Amount::Infinite { neg } => if neg {
            0
        } else {
            u32::MAX as nat
        },
        Amount::Finite { neg, digits, point } => if neg {
            0
        } else {
            let v = whole_part(digits, point + scale) + if half_or_more(digits, point + scale) {
                1nat
            } else {
                0nat
            };
            if v > u32::MAX {
                u32::MAX as nat
            } else {
                v
            }
        },
    }
}

pub open spec fn autoplay_hint() -> Seq<char> {
    "write `autoplay: 8s` or `autoplay: 8s loop`"@
}

/// The tokens from `i` on: `loop`, or an interval (in `ms`, in `s`, or bare
/// seconds), a later interval replacing an earlier one.
pub open spec fn autoplay_from(toks: Seq<Seq<char>>, i: int, interval: Option<nat>, looped: bool) -> Result<(Option<nat>, bool), Seq<char>>
    decreases toks.len() - i,
{
    if i < 0 || i >= toks.len() {
        Ok((interval, looped))
    } else {
        let tok = toks[i];
        if tok == "loop"@ {
            autoplay_from(toks, i + 1, interval, true)
        } else {
            let (num, scale) = if has_suffix(tok, "ms"@) {
                (tok.take(tok.len() - 2), 0int)
            } else if has_suffix(tok, "s"@) {
                (tok.take(tok.len() - 1), 3int)
            } else {
                (tok, 3int)
            };
            match amount_of(num) {
                None => Err("unexpected token `"@ + tok + "`; "@ + autoplay_hint()),
                Some(a) => autoplay_from(toks, i + 1, Some(interval_of(a, scale)), looped),
            }
        }
    }
}

/// Frontmatter `autoplay:`, e.g. `8s`, `8s loop`, `4000ms`.
pub open spec fn autoplay_of(src: Seq<char>) -> Result<Autoplay, Seq<char>> {
    match autoplay_from(words_of(src), 0, None, false) {
        Err(e) => Err(e),
        Ok((None, _)) => Err("no interval; "@ + autoplay_hint()),
        Ok((Some(ms), looped)) => if ms < 100 {
            Err("`"@ + src + "` is shorter than any page turn; 100ms is the floor"@)
        } else {
            Ok(Autoplay { interval_ms: ms as u32, looped })
        },
    }
}

proof fn lemma_autoplay_from(toks: Seq<Seq<char>>, i: int, interval: Option<nat>, looped: bool)
    requires
        0 <= i,
        interval matches Some(x) ==> x <= u32::MAX,
    ensures
        autoplay_from(toks, i, interval, looped) matches Ok((Some(v), _)) ==> v <= u32::MAX,
        autoplay_from(toks, i, interval, looped) matches Ok((_, l)) ==> (l <==> (looped || exists|j: int|
            i <= j < toks.len() && #[trigger] toks[j] == "loop"@)),
        (forall|j: int| i <= j < toks.len() ==> #[trigger] toks[j] == "loop"@) ==> (autoplay_from(
            toks,
            i,
            interval,
            looped,
        ) matches Ok((iv, _)) && iv == interval),
    decreases toks.len() - i,
{
    if i < toks.len() {
        let tok = toks[i];
        if tok == "loop"@ {
            lemma_autoplay_from(toks, i + 1, interval, true);
        } else {
            let (num, scale) = if has_suffix(tok, "ms"@) {
                (tok.take(tok.len() - 2), 0int)
            } else if has_suffix(tok, "s"@) {
                (tok.take(tok.len() - 1), 3int)
            } else {
                (tok, 3int)
            };
            match amount_of(num) {
                None => {},
                Some(a) => {
                    assert(interval_of(a, scale) <= u32::MAX);
                    lemma_autoplay_from(toks, i + 1, Some(interval_of(a, scale)), looped);
                    if autoplay_from(toks, i, interval, looped) matches Ok((_, l)) {
                        if exists|j: int| i <= j < toks.len() && #[trigger] toks[j] == "loop"@ {
                            let j = choose|j: int| i <= j < toks.len() && #[trigger] toks[j] == "loop"@;
                            assert(j != i);
                        }
                    }
                },
            }
        }
    }
}

/// A deck's autoplay turns pages no faster than every 100ms, loops exactly
/// when a `loop` token is written, and without a token other than `loop`
/// there is no interval to turn pages at.
pub proof fn lemma_autoplay_law(src: Seq<char>)
    ensures
        autoplay_of(src) matches Ok(a) ==> a.interval_ms >= 100 && (a.looped <==> exists|j: int|
            0 <= j < words_of(src).len() && #[trigger] words_of(src)[j] == "loop"@),
        (forall|j: int| 0 <= j < words_of(src).len() ==> #[trigger] words_of(src)[j] == "loop"@)
            ==> autoplay_of(src) is Err,
{
    lemma_autoplay_from(words_of(src), 0, None, false);
}


/// The words from `i` on with every `loop` taken out, the others in order.
pub open spec fn without_loop(toks: Seq<Seq<char>>, i: int) -> Seq<Seq<char>>
    decreases toks.len() - i,
{
    if i < 0 || i >= toks.len() {
        Seq::empty()
    } else if toks[i] == "loop"@ {
        without_loop(toks, i + 1)
    } else {
        seq![toks[i]] + without_loop(toks, i + 1)
    }
}

/// Whether `loop` is among the words.
pub open spec fn has_loop(toks: Seq<Seq<char>>) -> bool {
    exists|j: int| 0 <= j < toks.len() && #[trigger] toks[j] == "loop"@
}

/// Reading past a word put in front is reading what follows it.
proof fn lemma_autoplay_shift(
    t: Seq<char>,
    rest: Seq<Seq<char>>,
    k: int,
    interval: Option<nat>,
    looped: bool,
)
    requires
        0 <= k,
    ensures
        autoplay_from(seq![t] + rest, k + 1, interval, looped) == autoplay_from(
            rest,
            k,
            interval,
            looped,
        ),
    decreases rest.len() - k,
{
    let s = seq![t] + rest;
    if k < rest.len() {
        assert(s[k + 1] == rest[k]);
        let tok = rest[k];
        if tok != "loop"@ {
            let (num, scale) = if has_suffix(tok, "ms"@) {
                (tok.take(tok.len() - 2), 0int)
            } else if has_suffix(tok, "s"@) {
                (tok.take(tok.len() - 1), 3int)
            } else {
                (tok, 3int)
            };
            if let Some(a) = amount_of(num) {
                lemma_autoplay_shift(t, rest, k + 1, Some(interval_of(a, scale)), looped);
            }
        } else {
            lemma_autoplay_shift(t, rest, k + 1, interval, true);
        }
    }
}

/// Reading the words is reading them with every `loop` taken out, the
/// loop flag set when one was there.
proof fn lemma_autoplay_without_loop(toks: Seq<Seq<char>>, i: int, interval: Option<nat>, looped: bool)
    requires
        0 <= i,
    ensures
        match autoplay_from(toks, i, interval, looped) {
            Err(e) => autoplay_from(without_loop(toks, i), 0, interval, false) == Err::<
                (Option<nat>, bool),
                Seq<char>,
            >(e),
            Ok((v, l)) => autoplay_from(without_loop(toks, i), 0, interval, false) == Ok::<
                (Option<nat>, bool),
                Seq<char>,
            >((v, false)) && (l <==> (looped || exists|j: int|
                i <= j < toks.len() && #[trigger] toks[j] == "loop"@)),
        },
    decreases toks.len() - i,
{
    if i < toks.len() {
        let tok = toks[i];
        let w = without_loop(toks, i + 1);
        if tok == "loop"@ {
            lemma_autoplay_without_loop(toks, i + 1, interval, true);
        } else {
            let s = seq![tok] + w;
            assert(without_loop(toks, i) == s);
            assert(s[0] == tok);
            let (num, scale) = if has_suffix(tok, "ms"@) {
                (tok.take(tok.len() - 2), 0int)
            } else if has_suffix(tok, "s"@) {
                (tok.take(tok.len() - 1), 3int)
            } else {
                (tok, 3int)
            };
            if let Some(a) = amount_of(num) {
                let iv = Some(interval_of(a, scale));
                lemma_autoplay_without_loop(toks, i + 1, iv, looped);
                lemma_autoplay_shift(tok, w, 0, iv, false);
                if exists|j: int| i <= j < toks.len() && #[trigger] toks[j] == "loop"@ {
                    let j = choose|j: int| i <= j < toks.len() && #[trigger] toks[j] == "loop"@;
                    assert(j != i);
                }
            }
        }
    } else {
        assert(without_loop(toks, i) =~= Seq::<Seq<char>>::empty());
    }
}

/// Where `loop` stands among the words changes nothing: two settings with
/// the same other words in the same order, and `loop` in both or in
/// neither, are accepted alike or refused alike, and read the same when
/// accepted.
pub proof fn lemma_autoplay_loop_anywhere(a: Seq<char>, b: Seq<char>)
    requires
        without_loop(words_of(a), 0) == without_loop(words_of(b), 0),
        has_loop(words_of(a)) <==> has_loop(words_of(b)),
    ensures
        autoplay_of(a) is Ok <==> autoplay_of(b) is Ok,
        autoplay_of(a) is Ok ==> autoplay_of(a) == autoplay_of(b),
{
    lemma_autoplay_without_loop(words_of(a), 0, None, false);
    lemma_autoplay_without_loop(words_of(b), 0, None, false);
}

pub proof fn lemma_pow10_grows(a: nat, b: nat)
    requires
        a <= b,
    ensures
        1 <= pow10(a) <= pow10(b),
    decreases b,
{
    if b > a {
        lemma_pow10_grows(a, (b - 1) as nat);
    } else if a > 0 {
        lemma_pow10_grows((a - 1) as nat, (a - 1) as nat);
    }
}

pub proof fn lemma_pow10_big(k: nat)
    requires
        k >= 10,
    ensures
        pow10(k) > u32::MAX,
    decreases k,
{
    if k > 10 {
        lemma_pow10_big((k - 1) as nat);
        lemma_pow10_grows(0, (k - 1) as nat);
    } else {
        reveal_with_fuel(pow10, 11);
    }
}

pub proof fn lemma_nonzero_digits(d: Seq<char>)
    requires
        all_digits(d),
        has_nonzero(d),
    ensures
        digits_value(d) >= 1,
    decreases d.len(),
{
    crate::text::lemma_digits_nonneg(d);
    if d.last() != '0' {
        crate::text::lemma_digits_nonneg(d.drop_last());
    } else {
        let k = choose|k: int| 0 <= k < d.len() && d[k] != '0';
        assert(d.drop_last()[k] != '0');
        assert(all_digits(d.drop_last()));
        lemma_nonzero_digits(d.drop_last());
    }
}

/// `v` capped just past `u32::MAX`: every value at the cap is one too big.
pub open spec fn capped(v: nat) -> nat {
    if v > u32::MAX {
        u32::MAX as nat + 1
    } else {
        v
    }
}

/// Beyond this an exponent cannot change an interval.
pub open spec fn exponent_cap() -> u128 {
    0x10_0000_0000_0000_0000_0000_0000u128
}

/// The exponent digits `b[from..to]`, read up to the cap.
fn read_exponent(b: &Vec<char>, from: usize, to: usize) -> (e: u128)
    requires
        from <= to <= b@.len(),
        forall|t: int| from <= t < to ==> is_digit(#[trigger] b@[t]),
    ensures
        all_digits(b@.subrange(from as int, to as int)),
        digits_value(b@.subrange(from as int, to as int)) <= exponent_cap() ==> e == digits_value(
            b@.subrange(from as int, to as int),
        ),
        digits_value(b@.subrange(from as int, to as int)) > exponent_cap() ==> e > exponent_cap(),
        e <= exponent_cap() * 10 + 9,
{
    let cap: u128 = 0x10_0000_0000_0000_0000_0000_0000;
    let mut e: u128 = 0;
    let mut q = from;
    while q < to
        invariant
            cap == exponent_cap(),
            from <= q <= to <= b@.len(),
            forall|t: int| from <= t < to ==> is_digit(#[trigger] b@[t]),
            all_digits(b@.subrange(from as int, q as int)),
            digits_value(b@.subrange(from as int, q as int)) <= cap ==> e == digits_value(
                b@.subrange(from as int, q as int),
            ),
            digits_value(b@.subrange(from as int, q as int)) > cap ==> e > cap,
            e <= cap * 10 + 9,
        decreases to - q,
    {
        let ghost before = b@.subrange(from as int, q as int);
        assert(b@.subrange(from as int, q + 1).drop_last() == before);
        assert(is_digit(b@[q as int]));
        proof {
            crate::text::lemma_digits_nonneg(before);
        }
        let dg: u128 = ((b[q] as u32) - 48) as u128;
        if e <= cap {
            e = e * 10 + dg;
        }
        q += 1;
    }
    e
}

/// The digits of a number with the point taken out.
proof fn lemma_joined_digits(b: Seq<char>, i1: int, f0: int, i2: int)
    requires
        i1 == digits_end(b, 0),
        0 <= i1 <= f0 <= i2 <= b.len(),
        f0 > i1 ==> i2 == digits_end(b, f0),
        f0 == i1 ==> i2 == i1,
    ensures
        all_digits(b.take(i1) + b.subrange(f0, i2)),
{
    let ds = b.take(i1) + b.subrange(f0, i2);
    assert forall|k: int| 0 <= k < ds.len() implies is_digit(#[trigger] ds[k]) by {
        if k < i1 {
            lemma_digits_run(b, 0, k);
        } else {
            lemma_digits_run(b, f0, f0 + k - i1);
        }
    }
}

/// Milliseconds for the digits `d` with the point at `p`, capped; none of it
/// needs more than the digits and the point.
fn interval_from(d: &Vec<char>, p: i128) -> (r: u32)
    requires
        all_digits(d@),
    ensures
        ({
            let v = whole_part(d@, p as int) + if half_or_more(d@, p as int) {
                1nat
            } else {
                0nat
            };
            r == if v > u32::MAX {
                u32::MAX as nat
            } else {
                v
            }
        }),
{
    let w = whole_capped(d, p);
    let dl = d.len();
    let up = p >= 0 && p < dl as i128 && d[p as usize] >= '5';
    let total: u64 = w + if up {
        1
    } else {
        0
    };
    if total > 0xffff_ffffu64 {
        u32::MAX
    } else {
        total as u32
    }
}

/// Milliseconds for an interval token's number, `None` when `f64` would not
/// read it.
#[verifier::rlimit(100)]
#[verifier::spinoff_prover]
fn interval_ms(num: &Vec<char>, scale: u8) -> (r: Option<u32>)
    requires
        scale == 0 || scale == 3,
    ensures
        match r {
            Some(v) => amount_of(num@) matches Some(a) && v == interval_of(a, scale as int),
            None => amount_of(num@) is None,
        },
{
    let neg = num.len() > 0 && num[0] == '-';
    let b = if num.len() > 0 && (num[0] == '-' || num[0] == '+') {
        slice(num, 1, num.len())
    } else {
        slice(num, 0, num.len())
    };
    assert(num@.subrange(0, num@.len() as int) == num@);
    let bl = b.len();
    let f = fold_ascii(&b);
    if is(&f, "inf") || is(&f, "infinity") {
        return Some(
            if neg {
                0
            } else {
                u32::MAX
            },
        );
    }
    if is(&f, "nan") {
        return Some(0);
    }
    let i1 = digits_to(&b, 0);
    let f0 = if i1 < b.len() && b[i1] == '.' {
        i1 + 1
    } else {
        i1
    };
    let i2 = if f0 > i1 {
        digits_to(&b, f0)
    } else {
        i1
    };
    if i1 + (i2 - f0) == 0 {
        return None;
    }
    let mut d = slice(&b, 0, i1);
    let frac = slice(&b, f0, i2);
    crate::text::push_all(&mut d, &frac);
    assert(d@ == b@.take(i1 as int) + b@.subrange(f0 as int, i2 as int));
    proof {
        lemma_joined_digits(b@, i1 as int, f0 as int, i2 as int);
    }
    let mut e: u128 = 0;
    let mut e_neg = false;
    let ghost mut ee: int = 0;
    if i2 < b.len() {
        if !(b[i2] == 'e' || b[i2] == 'E') {
            return None;
        }
        let j = i2 + 1;
        let j2 = if j < b.len() && (b[j] == '+' || b[j] == '-') {
            j + 1
        } else {
            j
        };
        e_neg = j < b.len() && b[j] == '-';
        let k = digits_to(&b, j2);
        if !(k > j2 && k == b.len()) {
            return None;
        }
        assert forall|t: int| j2 <= t < k implies is_digit(#[trigger] b@[t]) by {
            lemma_digits_run(b@, j2 as int, t);
        }
        e = read_exponent(&b, j2, k);
        proof {
            ee = digits_value(b@.subrange(j2 as int, k as int));
            crate::text::lemma_digits_nonneg(b@.subrange(j2 as int, k as int));
        }
    }
    if neg {
        return Some(0);
    }
    Some(finite_interval(&d, i1, e, e_neg, scale, Ghost(ee)))
}

/// Milliseconds for the digits `d` with the point after `i1` and moved by
/// an exponent read as `e` (up to the cap) of value `ee`, `scale` places
/// more.
fn finite_interval(d: &Vec<char>, i1: usize, e: u128, e_neg: bool, scale: u8, Ghost(ee): Ghost<int>) -> (r: u32)
    requires
        all_digits(d@),
        d@.len() <= usize::MAX,
        i1 <= d@.len(),
        scale == 0 || scale == 3,
        ee >= 0,
        ee <= exponent_cap() ==> e == ee,
        ee > exponent_cap() ==> e > exponent_cap(),
        e <= exponent_cap() * 10 + 9,
    ensures
        r == interval_of(
            Amount::Finite {
                neg: false,
                digits: d@,
                point: i1 + if e_neg {
                    -ee
                } else {
                    ee
                },
            },
            scale as int,
        ),
{
    let p: i128 = if e_neg {
        i1 as i128 - e as i128 + scale as i128
    } else {
        i1 as i128 + e as i128 + scale as i128
    };
    let r = interval_from(d, p);
    proof {
        let pe: int = i1 + (if e_neg {
            -ee
        } else {
            ee
        }) + scale;
        if ee <= exponent_cap() {
            assert(p == pe);
        } else if e_neg {
            assert(p < 0 && pe < 0);
        } else {
            assert(p >= d@.len() + 10 && pe >= d@.len() + 10);
            lemma_far_whole(d@, p as int);
            lemma_far_whole(d@, pe);
        }
    }
    r
}

proof fn lemma_digits_run(s: Seq<char>, from: int, k: int)
    requires
        0 <= from <= k < digits_end(s, from),
    ensures
        is_digit(s[k]),
    decreases digits_end(s, from) - from,
{
    if k > from {
        lemma_digits_run(s, from + 1, k);
    }
}

/// Far enough past the digits, the whole part is either nothing or more than
/// any interval.
proof fn lemma_far_whole(d: Seq<char>, p: int)
    requires
        all_digits(d),
        p >= d.len() + 10,
    ensures
        digits_value(d) == 0 ==> whole_part(d, p) == 0,
        digits_value(d) != 0 ==> whole_part(d, p) > u32::MAX,
        !half_or_more(d, p),
{
    crate::text::lemma_digits_nonneg(d);
    lemma_pow10_big((p - d.len()) as nat);
    let v = digits_value(d) as nat;
    let w = pow10((p - d.len()) as nat);
    if v != 0 {
        assert(v * w >= w) by (nonlinear_arith)
            requires
                v >= 1,
        {
        }
    }
}

/// `whole_part(d, p)`, capped.
fn whole_capped(d: &Vec<char>, p: i128) -> (r: u64)
    requires
        all_digits(d@),
    ensures
        r == capped(whole_part(d@, p as int)),
{
    if p <= 0 {
        return 0;
    }
    let n = d.len();
    let upto: usize = if p < n as i128 {
        p as usize
    } else {
        n
    };
    let lim: u64 = 0x1_0000_0000;
    let mut acc: u64 = 0;
    let mut i: usize = 0;
    while i < upto
        invariant
            lim == 0x1_0000_0000,
            upto <= n == d@.len(),
            all_digits(d@),
            i <= upto,
            acc == capped(digits_value(d@.take(i as int)) as nat),
            digits_value(d@.take(i as int)) >= 0,
        decreases upto - i,
    {
        let ghost before = digits_value(d@.take(i as int));
        assert(d@.take(i + 1).drop_last() == d@.take(i as int));
        assert(is_digit(d@[i as int]));
        let dg = ((d[i] as u32) - 48) as u64;
        assert(digits_value(d@.take(i + 1)) == before * 10 + dg);
        acc = if acc >= lim {
            lim
        } else {
            let x = acc * 10 + dg;
            if x > 0xffff_ffffu64 {
                lim
            } else {
                x
            }
        };
        i += 1;
    }
    if p <= n as i128 {
        assert(upto == p);
        return acc;
    }
    assert(d@.take(n as int) == d@);
    let ghost v = digits_value(d@) as nat;
    assert(pow10(0) == 1);
    assert(acc == capped(v * pow10(0)));
    let mut j: i128 = 0;
    let extra: i128 = p - n as i128;
    while j < extra && acc != 0 && acc < lim
        invariant
            lim == 0x1_0000_0000,
            v == digits_value(d@) as nat,
            0 <= j <= extra,
            acc == capped(v * pow10(j as nat)),
        decreases extra - j,
    {
        let ghost w = pow10(j as nat);
        assert(pow10((j + 1) as nat) == 10 * w);
        assert(v * (10 * w) == (v * w) * 10) by (nonlinear_arith);
        let x = acc * 10;
        acc = if x > 0xffff_ffffu64 {
            lim
        } else {
            x
        };
        j += 1;
    }
    proof {
        let wj = pow10(j as nat);
        let we = pow10(extra as nat);
        lemma_pow10_grows(j as nat, extra as nat);
        if acc == 0 {
            assert(v * wj == 0);
            assert(v == 0) by (nonlinear_arith)
                requires
                    v * wj == 0,
                    wj >= 1,
            {
            }
            assert(v * we == 0) by (nonlinear_arith)
                requires
                    v == 0,
            {
            }
        } else if acc >= lim {
            assert(v * we >= v * wj) by (nonlinear_arith)
                requires
                    we >= wj,
            {
            }
        }
    }
    acc
}

/// Parses frontmatter `autoplay:`. A bare number is seconds; `ms` is
/// milliseconds; the interval is at least 100ms.
pub fn parse_autoplay(src: &str) -> (r: Result<Autoplay, String>)
    ensures
        match r {
            Ok(a) => autoplay_of(src@) == Ok::<Autoplay, Seq<char>>(a),
            Err(e) => autoplay_of(src@) == Err::<Autoplay, Seq<char>>(e@),
        },
{
    let toks = words(&chars_of(src));
    let ghost tv = toks@.map_values(|w: Vec<char>| w@);
    let mut interval: Option<u32> = None;
    let mut looped = false;
    let ms = chars_of("ms");
    let s = chars_of("s");
    proof {
        reveal_strlit("ms");
        reveal_strlit("s");
    }
    let mut i: usize = 0;
    while i < toks.len()
        invariant
            i <= toks@.len(),
            tv == toks@.map_values(|w: Vec<char>| w@),
            tv == words_of(src@),
            ms@ == "ms"@,
            ms@.len() == 2,
            s@ == "s"@,
            s@.len() == 1,
            autoplay_from(tv, 0, None, false) == autoplay_from(
                tv,
                i as int,
                match interval {
                    Some(v) => Some(v as nat),
                    None => None,
                },
                looped,
            ),
        decreases toks@.len() - i,
    {
        let tok = &toks[i];
        assert(tv[i as int] == tok@);
        if is(tok, "loop") {
            looped = true;
        } else {
            let (num, scale): (Vec<char>, u8) = if ends_with(tok, &ms) {
                assert(tok@.subrange(0, tok@.len() - 2) == tok@.take(tok@.len() - 2));
                (slice(tok, 0, tok.len() - 2), 0)
            } else if ends_with(tok, &s) {
                assert(tok@.subrange(0, tok@.len() - 1) == tok@.take(tok@.len() - 1));
                (slice(tok, 0, tok.len() - 1), 3)
            } else {
                (tok.clone(), 3)
            };
            assert(tok@ != "loop"@);
            assert(num@ == (if has_suffix(tok@, "ms"@) {
                tok@.take(tok@.len() - 2)
            } else if has_suffix(tok@, "s"@) {
                tok@.take(tok@.len() - 1)
            } else {
                tok@
            }));
            assert(scale as int == (if has_suffix(tok@, "ms"@) {
                0int
            } else if has_suffix(tok@, "s"@) {
                3int
            } else {
                3int
            }));
            match interval_ms(&num, scale) {
                Some(v) => interval = Some(v),
                None => {
                    let mut msg: Vec<char> = Vec::new();
                    push_str(&mut msg, "unexpected token `");
                    push_all(&mut msg, tok);
                    push_str(&mut msg, "`; ");
                    push_str(&mut msg, "write `autoplay: 8s` or `autoplay: 8s loop`");
                    return Err(string_of(msg.as_slice()));
                },
            }
        }
        i += 1;
    }
    let v = match interval {
        Some(v) => v,
        None => {
            let mut msg: Vec<char> = Vec::new();
            push_str(&mut msg, "no interval; ");
            push_str(&mut msg, "write `autoplay: 8s` or `autoplay: 8s loop`");
            return Err(string_of(msg.as_slice()));
        },
    };
    if v < 100 {
        let mut msg: Vec<char> = Vec::new();
        push_str(&mut msg, "`");
        push_str(&mut msg, src);
        push_str(&mut msg, "` is shorter than any page turn; 100ms is the floor");
        return Err(string_of(msg.as_slice()));
    }
    Ok(Autoplay { interval_ms: v, looped })
}

} // verus!
