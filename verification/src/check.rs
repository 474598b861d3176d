//! The pieces of `mirzam check` that decide rather than run: naming a build
//! warning's family, splicing the check script into a page, reading the
//! result back out of the dumped DOM, and the final verdict.
use vstd::prelude::*;
use vstd::string::StringSliceAdditionalSpecFns;
use crate::pipeline::{warning_kind, warning_table};
use crate::text::{
    chars_of, contains, decimal, find_from, first_at, from_utf8_lossy, last_at, lemma_first_at_some,
    lemma_last_at_in, occurs, occurs_at, push_all, push_decimal, push_str, rfind, slice, string_of, utf8_lossy,
};

verus! {

// ---------------------------------------------------------------------------
// Build warnings by family
// ---------------------------------------------------------------------------

/// The kind of the first needle of `table` from `i` on that `m` contains,
/// or `build.other`.
pub open spec fn kind_in(table: Seq<(Seq<char>, Seq<char>)>, m: Seq<char>, i: int) -> Seq<char>
    decreases table.len() - i,
{
    if i < 0 || i >= table.len() {
        "build.other"@
    } else if contains(m, table[i].0) {
        table[i].1
    } else {
        kind_in(table, m, i + 1)
    }
}

/// Where the first needle of `table` from `i` on that `m` contains stands;
/// the table's length when `m` contains none of them.
pub open spec fn first_hit(table: Seq<(Seq<char>, Seq<char>)>, m: Seq<char>, i: int) -> int
    decreases table.len() - i,
{
    if i < 0 || i >= table.len() {
        table.len() as int
    } else if contains(m, table[i].0) {
        i
    } else {
        first_hit(table, m, i + 1)
    }
}

/// `kind_in` gives the kind of the first needle from `i` on that `m`
/// contains, and `build.other` when it contains none of them.
pub proof fn lemma_kind_in_first(table: Seq<(Seq<char>, Seq<char>)>, m: Seq<char>, i: int)
    requires
        0 <= i <= table.len(),
    ensures
        i <= first_hit(table, m, i) <= table.len(),
        forall|k: int| i <= k < first_hit(table, m, i) ==> !contains(m, #[trigger] table[k].0),
        first_hit(table, m, i) < table.len() ==> contains(m, table[first_hit(table, m, i)].0)
            && kind_in(table, m, i) == table[first_hit(table, m, i)].1,
        first_hit(table, m, i) == table.len() ==> kind_in(table, m, i) == "build.other"@,
    decreases table.len() - i,
{
    if i < table.len() {
        lemma_kind_in_first(table, m, i + 1);
    }
}

pub open spec fn pair_views(table: Seq<(&'static str, &'static str)>) -> Seq<(Seq<char>, Seq<char>)> {
    table.map_values(|p: (&'static str, &'static str)| (p.0@, p.1@))
}

/// The kind of the first needle in `table` that `message` contains.
pub fn first_kind(message: &str, table: &[(&'static str, &'static str)]) -> (r: &'static str)
    ensures
        r@ == kind_in(pair_views(table@), message@, 0),
{
    let m = chars_of(message);
    let mut i: usize = 0;
    while i < table.len()
        invariant
            i <= table@.len(),
            m@ == message@,
            kind_in(pair_views(table@), message@, 0) == kind_in(pair_views(table@), message@, i as int),
        decreases table@.len() - i,
    {
        let needle = chars_of(table[i].0);
        if occurs(&m, &needle) {
            return table[i].1;
        }
        i += 1;
    }
    "build.other"
}

/// A stable name for what a build warning is about: the one the build
/// and the language server give it, from the one table of needles
/// ([`warning_kind`](crate::pipeline::warning_kind)).
pub fn build_kind(message: &str) -> (r: &'static str)
    ensures
        r@ == kind_in(warning_table(), message@, 0),
{
    warning_kind(message)
}

// ---------------------------------------------------------------------------
// Lines of a source file
// ---------------------------------------------------------------------------

/// How many `\n` bytes there are in `b`.
pub open spec fn newlines(b: Seq<u8>) -> nat
    decreases b.len(),
{
    if b.len() == 0 {
        0
    } else {
        newlines(b.drop_last()) + if b.last() == 10 {
            1nat
        } else {
            0nat
        }
    }
}

proof fn lemma_newlines_bound(b: Seq<u8>)
    ensures
        newlines(b) <= b.len(),
    decreases b.len(),
{
    if b.len() > 0 {
        lemma_newlines_bound(b.drop_last());
    }
}

/// The line, counted from one, that byte `offset` of `text` falls on. An
/// offset past the end counts every line; one in the middle of a character
/// still counts the lines before it.
pub fn line_of_offset(text: &str, offset: usize) -> (line: usize)
    requires
        text.spec_bytes().len() < usize::MAX,
    ensures
        line == newlines(
            text.spec_bytes().take(
                if offset < text.spec_bytes().len() {
                    offset as int
                } else {
                    text.spec_bytes().len() as int
                },
            ),
        ) + 1,
{
    let bytes = text.as_bytes();
    let upto = if offset < bytes.len() {
        offset
    } else {
        bytes.len()
    };
    let mut count: usize = 0;
    let mut i: usize = 0;
    while i < upto
        invariant
            upto <= bytes@.len() < usize::MAX,
            bytes@ == text.spec_bytes(),
            i <= upto,
            count == newlines(bytes@.take(i as int)),
            count <= i,
        decreases upto - i,
    {
        assert(bytes@.take(i + 1).drop_last() == bytes@.take(i as int));
        if bytes[i] == 10u8 {
            count += 1;
        }
        i += 1;
    }
    count + 1
}

// ---------------------------------------------------------------------------
// The check page
// ---------------------------------------------------------------------------

/// `html` with `script` just before its last `</body>`, or at its end when it
/// has none.
pub open spec fn injected(html: Seq<char>, script: Seq<char>) -> Seq<char> {
    match last_at(html, "</body>"@, html.len() as int) {
        Some(p) => html.take(p) + script + html.skip(p),
        None => html + script,
    }
}

/// Splices `script` in just before the page's closing `</body>`, found from
/// the end so that a `</body>` quoted earlier in the page is left alone.
pub fn inject_before_closing_body(html: &str, script: &str) -> (r: String)
    ensures
        r@ == injected(html@, script@),
{
    let h = chars_of(html);
    let close = chars_of("</body>");
    let mut out: Vec<char> = Vec::new();
    match rfind(&h, &close) {
        Some(pos) => {
            proof {
                lemma_last_at_in(h@, close@, h@.len() as int);
            }
            let before = slice(&h, 0, pos);
            let after = slice(&h, pos, h.len());
            push_all(&mut out, &before);
            push_str(&mut out, script);
            push_all(&mut out, &after);
        },
        None => {
            push_all(&mut out, &h);
            push_str(&mut out, script);
        },
    }
    string_of(out.as_slice())
}

/// Where the check left its answer: the text of the element with the
/// marker's id, up to the next tag.
pub open spec fn payload_spec(dom: Seq<char>) -> Option<Seq<char>> {
    match first_at(dom, "id=\"mz-check-result\""@, 0) {
        None => None,
        Some(m) => match first_at(dom, ">"@, m) {
            None => None,
            Some(g) => match first_at(dom, "<"@, g + 1) {
                None => None,
                Some(e) => Some(dom.subrange(g + 1, e)),
            },
        },
    }
}

pub open spec fn no_result_message() -> Seq<char> {
    "Chromium produced no check result - the injected script may not have run"@
}

/// Pulls the encoded payload out of the dumped DOM, found by the marker's id.
pub fn extract_result_payload(dom: &str) -> (r: Result<String, String>)
    ensures
        match r {
            Ok(p) => payload_spec(dom@) == Some(p@),
            Err(e) => payload_spec(dom@) is None && e@ == no_result_message(),
        },
{
    let d = chars_of(dom);
    let dl = d.len();
    let marker = chars_of("id=\"mz-check-result\"");
    let gt = chars_of(">");
    let lt = chars_of("<");
    proof {
        reveal_strlit(">");
        reveal_strlit("<");
    }
    assert(gt@.len() == 1);
    assert(lt@.len() == 1);
    let no_result = "Chromium produced no check result - the injected script may not have run";
    let m = match find_from(&d, &marker, 0) {
        Some(m) => m,
        None => return Err(no_result.to_owned()),
    };
    let g = match find_from(&d, &gt, m) {
        Some(g) => g,
        None => return Err(no_result.to_owned()),
    };
    proof {
        lemma_first_at_some(d@, marker@, 0);
        lemma_first_at_some(d@, gt@, m as int);
    }
    let e = match find_from(&d, &lt, g + 1) {
        Some(e) => e,
        None => return Err(no_result.to_owned()),
    };
    proof {
        lemma_first_at_some(d@, lt@, g + 1);
    }
    Ok(string_of(slice(&d, g + 1, e).as_slice()))
}

// ---------------------------------------------------------------------------
// Percent-decoding
// ---------------------------------------------------------------------------

/// A hex digit's value.
pub open spec fn hex_value(b: u8) -> Option<u8> {
    if 48 <= b <= 57 {
        Some((b - 48) as u8)
    } else if 97 <= b <= 102 {
        Some((b - 87) as u8)
    } else if 65 <= b <= 70 {
        Some((b - 55) as u8)
    } else {
        None
    }
}

/// The byte two characters after a `%` spell, as `u8::from_str_radix(_, 16)`
/// reads them: two hex digits, or a `+` and one.
pub open spec fn escaped(h1: u8, h2: u8) -> Option<u8> {
    match hex_value(h2) {
        None => None,
        Some(lo) => if h1 == 43 {
            Some(lo)
        } else {
            match hex_value(h1) {
                None => None,
                Some(hi) => Some((hi * 16 + lo) as u8),
            }
        },
    }
}

/// `b` with every `%XX` escape replaced by the byte it spells; a `%` that
/// spells nothing stays as it is.
pub open spec fn unescape(b: Seq<u8>) -> Seq<u8>
    decreases b.len(),
{
    if b.len() == 0 {
        Seq::empty()
    } else if b[0] == 37 && b.len() >= 3 && escaped(b[1], b[2]) is Some {
        seq![escaped(b[1], b[2])->0] + unescape(b.skip(3))
    } else {
        seq![b[0]] + unescape(b.skip(1))
    }
}

fn hex(b: u8) -> (r: Option<u8>)
    ensures
        r == hex_value(b),
{
    if 48 <= b && b <= 57 {
        Some(b - 48)
    } else if 97 <= b && b <= 102 {
        Some(b - 87)
    } else if 65 <= b && b <= 70 {
        Some(b - 55)
    } else {
        None
    }
}

pub(crate) fn escape_at(h1: u8, h2: u8) -> (r: Option<u8>)
    ensures
        r == escaped(h1, h2),
{
    match hex(h2) {
        None => None,
        Some(lo) => if h1 == 43 {
            Some(lo)
        } else {
            match hex(h1) {
                None => None,
                Some(hi) => Some(hi * 16 + lo),
            }
        },
    }
}

/// Undoes `encodeURIComponent`: `%XX` escapes back to bytes, the bytes read
/// as UTF-8 with any invalid sequence replaced.
pub fn percent_decode(s: &str) -> (r: String)
    ensures
        r@ == utf8_lossy(unescape(s.spec_bytes())),
{
    let bytes = s.as_bytes();
    let mut out: Vec<u8> = Vec::new();
    let mut i: usize = 0;
    assert(bytes@.skip(0) == bytes@);
    while i < bytes.len()
        invariant
            i <= bytes@.len(),
            bytes@ == s.spec_bytes(),
            out@ + unescape(bytes@.skip(i as int)) == unescape(bytes@),
        decreases bytes@.len() - i,
    {
        let rest = Ghost(bytes@.skip(i as int));
        if bytes[i] == 37u8 && bytes.len() - i >= 3 {
            if let Some(byte) = escape_at(bytes[i + 1], bytes[i + 2]) {
                assert(rest@.skip(3) == bytes@.skip(i + 3));
                assert(unescape(rest@) == seq![byte] + unescape(rest@.skip(3)));
                out.push(byte);
                assert(out@ + unescape(bytes@.skip(i + 3)) =~= unescape(bytes@));
                i += 3;
                continue;
            }
        }
        assert(rest@.skip(1) == bytes@.skip(i + 1));
        assert(unescape(rest@) == seq![bytes@[i as int]] + unescape(rest@.skip(1)));
        out.push(bytes[i]);
        assert(out@ + unescape(bytes@.skip(i + 1)) =~= unescape(bytes@));
        i += 1;
    }
    assert(bytes@.skip(i as int) == Seq::<u8>::empty());
    assert(out@ =~= unescape(bytes@));
    from_utf8_lossy(out.as_slice())
}

/// An uppercase hex digit, as `encodeURIComponent` writes one.
pub open spec fn upper_hex(v: u8) -> u8 {
    if v < 10 {
        (48 + v) as u8
    } else {
        (55 + v) as u8
    }
}

/// Every byte written as `%XX`.
pub open spec fn percent_encoded(b: Seq<u8>) -> Seq<u8>
    decreases b.len(),
{
    if b.len() == 0 {
        Seq::empty()
    } else {
        seq![37u8, upper_hex(b[0] / 16), upper_hex(b[0] % 16)] + percent_encoded(b.skip(1))
    }
}

/// Decoding undoes encoding: bytes written as `%XX` escapes come back as
/// they were.
pub proof fn lemma_percent_round_trip(b: Seq<u8>)
    ensures
        unescape(percent_encoded(b)) == b,
    decreases b.len(),
{
    if b.len() > 0 {
        let e = percent_encoded(b);
        lemma_percent_round_trip(b.skip(1));
        assert(e.skip(3) =~= percent_encoded(b.skip(1)));
        assert(escaped(e[1], e[2]) == Some(b[0]));
        assert(seq![b[0]] + b.skip(1) =~= b);
    }
}

/// Bytes with no `%` among them come through decoding unchanged.
pub proof fn lemma_plain_text_is_kept(b: Seq<u8>)
    requires
        forall|i: int| 0 <= i < b.len() ==> b[i] != 37,
    ensures
        unescape(b) == b,
    decreases b.len(),
{
    if b.len() > 0 {
        lemma_plain_text_is_kept(b.skip(1));
        assert(seq![b[0]] + b.skip(1) =~= b);
    }
}

// ---------------------------------------------------------------------------
// The verdict
// ---------------------------------------------------------------------------

pub open spec fn problems_message(n: nat) -> Seq<char> {
    decimal(n) + " problem(s). Widen the band in the pane block, shorten the text, or move the content to another pane. See docs/layout.md."@
}

/// The exit status of a check that found `problems` problems: success only
/// when there are none.
pub fn verdict(problems: usize) -> (r: Result<(), String>)
    ensures
        problems == 0 <==> r is Ok,
        r matches Err(e) ==> e@ == problems_message(problems as nat),
{
    if problems == 0 {
        return Ok(());
    }
    let mut msg: Vec<char> = Vec::new();
    push_decimal(&mut msg, problems as u64);
    push_str(
        &mut msg,
        " problem(s). Widen the band in the pane block, shorten the text, or move the content to another pane. See docs/layout.md.",
    );
    Err(string_of(msg.as_slice()))
}

} // verus!
