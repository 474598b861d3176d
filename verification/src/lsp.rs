//! What the editor integration decides: how a message is framed on the
//! wire, what each message does to the session and what goes back, which
//! file a `file:` URI names and the URI of a file, where a protocol position
//! (a line and a column in UTF-16 code units) falls in a buffer, what the
//! cursor sits in and what completes there. The JSON, and the build behind
//! each diagnostic and each answer, are the caller's.
use vstd::prelude::*;
use vstd::string::StringSliceAdditionalSpecFns;
use vstd::utf8::{encode_utf8, valid_utf8};
use crate::annot::ascii_lowered;
use crate::chart::texts;
use crate::check::{escape_at, escaped, kind_in, upper_hex};
use crate::pdfimport::{file_name, file_name_of};
use crate::pipeline::{warning_kind, warning_table};
use crate::quotes::lowercase_ascii;
use crate::text::{
    byte_offset, byte_offset_in, chars_of, first_at, is, is_utf8, last_at, lemma_encode_concat,
    lemma_first_at_some, lemma_last_at_in, lemma_line_end, line_end, next_line, push_all, push_str,
    rfind, slice, string_of, trim, trimmed, utf8_string, join, push_joined_chars, words, words_of,
    line_at, has_prefix, has_suffix, starts_with, ends_with, occurs_at, lead, trail, lemma_lead,
    lemma_trail, decimal, unsigned_value, parse_unsigned, push_decimal, trim_start,
    trimmed_start, contains, occurs, is_ws, is_space, read_line,
};

verus! {

// ---------------------------------------------------------------------------
// URIs
// ---------------------------------------------------------------------------

/// `out` in front of whatever `o` holds.
pub open spec fn prefixed(out: Seq<u8>, o: Option<Seq<u8>>) -> Option<Seq<u8>> {
    match o {
        Some(r) => Some(out + r),
        None => None,
    }
}

/// `v` in front of whatever `o` holds.
pub open spec fn pushed(v: u8, o: Option<Seq<u8>>) -> Option<Seq<u8>> {
    prefixed(seq![v], o)
}

proof fn lemma_prefixed_push(out: Seq<u8>, v: u8, o: Option<Seq<u8>>)
    ensures
        prefixed(out, pushed(v, o)) == prefixed(out.push(v), o),
{
    if let Some(r) = o {
        assert(out + (seq![v] + r) =~= out.push(v) + r);
    }
}

proof fn lemma_prefixed_empty(o: Option<Seq<u8>>)
    ensures
        prefixed(Seq::empty(), o) == o,
{
    if let Some(r) = o {
        assert(Seq::<u8>::empty() + r =~= r);
    }
}

/// The bytes of `file:///`.
pub open spec fn file_prefix() -> Seq<u8> {
    seq![102u8, 105, 108, 101, 58, 47, 47, 47]
}

/// `b` with every `%XX` escape undone, as an editor's URI is read: the two
/// bytes after a `%` have to be UTF-8 (or the whole URI is given up), and
/// when they spell no byte (`u8::from_str_radix(_, 16)`) the `%` stays.
pub open spec fn uri_unescape(b: Seq<u8>) -> Option<Seq<u8>>
    decreases b.len(),
{
    if b.len() == 0 {
        Some(Seq::empty())
    } else if b[0] == 37 && b.len() >= 3 {
        if !valid_utf8(b.subrange(1, 3)) {
            None
        } else {
            match escaped(b[1], b[2]) {
                Some(v) => pushed(v, uri_unescape(b.skip(3))),
                None => pushed(37u8, uri_unescape(b.skip(1))),
            }
        }
    } else {
        pushed(b[0], uri_unescape(b.skip(1)))
    }
}

/// The bytes of the path a URI names: only `file:///...` names one here
/// (`file://host/...` is somebody else's file), its escapes undone, and a
/// Windows drive (`c:` or `c|` after the slash) kept without the slash the
/// URI needed.
pub open spec fn uri_path(u: Seq<u8>) -> Option<Seq<u8>> {
    if u.len() < 8 || u.subrange(0, 8) != file_prefix() {
        None
    } else {
        match uri_unescape(u.skip(8)) {
            None => None,
            Some(d) => if !valid_utf8(d) {
                None
            } else if d.len() > 1 && (d[1] == 58 || d[1] == 124) {
                Some(d)
            } else {
                Some(seq![47u8] + d)
            },
        }
    }
}

/// `file:///a/b.md` → `/a/b.md`, undoing the percent-encoding an editor
/// applies to spaces and to anything else outside the unreserved set.
/// Anything that is not a `file:` URI is not a file this server can read,
/// and gives `None` rather than a path that happens to parse.
pub fn path_of_uri(uri: Option<&str>) -> (r: Option<String>)
    ensures
        match uri {
            None => r is None,
            Some(u) => match uri_path(u.spec_bytes()) {
                None => r is None,
                Some(p) => r matches Some(s) && encode_utf8(s@) == p,
            },
        },
{
    let u = match uri {
        Some(u) => u,
        None => return None,
    };
    let b = u.as_bytes();
    let n = b.len();
    if n < 8 || b[0] != 102 || b[1] != 105 || b[2] != 108 || b[3] != 101 || b[4] != 58 || b[5]
        != 47 || b[6] != 47 || b[7] != 47 {
        proof {
            if n >= 8 {
                assert(b@.subrange(0, 8)[0] == b@[0]);
                assert(b@.subrange(0, 8)[1] == b@[1]);
                assert(b@.subrange(0, 8)[2] == b@[2]);
                assert(b@.subrange(0, 8)[3] == b@[3]);
                assert(b@.subrange(0, 8)[4] == b@[4]);
                assert(b@.subrange(0, 8)[5] == b@[5]);
                assert(b@.subrange(0, 8)[6] == b@[6]);
                assert(b@.subrange(0, 8)[7] == b@[7]);
            }
        }
        return None;
    }
    assert(b@.subrange(0, 8) =~= file_prefix());
    let mut out: Vec<u8> = Vec::new();
    let mut i: usize = 8;
    assert(out@ =~= Seq::<u8>::empty());
    proof {
        lemma_prefixed_empty(uri_unescape(b@.skip(8)));
    }
    while i < n
        invariant
            8 <= i <= n == b@.len(),
            b@ == u.spec_bytes(),
            uri == Some(u),
            b@.subrange(0, 8) == file_prefix(),
            uri_unescape(b@.skip(8)) == prefixed(out@, uri_unescape(b@.skip(i as int))),
        decreases n - i,
    {
        let ghost rest = b@.skip(i as int);
        assert(rest[0] == b@[i as int]);
        if b[i] == 37 && n - i >= 3 {
            let pair = vstd::slice::slice_subrange(b, i + 1, i + 3);
            assert(rest.subrange(1, 3) =~= pair@);
            assert(rest[1] == b@[i + 1]);
            assert(rest[2] == b@[i + 2]);
            if !is_utf8(pair) {
                assert(uri_unescape(rest) is None);
                return None;
            }
            match escape_at(b[i + 1], b[i + 2]) {
                Some(v) => {
                    assert(rest.skip(3) =~= b@.skip(i + 3));
                    assert(uri_unescape(rest) == pushed(v, uri_unescape(b@.skip(i + 3))));
                    proof {
                        lemma_prefixed_push(out@, v, uri_unescape(b@.skip(i + 3)));
                    }
                    out.push(v);
                    i += 3;
                },
                None => {
                    assert(rest.skip(1) =~= b@.skip(i + 1));
                    assert(uri_unescape(rest) == pushed(37u8, uri_unescape(b@.skip(i + 1))));
                    proof {
                        lemma_prefixed_push(out@, 37u8, uri_unescape(b@.skip(i + 1)));
                    }
                    out.push(37);
                    i += 1;
                },
            }
        } else {
            let byte = b[i];
            assert(rest.skip(1) =~= b@.skip(i + 1));
            assert(uri_unescape(rest) == pushed(byte, uri_unescape(b@.skip(i + 1))));
            proof {
                lemma_prefixed_push(out@, byte, uri_unescape(b@.skip(i + 1)));
            }
            out.push(byte);
            i += 1;
        }
    }
    assert(b@.skip(n as int) =~= Seq::<u8>::empty());
    assert(out@ + Seq::<u8>::empty() =~= out@);
    assert(uri_unescape(b@.skip(8)) == Some(out@));
    let drive = out.len() > 1 && (out[1] == 58 || out[1] == 124);
    let ghost d = out@;
    match utf8_string(out) {
        None => None,
        Some(s) => {
            if drive {
                Some(s)
            } else {
                let mut cs = chars_of("/");
                push_str(&mut cs, s.as_str());
                proof {
                    reveal_strlit("/");
                    lemma_encode_concat("/"@, s@);
                    vstd::utf8::is_ascii_chars_encode_utf8("/"@);
                    assert(encode_utf8("/"@) =~= seq![47u8]);
                }
                Some(string_of(cs.as_slice()))
            }
        },
    }
}

/// Bytes a `file:` URI writes as they are.
pub open spec fn unreserved(b: u8) -> bool {
    ||| (65 <= b <= 90)
    ||| (97 <= b <= 122)
    ||| (48 <= b <= 57)
    ||| b == 45
    ||| b == 46
    ||| b == 95
    ||| b == 126
    ||| b == 47
    ||| b == 58
}

/// Every byte that is not unreserved written as `%XX`, in capitals.
pub open spec fn uri_escaped(b: Seq<u8>) -> Seq<char>
    decreases b.len(),
{
    if b.len() == 0 {
        Seq::empty()
    } else {
        (if unreserved(b[0]) {
            seq![b[0] as char]
        } else {
            seq!['%', upper_hex(b[0] / 16) as char, upper_hex(b[0] % 16) as char]
        }) + uri_escaped(b.skip(1))
    }
}

/// The `file:` URI of a path, given the path's bytes.
pub open spec fn uri_text(b: Seq<u8>) -> Seq<char> {
    "file://"@ + (if b.len() > 0 && b[0] == 47 {
        Seq::empty()
    } else {
        "/"@
    }) + uri_escaped(b)
}

fn upper_hex_char(v: u8) -> (c: char)
    requires
        v < 16,
    ensures
        c == upper_hex(v) as char,
{
    if v < 10 {
        (48 + v) as char
    } else {
        (55 + v) as char
    }
}

/// The URI an editor names a file by: `file://`, the slash an absolute path
/// already has (or one put in front), then the path's bytes with everything
/// outside the unreserved set escaped.
pub fn uri_of_path(path: &str) -> (r: String)
    ensures
        r@ == uri_text(path.spec_bytes()),
{
    let b = path.as_bytes();
    let n = b.len();
    let mut out = chars_of("file://");
    if n == 0 || b[0] != 47 {
        out.push('/');
    }
    proof {
        reveal_strlit("/");
    }
    let ghost start = out@;
    assert(start == "file://"@ + (if b@.len() > 0 && b@[0] == 47 {
        Seq::empty()
    } else {
        "/"@
    }));
    let mut i: usize = 0;
    assert(b@.skip(0) =~= b@);
    while i < n
        invariant
            i <= n == b@.len(),
            b@ == path.spec_bytes(),
            out@ + uri_escaped(b@.skip(i as int)) == start + uri_escaped(b@),
        decreases n - i,
    {
        let ghost before = out@;
        let byte = b[i];
        let ghost rest = b@.skip(i as int);
        assert(rest.skip(1) =~= b@.skip(i + 1));
        assert(rest[0] == byte);
        if (65 <= byte && byte <= 90) || (97 <= byte && byte <= 122) || (48 <= byte && byte <= 57)
            || byte == 45 || byte == 46 || byte == 95 || byte == 126 || byte == 47 || byte == 58 {
            out.push(byte as char);
            assert(before + uri_escaped(rest) =~= out@ + uri_escaped(b@.skip(i + 1)));
        } else {
            out.push('%');
            out.push(upper_hex_char(byte / 16));
            out.push(upper_hex_char(byte % 16));
            assert(before + uri_escaped(rest) =~= out@ + uri_escaped(b@.skip(i + 1)));
        }
        i += 1;
    }
    assert(b@.skip(n as int) =~= Seq::<u8>::empty());
    assert(out@ =~= start + uri_escaped(b@));
    string_of(out.as_slice())
}


// ---------------------------------------------------------------------------
// A path's URI names the path again
// ---------------------------------------------------------------------------

/// The bytes `uri_escaped` writes.
pub open spec fn uri_escaped_bytes(b: Seq<u8>) -> Seq<u8>
    decreases b.len(),
{
    if b.len() == 0 {
        Seq::empty()
    } else {
        (if unreserved(b[0]) {
            seq![b[0]]
        } else {
            seq![37u8, upper_hex(b[0] / 16), upper_hex(b[0] % 16)]
        }) + uri_escaped_bytes(b.skip(1))
    }
}

proof fn lemma_escaped_is_ascii(b: Seq<u8>)
    ensures
        vstd::utf8::is_ascii_chars(uri_escaped(b)),
        encode_utf8(uri_escaped(b)) == uri_escaped_bytes(b),
    decreases b.len(),
{
    if b.len() > 0 {
        lemma_escaped_is_ascii(b.skip(1));
        let head: Seq<char> = if unreserved(b[0]) {
            seq![b[0] as char]
        } else {
            seq!['%', upper_hex(b[0] / 16) as char, upper_hex(b[0] % 16) as char]
        };
        let head_bytes: Seq<u8> = if unreserved(b[0]) {
            seq![b[0]]
        } else {
            seq![37u8, upper_hex(b[0] / 16), upper_hex(b[0] % 16)]
        };
        assert(uri_escaped(b) == head + uri_escaped(b.skip(1)));
        assert(vstd::utf8::is_ascii_chars(head));
        vstd::utf8::is_ascii_chars_encode_utf8(head);
        assert(encode_utf8(head) =~= head_bytes);
        lemma_encode_concat(head, uri_escaped(b.skip(1)));
        assert forall|i: int| 0 <= i < uri_escaped(b).len() implies '\0' <= #[trigger] uri_escaped(
            b,
        )[i] <= '\u{7f}' by {
            if i < head.len() {
            } else {
                assert(uri_escaped(b)[i] == uri_escaped(b.skip(1))[i - head.len()]);
            }
        }
    }
}

proof fn lemma_two_ascii_bytes_are_utf8(x: u8, y: u8)
    requires
        x < 128,
        y < 128,
    ensures
        valid_utf8(seq![x, y]),
{
    let cs = seq![x as char, y as char];
    assert(vstd::utf8::is_ascii_chars(cs));
    vstd::utf8::is_ascii_chars_encode_utf8(cs);
    vstd::utf8::encode_utf8_valid_utf8(cs);
    assert(encode_utf8(cs) =~= seq![x, y]);
}

proof fn lemma_unescape_undoes_escape(b: Seq<u8>)
    ensures
        uri_unescape(uri_escaped_bytes(b)) == Some(b),
    decreases b.len(),
{
    if b.len() > 0 {
        lemma_unescape_undoes_escape(b.skip(1));
        let e = uri_escaped_bytes(b);
        if unreserved(b[0]) {
            assert(e.skip(1) =~= uri_escaped_bytes(b.skip(1)));
            assert(seq![b[0]] + b.skip(1) =~= b);
        } else {
            assert(e.skip(3) =~= uri_escaped_bytes(b.skip(1)));
            lemma_two_ascii_bytes_are_utf8(e[1], e[2]);
            assert(e.subrange(1, 3) =~= seq![e[1], e[2]]);
            assert(escaped(e[1], e[2]) == Some(b[0]));
            assert(seq![b[0]] + b.skip(1) =~= b);
        }
    }
}

/// A path's URI names that path again: whatever bytes the path holds, a
/// space or a name in another script among them, `path_of_uri` reads back
/// from `uri_of_path` the path it was given. Stated for an absolute path
/// (`b`, its UTF-8 bytes, starting with `/`) whose third byte is not `:`
/// or `|`, since those read as a Windows drive.
pub proof fn lemma_uri_names_its_path(b: Seq<u8>)
    requires
        valid_utf8(b),
        b.len() > 0,
        b[0] == 47,
        !(b.len() > 2 && (b[2] == 58 || b[2] == 124)),
    ensures
        uri_path(encode_utf8(uri_text(b))) == Some(b),
{
    reveal_strlit("file://");
    lemma_escaped_is_ascii(b);
    let scheme = "file://"@;
    vstd::utf8::is_ascii_chars_encode_utf8(scheme);
    assert(encode_utf8(scheme) =~= seq![102u8, 105, 108, 101, 58, 47, 47]);
    assert(uri_text(b) =~= scheme + uri_escaped(b));
    lemma_encode_concat(scheme, uri_escaped(b));
    let e = encode_utf8(uri_text(b));
    let rest = b.skip(1);
    assert(uri_escaped_bytes(b) == seq![47u8] + uri_escaped_bytes(rest));
    assert(e =~= file_prefix() + uri_escaped_bytes(rest));
    assert(e.subrange(0, 8) =~= file_prefix());
    assert(e.skip(8) =~= uri_escaped_bytes(rest));
    lemma_unescape_undoes_escape(rest);
    assert(rest =~= vstd::utf8::pop_first_scalar(b));
    assert(valid_utf8(rest));
    assert(seq![47u8] + rest =~= b);
}


// ---------------------------------------------------------------------------
// Findings
// ---------------------------------------------------------------------------

/// A problem, in the file it belongs to and at byte offsets within it,
/// under the stable kind `check --format json` reports it by.
#[derive(Debug, Clone, PartialEq, Eq)]
pub struct Finding {
    pub file: String,
    pub start: usize,
    pub end: usize,
    pub kind: String,
    pub message: String,
}

/// A deck that will not build at all has one problem, at the top of the
/// file.
pub fn unbuildable(file: &str, message: &str) -> (r: Finding)
    ensures
        r.file@ == file@,
        r.start == 0,
        r.end == 0,
        r.kind@ == kind_in(warning_table(), message@, 0),
        r.message@ == message@,
{
    Finding {
        file: file.to_owned(),
        start: 0,
        end: 0,
        kind: warning_kind(message).to_owned(),
        message: message.to_owned(),
    }
}

/// A file name's extension, as `Path::extension` finds it: what follows
/// the last `.`, when there is one and it does not open the name.
pub open spec fn extension_of(name: Seq<char>) -> Option<Seq<char>> {
    match last_at(name, "."@, name.len() as int) {
        Some(k) => if k == 0 {
            None
        } else {
            Some(name.skip(k + 1))
        },
        None => None,
    }
}

/// A path names a deck when its extension is `md` or `markdown`, in any
/// case.
pub open spec fn markdown_path(path: Seq<char>) -> bool {
    match extension_of(file_name_of(path)) {
        Some(e) => ascii_lowered(e) == "md"@ || ascii_lowered(e) == "markdown"@,
        None => false,
    }
}

pub fn is_markdown(path: &str) -> (r: bool)
    ensures
        r == markdown_path(path@),
{
    let name = chars_of(file_name(path).as_str());
    let dot = chars_of(".");
    let nlen = name.len();
    proof {
        reveal_strlit(".");
    }
    match rfind(&name, &dot) {
        Some(k) => {
            proof {
                lemma_last_at_in(name@, dot@, name@.len() as int);
                assert(k < nlen);
            }
            if k == 0 {
                return false;
            }
            let ext = lowercase_ascii(&slice(&name, k + 1, nlen));
            is(&ext, "md") || is(&ext, "markdown")
        },
        None => false,
    }
}


// ---------------------------------------------------------------------------
// Positions
// ---------------------------------------------------------------------------

/// Where the `line`th line (a piece ending in `\n`, or the rest) starts,
/// counting from the line that starts at `from`.
pub open spec fn line_start(s: Seq<char>, line: nat, from: int) -> Option<int>
    decreases line,
{
    if from < 0 || from >= s.len() {
        None
    } else if line == 0 {
        Some(from)
    } else {
        line_start(s, (line - 1) as nat, next_line(s, from))
    }
}

/// Where `s[lo..j]` ends once its trailing `\r` and `\n` are gone.
pub open spec fn crlf_trail(s: Seq<char>, lo: int, j: int) -> int
    decreases j - lo,
{
    if lo < j && j <= s.len() && (s[j - 1] == '\r' || s[j - 1] == '\n') {
        crlf_trail(s, lo, j - 1)
    } else {
        j
    }
}

/// Where the text of the line starting at `from` ends, its line ending
/// set aside.
pub open spec fn content_end(s: Seq<char>, from: int) -> int {
    let e = if line_end(s, from) < s.len() {
        line_end(s, from) + 1
    } else {
        s.len() as int
    };
    crlf_trail(s, from, e)
}

/// How many UTF-16 code units a character takes.
pub open spec fn utf16_units(c: char) -> nat {
    if (c as u32) >= 0x10000 {
        2
    } else {
        1
    }
}

/// The first character from `i` before `end` at which `units` (counted
/// from the line's start) reaches `character`; `end` when none does.
pub open spec fn column_stop(s: Seq<char>, i: int, end: int, units: nat, character: nat) -> int
    decreases end - i,
{
    if i >= end {
        end
    } else if units >= character {
        i
    } else {
        column_stop(s, i + 1, end, units + utf16_units(s[i]), character)
    }
}

/// The character a protocol position names: a zero-based line and a column
/// in UTF-16 code units, clamped to the line's text; the end of the text
/// when there is no such line.
pub open spec fn position_char(s: Seq<char>, line: nat, character: nat) -> int {
    match line_start(s, line, 0) {
        None => s.len() as int,
        Some(st) => column_stop(s, st, content_end(s, st), 0, character),
    }
}

/// Once the count has reached the column, how far past it makes no
/// difference.
proof fn lemma_column_stop_past(s: Seq<char>, i: int, end: int, a: nat, b: nat, character: nat)
    requires
        a >= character <==> b >= character,
        a < character ==> a == b,
    ensures
        column_stop(s, i, end, a, character) == column_stop(s, i, end, b, character),
{
}

/// The byte offset of a protocol position.
pub fn offset_of(text: &str, line: usize, character: usize) -> (r: usize)
    ensures
        r == byte_offset(text@, position_char(text@, line as nat, character as nat)),
{
    let k = char_of_position(text, line, character);
    byte_offset_in(text, k)
}

/// The character a protocol position names.
pub fn char_of_position(text: &str, line: usize, character: usize) -> (r: usize)
    ensures
        r == position_char(text@, line as nat, character as nat),
        r <= text@.len(),
{
    let cs = chars_of(text);
    let n = cs.len();
    let mut from: usize = 0;
    let mut i: usize = 0;
    while i < line && from < n
        invariant
            i <= line,
            from <= n == cs@.len(),
            cs@ == text@,
            line_start(cs@, line as nat, 0) == line_start(cs@, (line - i) as nat, from as int),
        decreases line - i,
    {
        proof {
            lemma_line_end(cs@, from as int);
        }
        let mut e = from;
        while e < n && cs[e] != '\n'
            invariant
                from <= e <= n == cs@.len(),
                line_end(cs@, from as int) == line_end(cs@, e as int),
            decreases n - e,
        {
            e += 1;
        }
        let ghost old_from = from as int;
        assert(line_end(cs@, old_from) == e);
        from = if e < n {
            e + 1
        } else {
            n
        };
        assert(line_start(cs@, (line - i) as nat, old_from) == line_start(
            cs@,
            (line - i - 1) as nat,
            next_line(cs@, old_from),
        ));
        assert(line_start(cs@, (line - i - 1) as nat, next_line(cs@, old_from)) == line_start(
            cs@,
            (line - i - 1) as nat,
            from as int,
        ));
        i += 1;
    }
    if from >= n {
        return n;
    }
    proof {
        lemma_line_end(cs@, from as int);
    }
    let mut e = from;
    while e < n && cs[e] != '\n'
        invariant
            from <= e <= n == cs@.len(),
            line_end(cs@, from as int) == line_end(cs@, e as int),
        decreases n - e,
    {
        e += 1;
    }
    let mut hi = if e < n {
        e + 1
    } else {
        n
    };
    while hi > from && (cs[hi - 1] == '\r' || cs[hi - 1] == '\n')
        invariant
            from <= hi <= n == cs@.len(),
            content_end(cs@, from as int) == crlf_trail(cs@, from as int, hi as int),
        decreases hi - from,
    {
        hi -= 1;
    }
    let mut k = from;
    let mut units: usize = 0;
    while k < hi && units < character
        invariant
            from <= k <= hi <= n == cs@.len(),
            units <= character,
            column_stop(cs@, from as int, hi as int, 0, character as nat) == column_stop(
                cs@,
                k as int,
                hi as int,
                units as nat,
                character as nat,
            ),
        decreases hi - k,
    {
        let c = cs[k];
        let w: usize = if (c as u32) >= 0x10000 {
            2
        } else {
            1
        };
        let ghost next = (units + w) as nat;
        units = if character - units <= w {
            character
        } else {
            units + w
        };
        proof {
            lemma_column_stop_past(cs@, k + 1, hi as int, next, units as nat, character as nat);
        }
        k += 1;
    }
    k
}


// ---------------------------------------------------------------------------
// What the cursor sits in
// ---------------------------------------------------------------------------

/// Where the line holding character `at` (clamped to the text) starts.
pub open spec fn around_start(s: Seq<char>, at: int) -> int {
    let a = if at < s.len() {
        at
    } else {
        s.len() as int
    };
    match last_at(s, "\n"@, a - 1) {
        Some(k) => k + 1,
        None => 0,
    }
}

/// The line character `at` sits on, and where it starts (all counted in
/// characters).
pub fn line_around(text: &Vec<char>, at: usize) -> (r: (usize, Vec<char>))
    ensures
        r.0 == around_start(text@, at as int),
        r.1@ == text@.subrange(r.0 as int, line_end(text@, r.0 as int)),
        r.0 <= at,
{
    let n = text.len();
    let a = if at < n {
        at
    } else {
        n
    };
    let mut k = a;
    while k > 0 && text[k - 1] != '\n'
        invariant
            k <= a <= n == text@.len(),
            forall|j: int| k <= j < a ==> text@[j] != '\n',
        decreases k,
    {
        k -= 1;
    }
    proof {
        reveal_strlit("\n");
        assert("\n"@ =~= seq!['\n']);
        lemma_last_before(text@, a as int, k as int);
    }
    let start = k;
    let mut e = start;
    while e < n && text[e] != '\n'
        invariant
            start <= e <= n == text@.len(),
            line_end(text@, start as int) == line_end(text@, e as int),
        decreases n - e,
    {
        e += 1;
    }
    (start, slice(text, start, e))
}

proof fn lemma_last_before(s: Seq<char>, a: int, k: int)
    requires
        0 <= k <= a <= s.len(),
        forall|j: int| k <= j < a ==> s[j] != '\n',
        k > 0 ==> s[k - 1] == '\n',
        "\n"@ == seq!['\n'],
    ensures
        (match last_at(s, "\n"@, a - 1) {
            Some(i) => i + 1,
            None => 0,
        }) == k,
    decreases a - k,
{
    if a > k {
        assert(s[a - 1] != '\n');
        if occurs_at_one(s, a - 1) {
            assert(s.subrange(a - 1, a)[0] == s[a - 1]);
        }
        lemma_last_before(s, a - 1, k);
    } else if k > 0 {
        assert(s.subrange(k - 1, k) =~= "\n"@);
    } else {
        assert(last_at(s, "\n"@, -1) is None);
    }
}

spec fn occurs_at_one(s: Seq<char>, i: int) -> bool {
    crate::text::occurs_at(s, "\n"@, i)
}

/// The span from `from` on whose whole (delimiters included) holds
/// `column`: where its `open` sits and what is between the delimiters.
pub open spec fn spanning_from(
    line: Seq<char>,
    column: int,
    open: Seq<char>,
    close: Seq<char>,
    from: int,
) -> Option<(int, Seq<char>)>
    decreases line.len() + 1 - from,
{
    match first_at(line, open, from) {
        None => None,
        Some(o) => {
            let inner = o + open.len();
            match first_at(line, close, inner) {
                None => None,
                Some(c) => {
                    let end = c + close.len();
                    if o <= column < end {
                        Some((o, line.subrange(inner, c)))
                    } else if from < end <= line.len() {
                        spanning_from(line, column, open, close, end)
                    } else {
                        None
                    }
                },
            }
        },
    }
}

/// The text between `open` and `close` on `line`, when `column` falls
/// within the whole span, delimiters included.
pub fn spanning(line: &Vec<char>, column: usize, open: &Vec<char>, close: &Vec<char>) -> (r: Option<(usize, Vec<char>)>)
    requires
        open@.len() > 0,
    ensures
        match r {
            Some((o, t)) => spanning_from(line@, column as int, open@, close@, 0) == Some(
                (o as int, t@),
            ),
            None => spanning_from(line@, column as int, open@, close@, 0) is None,
        },
{
    let mut from: usize = 0;
    let n = line.len();
    loop
        invariant
            from <= n == line@.len(),
            open@.len() > 0,
            spanning_from(line@, column as int, open@, close@, 0) == spanning_from(
                line@,
                column as int,
                open@,
                close@,
                from as int,
            ),
        decreases n + 1 - from,
    {
        let o = match crate::text::find_from(line, open, from) {
            Some(o) => o,
            None => return None,
        };
        proof {
            lemma_first_at_some(line@, open@, from as int);
        }
        let inner = o + open.len();
        let c = match crate::text::find_from(line, close, inner) {
            Some(c) => c,
            None => return None,
        };
        proof {
            lemma_first_at_some(line@, close@, inner as int);
        }
        let end = c + close.len();
        if o <= column && column < end {
            return Some((o, slice(line, inner, c)));
        }
        from = end;
    }
}

/// The key of the `[@key]` the cursor (at character `at`) is inside: one
/// word, trimmed, with no white space in it.
pub open spec fn cite_key_of(source: Seq<char>, at: int) -> Option<Seq<char>> {
    let start = around_start(source, at);
    let line = source.subrange(start, line_end(source, start));
    match spanning_from(line, at - start, "[@"@, "]"@, 0) {
        Some((_, k)) => if trim(k).len() > 0 && !has_ws(trim(k)) {
            Some(trim(k))
        } else {
            None
        },
        None => None,
    }
}

pub open spec fn has_ws(s: Seq<char>) -> bool {
    exists|i: int| 0 <= i < s.len() && crate::text::is_ws(s[i])
}

fn holds_ws(s: &Vec<char>) -> (r: bool)
    ensures
        r == has_ws(s@),
{
    let mut i: usize = 0;
    while i < s.len()
        invariant
            i <= s@.len(),
            forall|j: int| 0 <= j < i ==> !crate::text::is_ws(s@[j]),
        decreases s@.len() - i,
    {
        if crate::text::is_space(s[i]) {
            return true;
        }
        i += 1;
    }
    false
}

pub fn cite_key_at(source: &Vec<char>, at: usize) -> (r: Option<String>)
    ensures
        match r {
            Some(k) => cite_key_of(source@, at as int) == Some(k@),
            None => cite_key_of(source@, at as int) is None,
        },
{
    let (start, line) = line_around(source, at);
    let open = chars_of("[@");
    let close = chars_of("]");
    proof {
        reveal_strlit("[@");
    }
    match spanning(&line, at - start, &open, &close) {
        Some((_, key)) => {
            let k = trimmed(&key);
            if k.len() > 0 && !holds_ws(&k) {
                Some(string_of(k.as_slice()))
            } else {
                None
            }
        },
        None => None,
    }
}

/// The `{{ expr }}` the cursor (at character `at`) is inside, braces and
/// all.
pub open spec fn expression_of(source: Seq<char>, at: int) -> Option<Seq<char>> {
    let start = around_start(source, at);
    let line = source.subrange(start, line_end(source, start));
    match spanning_from(line, at - start, "{{"@, "}}"@, 0) {
        Some((_, e)) => Some("{{"@ + e + "}}"@),
        None => None,
    }
}

pub fn expression_at(source: &Vec<char>, at: usize) -> (r: Option<String>)
    ensures
        match r {
            Some(e) => expression_of(source@, at as int) == Some(e@),
            None => expression_of(source@, at as int) is None,
        },
{
    let (start, line) = line_around(source, at);
    let open = chars_of("{{");
    let close = chars_of("}}");
    proof {
        reveal_strlit("{{");
    }
    match spanning(&line, at - start, &open, &close) {
        Some((_, e)) => {
            let mut out = chars_of("{{");
            push_all(&mut out, &e);
            push_str(&mut out, "}}");
            Some(string_of(out.as_slice()))
        },
        None => None,
    }
}


// ---------------------------------------------------------------------------
// Outline names
// ---------------------------------------------------------------------------

/// `s` from `i` on with its HTML tags dropped, a space left where each
/// opened: `inside` says whether a tag is open, `out` what is kept so far.
pub open spec fn untagged(s: Seq<char>, i: int, inside: bool, out: Seq<char>) -> Seq<char>
    decreases s.len() - i,
{
    if i < 0 || i >= s.len() {
        out
    } else if s[i] == '<' {
        untagged(s, i + 1, true, out.push(' '))
    } else if s[i] == '>' && inside {
        untagged(s, i + 1, false, out)
    } else if !inside {
        untagged(s, i + 1, inside, out.push(s[i]))
    } else {
        untagged(s, i + 1, inside, out)
    }
}

/// Tags dropped, a space left where each was, then the words joined by
/// single spaces: `a<br>b` reads as two words.
pub open spec fn strip_tags_of(s: Seq<char>) -> Seq<char> {
    join(words_of(untagged(s, 0, false, Seq::empty())), " "@)
}

pub fn strip_tags(text: &Vec<char>) -> (r: Vec<char>)
    ensures
        r@ == strip_tags_of(text@),
{
    let mut out: Vec<char> = Vec::new();
    let mut inside = false;
    let mut i: usize = 0;
    while i < text.len()
        invariant
            i <= text@.len(),
            untagged(text@, 0, false, Seq::empty()) == untagged(text@, i as int, inside, out@),
        decreases text@.len() - i,
    {
        let c = text[i];
        if c == '<' {
            inside = true;
            out.push(' ');
        } else if c == '>' && inside {
            inside = false;
        } else if !inside {
            out.push(c);
        }
        i += 1;
    }
    let ws = words(&out);
    let mut r: Vec<char> = Vec::new();
    push_joined_chars(&mut r, &ws, " ");
    assert(r@ =~= join(words_of(out@), " "@));
    r
}

/// `s` without the `#`s that open it.
pub open spec fn hashes_end(s: Seq<char>, i: int) -> int
    decreases s.len() - i,
{
    if 0 <= i < s.len() && s[i] == '#' {
        hashes_end(s, i + 1)
    } else {
        i
    }
}

/// A trimmed line that is a heading: `#`s, then a space.
pub open spec fn is_heading_line(l: Seq<char>) -> bool {
    l.len() > 0 && l[0] == '#' && hashes_end(l, 0) < l.len() && l[hashes_end(l, 0)] == ' '
}

/// The first heading line of `s` from the line starting at `from` on,
/// trimmed.
pub open spec fn first_heading(s: Seq<char>, from: int) -> Option<Seq<char>>
    decreases s.len() + 1 - from,
{
    if 0 <= from < s.len() {
        let l = trim(line_at(s, from)->0);
        if is_heading_line(l) {
            Some(l)
        } else if from < next_line(s, from) <= s.len() + 1 {
            first_heading(s, next_line(s, from))
        } else {
            None
        }
    } else {
        None
    }
}

/// A heading's name: its `#`s and any tags dropped, and an attribute list
/// at its end (`{.title-slide}`) set aside.
pub open spec fn heading_name(line: Seq<char>) -> Seq<char> {
    let name = trim(strip_tags_of(trim(line.skip(hashes_end(line, 0)))));
    match last_at(name, "{"@, name.len() as int) {
        Some(k) => if has_suffix(name, "}"@) {
            trim(name.take(k))
        } else {
            name
        },
        None => name,
    }
}

/// The name of the slide between characters `from` and `to`: its first
/// heading, when it has one with a name.
pub open spec fn heading_of(text: Seq<char>, from: int, to: int) -> Option<Seq<char>> {
    let hi = if to < text.len() {
        to
    } else {
        text.len() as int
    };
    if from > hi {
        None
    } else {
        match first_heading(text.subrange(from, hi), 0) {
            Some(l) => if heading_name(l).len() > 0 {
                Some(heading_name(l))
            } else {
                None
            },
            None => None,
        }
    }
}

pub fn heading(text: &Vec<char>, from: usize, to: usize) -> (r: Option<String>)
    ensures
        match r {
            Some(n) => heading_of(text@, from as int, to as int) == Some(n@),
            None => heading_of(text@, from as int, to as int) is None,
        },
{
    let hi = if to < text.len() {
        to
    } else {
        text.len()
    };
    if from > hi {
        return None;
    }
    let slide = slice(text, from, hi);
    let n = slide.len();
    let mut at: usize = 0;
    let mut found: Option<Vec<char>> = None;
    while at < n
        invariant_except_break
            found is None,
        invariant
            at <= n == slide@.len(),
            first_heading(slide@, 0) == first_heading(slide@, at as int),
        ensures
            match found {
                Some(l) => first_heading(slide@, 0) == Some(l@),
                None => first_heading(slide@, 0) is None,
            },
        decreases n - at,
    {
        let (raw, end) = crate::text::read_line(&slide, at);
        proof {
            lemma_line_end(slide@, at as int);
        }
        let l = trimmed(&raw);
        let mut heading_line = false;
        if l.len() > 0 && l[0] == '#' {
            let mut k: usize = 0;
            while k < l.len() && l[k] == '#'
                invariant
                    k <= l@.len(),
                    hashes_end(l@, 0) == hashes_end(l@, k as int),
                decreases l@.len() - k,
            {
                k += 1;
            }
            heading_line = k < l.len() && l[k] == ' ';
        }
        assert(heading_line == is_heading_line(l@));
        if heading_line {
            assert(first_heading(slide@, at as int) == Some(l@));
            found = Some(l);
            break;
        }
        assert(first_heading(slide@, at as int) == first_heading(slide@, end + 1));
        if end >= n {
            assert(first_heading(slide@, end + 1) is None);
            found = None;
            break;
        }
        at = end + 1;
    }
    let line = match found {
        Some(l) => l,
        None => return None,
    };
    let mut k: usize = 0;
    while k < line.len() && line[k] == '#'
        invariant
            k <= line@.len(),
            hashes_end(line@, 0) == hashes_end(line@, k as int),
        decreases line@.len() - k,
    {
        k += 1;
    }
    let rest = trimmed(&slice(&line, k, line.len()));
    let name = trimmed(&strip_tags(&rest));
    let open = chars_of("{");
    let close = chars_of("}");
    let nlen = name.len();
    proof {
        reveal_strlit("{");
        reveal_strlit("}");
    }
    let result = match rfind(&name, &open) {
        Some(b) => {
            if ends_with(&name, &close) {
                proof {
                    lemma_last_at_in(name@, open@, name@.len() as int);
                }
                assert(b <= nlen);
                trimmed(&slice(&name, 0, b))
            } else {
                name
            }
        },
        None => name,
    };
    if result.len() > 0 {
        Some(string_of(result.as_slice()))
    } else {
        None
    }
}


// ---------------------------------------------------------------------------
// A data file named inside a fence
// ---------------------------------------------------------------------------

/// Where the backticks that open `t` end.
pub open spec fn ticks_end(t: Seq<char>, i: int) -> int
    decreases t.len() - i,
{
    if 0 <= i < t.len() && t[i] == '`' {
        ticks_end(t, i + 1)
    } else {
        i
    }
}

/// The open fence after a trimmed line `t`: its length in backticks, and
/// whether it is a `chart` or `each` block. A run of three or more
/// backticks opens a fence when none is open, and closes the open one when
/// it is at least as long and carries nothing after it.
pub open spec fn fence_after(t: Seq<char>, fence: Option<(int, bool)>) -> Option<(int, bool)> {
    let ticks = ticks_end(t, 0);
    if ticks >= 3 {
        let rest = trim(t.skip(ticks));
        match fence {
            Some((open, _)) => if ticks >= open && rest.len() == 0 {
                None
            } else {
                fence
            },
            None => Some((ticks, rest == "chart"@ || rest == "each"@)),
        }
    } else {
        fence
    }
}

/// Where the piece (a line with its `\n`) starting at `p` ends.
pub open spec fn piece_end(s: Seq<char>, p: int) -> int {
    if line_end(s, p) < s.len() {
        line_end(s, p) + 1
    } else {
        s.len() as int
    }
}

/// The fence open once the lines starting before `stop` are read, from the
/// line starting at `p` on.
pub open spec fn fence_at(s: Seq<char>, p: int, stop: int, fence: Option<(int, bool)>) -> Option<
    (int, bool),
>
    decreases s.len() + 1 - p,
{
    if 0 <= p < s.len() && p < stop {
        let f2 = fence_after(trim(s.subrange(p, piece_end(s, p))), fence);
        if p < next_line(s, p) <= s.len() + 1 {
            fence_at(s, next_line(s, p), stop, f2)
        } else {
            f2
        }
    } else {
        fence
    }
}

/// What a `data:` line names, once trimmed.
pub open spec fn data_rel(line: Seq<char>) -> Option<Seq<char>> {
    let t = trim(line);
    if has_prefix(t, "data:"@) && trim(t.skip(5)).len() > 0 {
        Some(trim(t.skip(5)))
    } else {
        None
    }
}

/// The file a `data:` line names, when the cursor (character `at`) is on
/// that line and the line sits inside a `chart` or `each` fence rather
/// than in prose that happens to open with the word.
pub open spec fn data_path_of(source: Seq<char>, at: int) -> Option<Seq<char>> {
    let start = around_start(source, at);
    match data_rel(source.subrange(start, line_end(source, start))) {
        None => None,
        Some(rel) => match fence_at(source, 0, start, None) {
            Some((_, true)) => Some(rel),
            _ => None,
        },
    }
}

fn fence_step(t: &Vec<char>, fence: Option<(usize, bool)>) -> (r: Option<(usize, bool)>)
    ensures
        fence_after(t@, match fence {
            Some((o, c)) => Some((o as int, c)),
            None => None,
        }) == match r {
            Some((o, c)) => Some((o as int, c)),
            None => None::<(int, bool)>,
        },
{
    let mut ticks: usize = 0;
    while ticks < t.len() && t[ticks] == '`'
        invariant
            ticks <= t@.len(),
            ticks_end(t@, 0) == ticks_end(t@, ticks as int),
        decreases t@.len() - ticks,
    {
        ticks += 1;
    }
    if ticks < 3 {
        return fence;
    }
    let rest = trimmed(&slice(t, ticks, t.len()));
    assert(t@.skip(ticks as int) =~= t@.subrange(ticks as int, t@.len() as int));
    match fence {
        Some((open, chart)) => {
            if ticks >= open && rest.len() == 0 {
                None
            } else {
                Some((open, chart))
            }
        },
        None => Some((ticks, is(&rest, "chart") || is(&rest, "each"))),
    }
}

#[verifier::spinoff_prover]
pub fn data_path_at(source: &Vec<char>, at: usize) -> (r: Option<String>)
    ensures
        match r {
            Some(p) => data_path_of(source@, at as int) == Some(p@),
            None => data_path_of(source@, at as int) is None,
        },
{
    let (start, line) = line_around(source, at);
    let t = trimmed(&line);
    let prefix = chars_of("data:");
    proof {
        reveal_strlit("data:");
    }
    if !starts_with(&t, &prefix) {
        return None;
    }
    let rel = trimmed(&slice(&t, 5, t.len()));
    assert(t@.skip(5) =~= t@.subrange(5, t@.len() as int));
    if rel.len() == 0 {
        return None;
    }
    let n = source.len();
    let mut p: usize = 0;
    let mut fence: Option<(usize, bool)> = None;
    while p < n && p < start
        invariant
            p <= n == source@.len(),
            fence_at(source@, 0, start as int, None) == fence_at(
                source@,
                p as int,
                start as int,
                match fence {
                    Some((o, c)) => Some((o as int, c)),
                    None => None,
                },
            ),
        decreases n - p,
    {
        proof {
            lemma_line_end(source@, p as int);
        }
        let mut e = p;
        while e < n && source[e] != '\n'
            invariant
                p <= e <= n == source@.len(),
                line_end(source@, p as int) == line_end(source@, e as int),
            decreases n - e,
        {
            e += 1;
        }
        let pe = if e < n {
            e + 1
        } else {
            n
        };
        let piece = trimmed(&slice(source, p, pe));
        let ghost before = match fence {
            Some((o, c)) => Some((o as int, c)),
            None => None,
        };
        fence = fence_step(&piece, fence);
        let ghost after = match fence {
            Some((o, c)) => Some((o as int, c)),
            None => None,
        };
        proof {
            assert(pe == piece_end(source@, p as int));
            assert(piece@ == trim(source@.subrange(p as int, piece_end(source@, p as int))));
            assert(after == fence_after(piece@, before));
            assert(next_line(source@, p as int) == e + 1);
            assert(fence_at(source@, p as int, start as int, before) == fence_at(
                source@,
                e + 1,
                start as int,
                after,
            ));
            if e == n {
                assert(fence_at(source@, e + 1, start as int, after) == after);
                assert(fence_at(source@, n as int, start as int, after) == after);
            }
        }
        p = if e < n {
            e + 1
        } else {
            n
        };
    }
    match fence {
        Some((_, true)) => Some(string_of(rel.as_slice())),
        _ => None,
    }
}


// ---------------------------------------------------------------------------
// Message framing
// ---------------------------------------------------------------------------

/// How long a header line may be before the stream stops looking like a
/// client's. Real ones are `Content-Length: 1234`.
pub const MAX_HEADER_BYTES: usize = 8192;

/// How large a message body may claim to be.
pub const MAX_BODY_BYTES: usize = 67108864;

/// What one header line read from the client means for the message.
pub enum HeaderStep {
    /// Keep reading headers; the length known so far.
    More(Option<usize>),
    /// The headers are over: read exactly this many bytes of body.
    Body(usize),
    /// The stream cannot be a client's; the reason.
    Refused(String),
}

/// A [`HeaderStep`] with its reason as text.
pub enum StepView {
    More(Option<usize>),
    Body(usize),
    Refused(Seq<char>),
}

impl View for HeaderStep {
    type V = StepView;

    open spec fn view(&self) -> StepView {
        match self {
            HeaderStep::More(l) => StepView::More(*l),
            HeaderStep::Body(n) => StepView::Body(*n),
            HeaderStep::Refused(m) => StepView::Refused(m@),
        }
    }
}

/// `s` without the `\r` and `\n` at its end (`trim_end_matches(['\r', '\n'])`).
pub open spec fn without_newline(s: Seq<char>) -> Seq<char>
    decreases s.len(),
{
    if s.len() > 0 && (s.last() == '\r' || s.last() == '\n') {
        without_newline(s.drop_last())
    } else {
        s
    }
}

pub open spec fn long_line_message() -> Seq<char> {
    "a header line ran past 8192 bytes with no end - this is not a language client's stream"@
}

pub open spec fn no_length_message() -> Seq<char> {
    "a message arrived with no Content-Length"@
}

pub open spec fn too_large_message(n: nat) -> Seq<char> {
    "a message claimed "@ + decimal(n) + " bytes, past the 67108864-byte limit"@
}

/// The length a `Content-Length:` header states: the rest of the line,
/// trimmed, read as a `usize`; `None` when it does not read as one.
pub open spec fn stated_length(value: Seq<char>) -> Option<usize> {
    match unsigned_value(trim(value), usize::MAX as int) {
        Some(v) => Some(v as usize),
        None => None,
    }
}

/// What the header line `line` (as read, its newline included) means, with
/// `length` the length the earlier headers stated.
pub open spec fn header_step_of(line: Seq<char>, length: Option<usize>) -> StepView {
    let t = without_newline(line);
    if encode_utf8(line).len() == MAX_HEADER_BYTES && !has_suffix(line, "\n"@) {
        StepView::Refused(long_line_message())
    } else if t.len() == 0 {
        match length {
            None => StepView::Refused(no_length_message()),
            Some(n) => if n > MAX_BODY_BYTES {
                StepView::Refused(too_large_message(n as nat))
            } else {
                StepView::Body(n)
            },
        }
    } else if has_prefix(t, "Content-Length:"@) {
        StepView::More(stated_length(t.skip(15)))
    } else {
        StepView::More(length)
    }
}


/// `line` without the `\r` and `\n` at its end.
fn strip_newline(cs: &Vec<char>) -> (r: Vec<char>)
    ensures
        r@ == without_newline(cs@),
{
    let mut n = cs.len();
    assert(cs@.take(n as int) == cs@);
    while n > 0 && (cs[n - 1] == '\r' || cs[n - 1] == '\n')
        invariant
            n <= cs@.len(),
            without_newline(cs@.take(n as int)) == without_newline(cs@),
        decreases n,
    {
        assert(cs@.take(n as int).drop_last() == cs@.take(n - 1));
        n -= 1;
    }
    let r = slice(cs, 0, n);
    assert(r@ == cs@.take(n as int));
    r
}

/// Reads one header line of a message: the line as the client sent it,
/// newline included, and the length the headers before it stated. Any
/// header but `Content-Length` is passed over, as the protocol says to.
pub fn header_step(line: &str, length: Option<usize>) -> (r: HeaderStep)
    ensures
        r@ == header_step_of(line@, length),
{
    let cs = chars_of(line);
    let bytes = line.as_bytes().len();
    let t = strip_newline(&cs);
    let nl = chars_of("\n");
    let prefix = chars_of("Content-Length:");
    proof {
        reveal_strlit("\n");
        reveal_strlit("Content-Length:");
    }
    if bytes == MAX_HEADER_BYTES && !ends_with(&cs, &nl) {
        let r = "a header line ran past 8192 bytes with no end - this is not a language client's stream".to_string();
        return HeaderStep::Refused(r);
    }
    if t.len() == 0 {
        return match length {
            None => HeaderStep::Refused("a message arrived with no Content-Length".to_string()),
            Some(n) => if n > MAX_BODY_BYTES {
                let mut m: Vec<char> = Vec::new();
                push_str(&mut m, "a message claimed ");
                push_decimal(&mut m, n as u64);
                push_str(&mut m, " bytes, past the 67108864-byte limit");
                HeaderStep::Refused(string_of(m.as_slice()))
            } else {
                HeaderStep::Body(n)
            },
        };
    }
    if starts_with(&t, &prefix) {
        let value = trimmed(&slice(&t, 15, t.len()));
        assert(t@.subrange(15, t@.len() as int) == t@.skip(15));
        let v = parse_unsigned(&value, usize::MAX as u64);
        match v {
            Some(v) => HeaderStep::More(Some(v as usize)),
            None => HeaderStep::More(None),
        }
    } else {
        HeaderStep::More(length)
    }
}

/// A number written in decimal reads back as itself.
pub proof fn lemma_decimal_reads_back(n: nat)
    ensures
        decimal(n).len() > 0,
        crate::text::all_digits(decimal(n)),
        crate::text::digits_value(decimal(n)) == n,
        decimal(n)[0] != '+',
    decreases n,
{
    let d = decimal(n);
    let last = crate::text::digit_char(n % 10);
    assert(((48 + n % 10) as u8) as int == 48 + n % 10);
    assert(last as int == 48 + n % 10);
    if n < 10 {
        assert(d == seq![crate::text::digit_char(n)]);
        assert(d.drop_last() =~= Seq::<char>::empty());
        assert(n % 10 == n);
        assert(d.last() == last);
        assert(crate::text::digits_value(d.drop_last()) == 0);
        assert(crate::text::digits_value(d) == crate::text::digits_value(d.drop_last()) * 10
            + crate::text::digit_value(d.last()));
    } else {
        lemma_decimal_reads_back(n / 10);
        let h = decimal(n / 10);
        assert(d == h.push(crate::text::digit_char(n % 10)));
        assert(d.drop_last() == h);
        assert(d[0] == h[0]);
        assert forall|i: int| 0 <= i < d.len() implies crate::text::is_digit(#[trigger] d[i]) by {
            if i < h.len() {
                assert(d[i] == h[i]);
            }
        }
        assert(n == (n / 10) * 10 + n % 10);
        assert(d.last() == last);
        assert(crate::text::digits_value(d) == crate::text::digits_value(d.drop_last()) * 10
            + crate::text::digit_value(d.last()));
    }
}

/// The header line a framed message opens with.
pub open spec fn length_line(n: nat) -> Seq<char> {
    "Content-Length: "@ + decimal(n) + "\r\n"@
}

/// A framed message reads back as its own length: its header line states
/// the length, and the blank line after it opens a body exactly that long.
pub proof fn lemma_frame_reads_back(n: nat, earlier: Option<usize>)
    requires
        n <= MAX_BODY_BYTES,
    ensures
        encode_utf8(length_line(n) + "\r\n"@) == encode_utf8(
            "Content-Length: "@ + decimal(n) + "\r\n\r\n"@,
        ),
        header_step_of(length_line(n), earlier) == StepView::More(Some(n as usize)),
        header_step_of("\r\n"@, Some(n as usize)) == StepView::Body(n as usize),
{
    reveal_strlit("Content-Length: ");
    reveal_strlit("Content-Length:");
    reveal_strlit("\r\n");
    reveal_strlit("\r\n\r\n");
    reveal_strlit("\n");
    reveal_with_fuel(without_newline, 3);
    lemma_decimal_reads_back(n);
    let d = decimal(n);
    let line = length_line(n);
    assert(length_line(n) + "\r\n"@ =~= "Content-Length: "@ + decimal(n) + "\r\n\r\n"@);
    let t = "Content-Length: "@ + d;
    assert(line == t + "\r\n"@);
    assert(has_suffix(line, "\n"@)) by {
        assert(line.subrange(line.len() - 1, line.len() as int) =~= "\n"@);
    }
    assert(line.drop_last() == t.push('\r'));
    assert(line.drop_last().drop_last() == t);
    assert(t.last() == d.last());
    assert(crate::text::is_digit(d[d.len() - 1]));
    assert(without_newline(line) == t);
    assert(has_prefix(t, "Content-Length:"@)) by {
        assert(t.subrange(0, 15) =~= "Content-Length:"@);
    }
    let v = t.skip(15);
    assert(v =~= seq![' '] + d);
    crate::text::lemma_lead(v, 0);
    crate::text::lemma_lead(v, 1);
    assert(crate::text::is_ws(v[0]));
    assert(!crate::text::is_ws(v[1]));
    assert(crate::text::lead(v, 0) == crate::text::lead(v, 1));
    assert(crate::text::lead(v, 1) == 1);
    crate::text::lemma_trail(v, 1, v.len() as int);
    assert(!crate::text::is_ws(v[v.len() - 1]));
    assert(crate::text::trail(v, 1, v.len() as int) == v.len());
    assert(trim(v) =~= d);
    assert(unsigned_value(d, usize::MAX as int) == Some(n as int));
    assert(stated_length(v) == Some(n as usize));
    assert(without_newline("\r\n"@) =~= Seq::<char>::empty()) by {
        assert("\r\n"@.drop_last() =~= seq!['\r']);
        assert(seq!['\r'].drop_last() =~= Seq::<char>::empty());
    }
    assert(has_suffix("\r\n"@, "\n"@)) by {
        assert("\r\n"@.subrange(1, 2) =~= "\n"@);
    }
}

/// A message as it goes out: its `Content-Length` header, a blank line, then
/// the body.
pub open spec fn framed(body: Seq<u8>) -> Seq<u8> {
    encode_utf8("Content-Length: "@ + decimal(body.len()) + "\r\n\r\n"@) + body
}

/// Frames an encoded message body for the client.
pub fn frame_message(body: &[u8]) -> (r: Vec<u8>)
    ensures
        r@ == framed(body@),
{
    let mut head: Vec<char> = Vec::new();
    push_str(&mut head, "Content-Length: ");
    push_decimal(&mut head, body.len() as u64);
    push_str(&mut head, "\r\n\r\n");
    let text = string_of(head.as_slice());
    let mut out: Vec<u8> = Vec::new();
    let hb = text.as_str().as_bytes();
    let mut i: usize = 0;
    while i < hb.len()
        invariant
            i <= hb@.len(),
            out@ == hb@.take(i as int),
        decreases hb@.len() - i,
    {
        out.push(hb[i]);
        i += 1;
        assert(out@ == hb@.take(i as int));
    }
    assert(hb@.take(hb@.len() as int) == hb@);
    let mut j: usize = 0;
    while j < body.len()
        invariant
            j <= body@.len(),
            out@ == hb@ + body@.take(j as int),
        decreases body@.len() - j,
    {
        out.push(body[j]);
        j += 1;
        assert(out@ == hb@ + body@.take(j as int));
    }
    assert(body@.take(body@.len() as int) == body@);
    out
}


// ---------------------------------------------------------------------------
// The session
// ---------------------------------------------------------------------------

/// One message from the client, as the protocol layer read it: its method,
/// whether it carries an id (a request does, a notification does not), the
/// file its `textDocument.uri` names ([`path_of_uri`]), and the text it
/// carries: `textDocument.text` when opened, the last content change's
/// text when changed.
pub struct Message {
    pub method: String,
    pub has_id: bool,
    pub path: Option<String>,
    pub open_text: Option<String>,
    pub change_text: Option<String>,
}

/// What to send back for a message.
pub enum Reply {
    /// The response to `initialize`: the server's capabilities.
    Capabilities,
    /// A response whose result is null.
    Null,
    /// Diagnose the deck at this path and publish what that finds.
    Diagnose(String),
    /// Publish an empty list of diagnostics for this file.
    Clear(String),
    /// The response to `textDocument/documentSymbol` for this file.
    Symbols(Option<String>),
    /// The response to `textDocument/completion` at the request's position.
    Completion(Option<String>),
    /// The response to `textDocument/hover` at the request's position.
    Hover(Option<String>),
    /// The response to `textDocument/definition` at the request's position.
    Definition(Option<String>),
    /// The error for a request the server never advertised.
    NoSuchMethod(String),
}

/// The JSON-RPC error code a [`Reply::NoSuchMethod`] is sent with.
pub const METHOD_NOT_FOUND: i32 = -32601;

/// The error message a [`Reply::NoSuchMethod`] is sent with.
pub fn no_such_method(method: &str) -> (r: String)
    ensures
        r@ == "no such method: "@ + method@,
{
    let mut m = chars_of("no such method: ");
    push_str(&mut m, method);
    string_of(m.as_slice())
}

/// A [`Reply`] with its text as text.
pub enum ReplyView {
    Capabilities,
    Null,
    Diagnose(Seq<char>),
    Clear(Seq<char>),
    Symbols(Option<Seq<char>>),
    Completion(Option<Seq<char>>),
    Hover(Option<Seq<char>>),
    Definition(Option<Seq<char>>),
    NoSuchMethod(Seq<char>),
}

pub open spec fn opt_text(o: Option<String>) -> Option<Seq<char>> {
    match o {
        Some(s) => Some(s@),
        None => None,
    }
}

impl View for Reply {
    type V = ReplyView;

    open spec fn view(&self) -> ReplyView {
        match self {
            Reply::Capabilities => ReplyView::Capabilities,
            Reply::Null => ReplyView::Null,
            Reply::Diagnose(p) => ReplyView::Diagnose(p@),
            Reply::Clear(p) => ReplyView::Clear(p@),
            Reply::Symbols(p) => ReplyView::Symbols(opt_text(*p)),
            Reply::Completion(p) => ReplyView::Completion(opt_text(*p)),
            Reply::Hover(p) => ReplyView::Hover(opt_text(*p)),
            Reply::Definition(p) => ReplyView::Definition(opt_text(*p)),
            Reply::NoSuchMethod(m) => ReplyView::NoSuchMethod(m@),
        }
    }
}

pub open spec fn replies_view(v: Seq<Reply>) -> Seq<ReplyView> {
    v.map_values(|r: Reply| r@)
}

/// Open buffers, the latest for a path last.
pub type Buffers = Seq<(Seq<char>, Seq<char>)>;

/// The open buffer of `p`.
pub open spec fn buffer(d: Buffers, p: Seq<char>) -> Option<Seq<char>>
    decreases d.len(),
{
    if d.len() == 0 {
        None
    } else if d.last().0 == p {
        Some(d.last().1)
    } else {
        buffer(d.drop_last(), p)
    }
}

/// `d` without the buffers of `p`.
pub open spec fn without_buffer(d: Buffers, p: Seq<char>) -> Buffers
    decreases d.len(),
{
    if d.len() == 0 {
        d
    } else if d.last().0 == p {
        without_buffer(d.drop_last(), p)
    } else {
        without_buffer(d.drop_last(), p).push(d.last())
    }
}

/// `s` without `p`.
pub open spec fn without_name(s: Seq<Seq<char>>, p: Seq<char>) -> Seq<Seq<char>>
    decreases s.len(),
{
    if s.len() == 0 {
        s
    } else if s.last() == p {
        without_name(s.drop_last(), p)
    } else {
        without_name(s.drop_last(), p).push(s.last())
    }
}

/// A session: the buffers the editor has open, the files it has been sent
/// diagnostics for, and whether it said `exit`.
pub struct SessionView {
    pub docs: Buffers,
    pub published: Seq<Seq<char>>,
    pub exited: bool,
}

/// What a message does to a session, and what goes back.
pub open spec fn handled(s: SessionView, m: Seq<char>, has_id: bool, path: Option<Seq<char>>, open_text: Option<Seq<char>>, change_text: Option<Seq<char>>) -> (SessionView, Seq<ReplyView>) {
    if m == "initialize"@ {
        (s, seq![ReplyView::Capabilities])
    } else if m == "initialized"@ || m == "$/setTrace"@ || m == "workspace/didChangeConfiguration"@ {
        (s, Seq::empty())
    } else if m == "shutdown"@ {
        (s, seq![ReplyView::Null])
    } else if m == "exit"@ {
        (SessionView { exited: true, ..s }, Seq::empty())
    } else if m == "textDocument/didOpen"@ || m == "textDocument/didChange"@ {
        let text = if m == "textDocument/didOpen"@ { open_text } else { change_text };
        match (path, text) {
            (Some(p), Some(t)) => (
                SessionView { docs: without_buffer(s.docs, p).push((p, t)), ..s },
                if markdown_path(p) { seq![ReplyView::Diagnose(p)] } else { Seq::empty() },
            ),
            _ => (s, Seq::empty()),
        }
    } else if m == "textDocument/didSave"@ {
        match path {
            Some(p) => (
                s,
                if markdown_path(p) && buffer(s.docs, p) is Some {
                    seq![ReplyView::Diagnose(p)]
                } else {
                    Seq::empty()
                },
            ),
            None => (s, Seq::empty()),
        }
    } else if m == "textDocument/didClose"@ {
        match path {
            Some(p) => (
                SessionView {
                    docs: without_buffer(s.docs, p),
                    published: without_name(s.published, p),
                    ..s
                },
                seq![ReplyView::Clear(p)],
            ),
            None => (s, Seq::empty()),
        }
    } else if m == "textDocument/documentSymbol"@ {
        (s, seq![ReplyView::Symbols(path)])
    } else if m == "textDocument/completion"@ {
        (s, seq![ReplyView::Completion(path)])
    } else if m == "textDocument/hover"@ {
        (s, seq![ReplyView::Hover(path)])
    } else if m == "textDocument/definition"@ {
        (s, seq![ReplyView::Definition(path)])
    } else if has_id {
        (s, seq![ReplyView::NoSuchMethod(m)])
    } else {
        (s, Seq::empty())
    }
}

/// One editor session.
pub struct Server {
    docs: Vec<(String, String)>,
    published: Vec<String>,
    exited: bool,
}

pub open spec fn buffers_view(v: Seq<(String, String)>) -> Buffers {
    v.map_values(|e: (String, String)| (e.0@, e.1@))
}

impl View for Server {
    type V = SessionView;

    closed spec fn view(&self) -> SessionView {
        SessionView {
            docs: buffers_view(self.docs@),
            published: texts(self.published@),
            exited: self.exited,
        }
    }
}

/// `d` without the buffers of `p`.
fn drop_buffer(d: &Vec<(String, String)>, p: &str) -> (r: Vec<(String, String)>)
    ensures
        buffers_view(r@) == without_buffer(buffers_view(d@), p@),
{
    let ghost bv = buffers_view(d@);
    let mut out: Vec<(String, String)> = Vec::new();
    let mut i: usize = 0;
    while i < d.len()
        invariant
            i <= d@.len(),
            bv == buffers_view(d@),
            buffers_view(out@) == without_buffer(bv.take(i as int), p@),
        decreases d@.len() - i,
    {
        assert(bv.take(i + 1).drop_last() == bv.take(i as int));
        assert(bv.take(i + 1).last() == (d@[i as int].0@, d@[i as int].1@));
        if !(is(&chars_of(d[i].0.as_str()), p)) {
            let ghost before = buffers_view(out@);
            out.push((d[i].0.clone(), d[i].1.clone()));
            assert(buffers_view(out@) =~= before.push((d@[i as int].0@, d@[i as int].1@)));
        }
        i += 1;
    }
    assert(bv.take(d@.len() as int) == bv);
    out
}

/// `s` without `p`.
fn drop_name(s: &Vec<String>, p: &str) -> (r: Vec<String>)
    ensures
        texts(r@) == without_name(texts(s@), p@),
{
    let ghost sv = texts(s@);
    let mut out: Vec<String> = Vec::new();
    let mut i: usize = 0;
    while i < s.len()
        invariant
            i <= s@.len(),
            sv == texts(s@),
            texts(out@) == without_name(sv.take(i as int), p@),
        decreases s@.len() - i,
    {
        assert(sv.take(i + 1).drop_last() == sv.take(i as int));
        assert(sv.take(i + 1).last() == s@[i as int]@);
        if !(is(&chars_of(s[i].as_str()), p)) {
            let ghost before = texts(out@);
            out.push(s[i].clone());
            assert(texts(out@) =~= before.push(s@[i as int]@));
        }
        i += 1;
    }
    assert(sv.take(s@.len() as int) == sv);
    out
}

/// The open buffer of `p` in `d`.
fn find_buffer(d: &Vec<(String, String)>, p: &str) -> (r: Option<String>)
    ensures
        opt_text(r) == buffer(buffers_view(d@), p@),
{
    let ghost bv = buffers_view(d@);
    let mut i: usize = d.len();
    assert(bv.take(i as int) == bv);
    while i > 0
        invariant
            i <= d@.len(),
            bv == buffers_view(d@),
            buffer(bv, p@) == buffer(bv.take(i as int), p@),
        decreases i,
    {
        assert(bv.take(i as int).drop_last() == bv.take(i - 1));
        assert(bv.take(i as int).last() == (d@[i - 1].0@, d@[i - 1].1@));
        if is(&chars_of(d[i - 1].0.as_str()), p) {
            return Some(d[i - 1].1.clone());
        }
        i -= 1;
    }
    None
}

proof fn lemma_contains_push(r: Seq<Seq<char>>, x: Seq<char>, q: Seq<char>)
    ensures
        r.push(x).contains(q) <==> (r.contains(q) || x == q),
{
    if r.contains(q) {
        let k = choose|k: int| 0 <= k < r.len() && r[k] == q;
        assert(r.push(x)[k] == q);
    }
    if x == q {
        assert(r.push(x)[r.len() as int] == q);
    }
    if r.push(x).contains(q) {
        let k = choose|k: int| 0 <= k < r.push(x).len() && r.push(x)[k] == q;
        if k < r.len() {
            assert(r[k] == q);
        }
    }
}

proof fn lemma_push_distinct(r: Seq<Seq<char>>, x: Seq<char>)
    requires
        r.no_duplicates(),
        !r.contains(x),
    ensures
        r.push(x).no_duplicates(),
{
    assert forall|a: int, b: int| 0 <= a < b < r.push(x).len() implies r.push(x)[a] != r.push(x)[b] by {
        if b == r.len() {
            assert(r.push(x)[a] == r[a]);
        }
    }
}

/// Leaving `p` out keeps everything else and nothing twice.
pub proof fn lemma_without_name_drops(s: Seq<Seq<char>>, p: Seq<char>)
    ensures
        forall|q: Seq<char>| #[trigger] without_name(s, p).contains(q) <==> (q != p && s.contains(q)),
        s.no_duplicates() ==> without_name(s, p).no_duplicates(),
    decreases s.len(),
{
    if s.len() > 0 {
        let d = s.drop_last();
        let r = without_name(d, p);
        lemma_without_name_drops(d, p);
        assert(s == d.push(s.last()));
        if s.last() != p {
            assert(without_name(s, p) == r.push(s.last()));
        } else {
            assert(without_name(s, p) == r);
        }
        assert forall|q: Seq<char>| #[trigger] without_name(s, p).contains(q) <==> (q != p && s.contains(q)) by {
            lemma_contains_push(d, s.last(), q);
            lemma_contains_push(r, s.last(), q);
            assert(r.contains(q) <==> (q != p && d.contains(q)));
        }
        if s.no_duplicates() {
            assert(d.no_duplicates());
            if s.last() != p {
                assert(!d.contains(s.last())) by {
                    if d.contains(s.last()) {
                        let j = choose|j: int| 0 <= j < d.len() && d[j] == s.last();
                        assert(s[j] == s[s.len() - 1]);
                    }
                }
                assert(!r.contains(s.last()));
                lemma_push_distinct(r, s.last());
            }
        }
    }
}

pub proof fn lemma_without_buffer(d: Buffers, p: Seq<char>, q: Seq<char>)
    ensures
        buffer(without_buffer(d, p), q) == (if q == p {
            None
        } else {
            buffer(d, q)
        }),
    decreases d.len(),
{
    if d.len() > 0 {
        lemma_without_buffer(d.drop_last(), p, q);
        if d.last().0 != p {
            let r = without_buffer(d.drop_last(), p);
            assert(r.push(d.last()).drop_last() == r);
        }
    }
}

/// Appends `name` unless it is there already.
fn add_once(now: &mut Vec<String>, name: String)
    requires
        texts(old(now)@).no_duplicates(),
    ensures
        texts(final(now)@).no_duplicates(),
        forall|q: Seq<char>| texts(final(now)@).contains(q) <==> (texts(old(now)@).contains(q) || q == name@),
{
    let mut seen = false;
    let mut k: usize = 0;
    while k < now.len()
        invariant
            k <= now@.len(),
            seen == exists|j: int| 0 <= j < k && texts(now@)[j] == name@,
        decreases now@.len() - k,
    {
        if now[k] == name {
            assert(texts(now@)[k as int] == name@);
            seen = true;
        }
        k += 1;
    }
    let ghost before = texts(now@);
    if !seen {
        now.push(name);
        assert(texts(now@) =~= before.push(name@));
        proof {
            lemma_push_distinct(before, name@);
        }
    }
    proof {
        assert forall|q: Seq<char>| texts(now@).contains(q) <==> (before.contains(q) || q == name@) by {
            if !seen {
                lemma_contains_push(before, name@, q);
            } else if q == name@ {
                let j = choose|j: int| 0 <= j < before.len() && before[j] == name@;
                assert(before[j] == q);
            }
        }
    }
}

impl Server {
    #[verifier::type_invariant]
    spec fn published_once(&self) -> bool {
        texts(self.published@).no_duplicates()
    }

    /// A session with nothing open.
    pub fn new() -> (r: Server)
        ensures
            r@.docs.len() == 0,
            r@.published.len() == 0,
            !r@.exited,
    {
        let r = Server { docs: Vec::new(), published: Vec::new(), exited: false };
        assert(texts(r.published@) =~= Seq::<Seq<char>>::empty());
        r
    }

    /// Whether the client has said `exit`.
    pub fn exited(&self) -> (r: bool)
        ensures
            r == self@.exited,
    {
        self.exited
    }

    /// The open buffer of `path`: what is analysed in place of the file on
    /// disk.
    pub fn text(&self, path: &str) -> (r: Option<String>)
        ensures
            opt_text(r) == buffer(self@.docs, path@),
    {
        find_buffer(&self.docs, path)
    }

    /// Whether this session has sent diagnostics for `path`.
    pub fn has_published(&self, path: &str) -> (r: bool)
        ensures
            r == self@.published.contains(path@),
    {
        let ghost sv = texts(self.published@);
        let mut i: usize = 0;
        while i < self.published.len()
            invariant
                i <= self.published@.len(),
                sv == texts(self.published@),
                forall|k: int| 0 <= k < i ==> sv[k] != path@,
            decreases self.published@.len() - i,
        {
            if is(&chars_of(self.published[i].as_str()), path) {
                assert(sv[i as int] == path@);
                return true;
            }
            i += 1;
        }
        false
    }

    /// Handles one message: what it does to the session, and what to send
    /// back.
    pub fn handle(&mut self, m: &Message) -> (r: Vec<Reply>)
        ensures
            ({
                let (s, out) = handled(
                    old(self)@,
                    m.method@,
                    m.has_id,
                    opt_text(m.path),
                    opt_text(m.open_text),
                    opt_text(m.change_text),
                );
                &&& final(self)@.docs == s.docs
                &&& final(self)@.published == s.published
                &&& final(self)@.exited == s.exited
                &&& replies_view(r@) == out
            }),
    {
        proof {
            use_type_invariant(&*self);
        }
        let meth = chars_of(m.method.as_str());
        let mut out: Vec<Reply> = Vec::new();
        if is(&meth, "initialize") {
            out.push(Reply::Capabilities);
        } else if is(&meth, "initialized") || is(&meth, "$/setTrace") || is(
            &meth,
            "workspace/didChangeConfiguration",
        ) {
        } else if is(&meth, "shutdown") {
            out.push(Reply::Null);
        } else if is(&meth, "exit") {
            self.exited = true;
        } else if is(&meth, "textDocument/didOpen") || is(&meth, "textDocument/didChange") {
            let text = if is(&meth, "textDocument/didOpen") {
                &m.open_text
            } else {
                &m.change_text
            };
            match (&m.path, text) {
                (Some(p), Some(t)) => {
                    let mut docs = drop_buffer(&self.docs, p.as_str());
                    let ghost before = buffers_view(docs@);
                    docs.push((p.clone(), t.clone()));
                    assert(buffers_view(docs@) =~= before.push((p@, t@)));
                    self.docs = docs;
                    if is_markdown(p.as_str()) {
                        out.push(Reply::Diagnose(p.clone()));
                    }
                },
                _ => {},
            }
        } else if is(&meth, "textDocument/didSave") {
            match &m.path {
                Some(p) => {
                    if is_markdown(p.as_str()) && find_buffer(&self.docs, p.as_str()).is_some() {
                        out.push(Reply::Diagnose(p.clone()));
                    }
                },
                None => {},
            }
        } else if is(&meth, "textDocument/didClose") {
            match &m.path {
                Some(p) => {
                    self.docs = drop_buffer(&self.docs, p.as_str());
                    let published = drop_name(&self.published, p.as_str());
                    proof {
                        lemma_without_name_drops(texts(self.published@), p@);
                    }
                    self.published = published;
                    out.push(Reply::Clear(p.clone()));
                },
                None => {},
            }
        } else if is(&meth, "textDocument/documentSymbol") {
            out.push(Reply::Symbols(m.path.clone()));
        } else if is(&meth, "textDocument/completion") {
            out.push(Reply::Completion(m.path.clone()));
        } else if is(&meth, "textDocument/hover") {
            out.push(Reply::Hover(m.path.clone()));
        } else if is(&meth, "textDocument/definition") {
            out.push(Reply::Definition(m.path.clone()));
        } else if m.has_id {
            out.push(Reply::NoSuchMethod(m.method.clone()));
        }
        proof {
            assert(replies_view(out@) =~= handled(
                old(self)@,
                m.method@,
                m.has_id,
                opt_text(m.path),
                opt_text(m.open_text),
                opt_text(m.change_text),
            ).1);
        }
        out
    }

    /// Records that diagnosing the deck `deck` found something to say about
    /// each of `files`, and returns the files it said something about last
    /// time and no longer does, each once: they are sent an empty list.
    /// The deck itself always counts as said about, so its last mark goes
    /// when the author fixes it.
    pub fn diagnosed(&mut self, deck: &str, files: &Vec<String>) -> (cleared: Vec<String>)
        ensures
            final(self)@.docs == old(self)@.docs,
            final(self)@.exited == old(self)@.exited,
            forall|q: Seq<char>|
                final(self)@.published.contains(q) <==> (q == deck@ || texts(files@).contains(q)),
            texts(cleared@).no_duplicates(),
            forall|q: Seq<char>|
                texts(cleared@).contains(q) <==> (old(self)@.published.contains(q) && q != deck@
                    && !texts(files@).contains(q)),
    {
        proof {
            use_type_invariant(&*self);
        }
        let ghost fv = texts(files@);
        let ghost old_pub = texts(self.published@);
        let mut now: Vec<String> = Vec::new();
        assert(texts(now@) =~= Seq::<Seq<char>>::empty());
        let mut i: usize = 0;
        while i < files.len()
            invariant
                i <= files@.len(),
                fv == texts(files@),
                texts(now@).no_duplicates(),
                forall|q: Seq<char>| texts(now@).contains(q) <==> fv.take(i as int).contains(q),
            decreases files@.len() - i,
        {
            assert(fv[i as int] == files@[i as int]@);
            let ghost was = texts(now@);
            add_once(&mut now, files[i].clone());
            proof {
                assert(fv.take(i + 1) =~= fv.take(i as int).push(fv[i as int]));
                assert forall|q: Seq<char>| texts(now@).contains(q) <==> fv.take(i + 1).contains(q) by {
                    lemma_contains_push(fv.take(i as int), fv[i as int], q);
                    assert(texts(now@).contains(q) <==> (was.contains(q) || q == fv[i as int]));
                    assert(was.contains(q) <==> fv.take(i as int).contains(q));
                }
            }
            i += 1;
        }
        add_once(&mut now, deck.to_string());
        assert(fv.take(files@.len() as int) =~= fv);
        let mut cleared: Vec<String> = Vec::new();
        let mut j: usize = 0;
        while j < self.published.len()
            invariant
                j <= self.published@.len(),
                old_pub == texts(self.published@),
                old_pub.no_duplicates(),
                texts(cleared@).no_duplicates(),
                forall|q: Seq<char>|
                    texts(cleared@).contains(q) <==> (old_pub.take(j as int).contains(q) && !texts(now@).contains(q)),
            decreases self.published@.len() - j,
        {
            let p = &self.published[j];
            let mut found = false;
            let mut k: usize = 0;
            while k < now.len()
                invariant
                    k <= now@.len(),
                    found == exists|x: int| 0 <= x < k && texts(now@)[x] == p@,
                decreases now@.len() - k,
            {
                if now[k] == *p {
                    assert(texts(now@)[k as int] == p@);
                    found = true;
                }
                k += 1;
            }
            let ghost before = texts(cleared@);
            assert(old_pub[j as int] == p@);
            assert(old_pub.take(j + 1) =~= old_pub.take(j as int).push(p@));
            assert(found == texts(now@).contains(p@));
            assert forall|q: Seq<char>| old_pub.take(j + 1).contains(q) <==> (old_pub.take(j as int).contains(q) || p@ == q) by {
                lemma_contains_push(old_pub.take(j as int), p@, q);
            }
            if !found {
                cleared.push(p.clone());
                assert(texts(cleared@) =~= before.push(p@));
                assert(!old_pub.take(j as int).contains(p@)) by {
                    if old_pub.take(j as int).contains(p@) {
                        let x = choose|x: int| 0 <= x < j && old_pub.take(j as int)[x] == p@;
                        assert(old_pub[x] == old_pub[j as int]);
                    }
                }
                proof {
                    lemma_push_distinct(before, p@);
                }
            }
            proof {
                assert forall|q: Seq<char>| texts(cleared@).contains(q) <==> (old_pub.take(j + 1).contains(q) && !texts(now@).contains(q)) by {
                    lemma_contains_push(before, p@, q);
                    lemma_contains_push(old_pub.take(j as int), p@, q);
                    assert(before.contains(q) <==> (old_pub.take(j as int).contains(q) && !texts(now@).contains(q)));
                }
            }
            j += 1;
        }
        assert(old_pub.take(self.published@.len() as int) =~= old_pub);
        self.published = now;
        cleared
    }
}

impl Default for Server {
    fn default() -> (r: Server)
        ensures
            r@.docs.len() == 0,
            r@.published.len() == 0,
            !r@.exited,
    {
        Server::new()
    }
}

proof fn lemma_method_names()
    ensures
        "initialize"@.len() == 10,
        "initialized"@.len() == 11,
        "$/setTrace"@.len() == 10,
        "$/setTrace"@[0] == '$',
        "initialize"@[0] == 'i',
        "workspace/didChangeConfiguration"@.len() == 32,
        "shutdown"@.len() == 8,
        "exit"@.len() == 4,
        "textDocument/didOpen"@.len() == 20,
        "textDocument/didOpen"@[16] == 'O',
        "textDocument/didChange"@.len() == 22,
        "textDocument/didSave"@.len() == 20,
        "textDocument/didSave"@[16] == 'S',
        "textDocument/didClose"@.len() == 21,
        "textDocument/documentSymbol"@.len() == 27,
        "textDocument/completion"@.len() == 23,
        "textDocument/completion"@[13] == 'c',
        "textDocument/hover"@.len() == 18,
        "textDocument/definition"@.len() == 23,
        "textDocument/definition"@[13] == 'd',
{
    reveal_strlit("initialize");
    reveal_strlit("initialized");
    reveal_strlit("$/setTrace");
    reveal_strlit("workspace/didChangeConfiguration");
    reveal_strlit("shutdown");
    reveal_strlit("exit");
    reveal_strlit("textDocument/didOpen");
    reveal_strlit("textDocument/didChange");
    reveal_strlit("textDocument/didSave");
    reveal_strlit("textDocument/didClose");
    reveal_strlit("textDocument/documentSymbol");
    reveal_strlit("textDocument/completion");
    reveal_strlit("textDocument/hover");
    reveal_strlit("textDocument/definition");
}

/// Opening `p` with text `t` is what the session then holds for `p`, and
/// leaves every other buffer as it was.
pub proof fn lemma_open_then_read(s: SessionView, has_id: bool, p: Seq<char>, t: Seq<char>, q: Seq<char>)
    ensures
        buffer(handled(s, "textDocument/didOpen"@, has_id, Some(p), Some(t), None).0.docs, p) == Some(t),
        q != p ==> buffer(handled(s, "textDocument/didOpen"@, has_id, Some(p), Some(t), None).0.docs, q)
            == buffer(s.docs, q),
{
    lemma_method_names();
    let d = without_buffer(s.docs, p).push((p, t));
    assert(d.drop_last() == without_buffer(s.docs, p));
    lemma_without_buffer(s.docs, p, q);
}

/// Closing `p` leaves no buffer for it and no record of diagnostics sent to
/// it, and every other buffer as it was.
pub proof fn lemma_close_forgets(s: SessionView, has_id: bool, p: Seq<char>, q: Seq<char>)
    ensures
        buffer(handled(s, "textDocument/didClose"@, has_id, Some(p), None, None).0.docs, p) is None,
        !handled(s, "textDocument/didClose"@, has_id, Some(p), None, None).0.published.contains(p),
        q != p ==> buffer(handled(s, "textDocument/didClose"@, has_id, Some(p), None, None).0.docs, q)
            == buffer(s.docs, q),
        handled(s, "textDocument/didClose"@, has_id, Some(p), None, None).1 == seq![
            ReplyView::Clear(p),
        ],
{
    lemma_method_names();
    lemma_without_buffer(s.docs, p, p);
    lemma_without_buffer(s.docs, p, q);
    lemma_without_name_drops(s.published, p);
}

/// A request for a method the server never advertised is answered with an
/// error, and a notification for one is not answered at all; either way the
/// session is as it was.
pub proof fn lemma_unknown_method(s: SessionView, m: Seq<char>, has_id: bool, path: Option<Seq<char>>)
    requires
        m != "initialize"@,
        m != "initialized"@,
        m != "$/setTrace"@,
        m != "workspace/didChangeConfiguration"@,
        m != "shutdown"@,
        m != "exit"@,
        m != "textDocument/didOpen"@,
        m != "textDocument/didChange"@,
        m != "textDocument/didSave"@,
        m != "textDocument/didClose"@,
        m != "textDocument/documentSymbol"@,
        m != "textDocument/completion"@,
        m != "textDocument/hover"@,
        m != "textDocument/definition"@,
    ensures
        handled(s, m, has_id, path, None, None).0 == s,
        handled(s, m, has_id, path, None, None).1 == (if has_id {
            seq![ReplyView::NoSuchMethod(m)]
        } else {
            Seq::empty()
        }),
{
}


// ---------------------------------------------------------------------------
// What completes at the cursor
// ---------------------------------------------------------------------------

/// What the author could write where the cursor is, read off the line's
/// text before it: every context opens with a spelling nothing else uses.
#[derive(Debug, Clone, Copy, PartialEq, Eq, Structural)]
pub enum Completion {
    /// `<!-- layout:`: the deck's masters, then `none`.
    Masters,
    /// `<!-- theme:`, or a `theme:` line in the frontmatter: the themes.
    Themes,
    /// `<!-- mode:`: [`MODES`].
    Modes,
    /// `<!-- chrome:`: [`CHROME`].
    Chrome,
    /// A comment still being opened: [`SETTINGS`].
    Settings,
    /// `::: pane`: the panes of this slide's grid.
    Panes,
    /// An open `[@`: the bibliography's keys.
    Citations,
    /// An open `{{`: the variables frontmatter defines.
    Variables,
    /// A fence being opened: the block kinds.
    BlockKinds,
    /// Nothing completes here.
    Nothing,
}

/// The modes a slide may pin, each with its detail.
pub const MODES: [(&'static str, &'static str); 2] = [("light", "mode"), ("dark", "mode")];

/// What `<!-- chrome:` takes.
pub const CHROME: [(&'static str, &'static str); 1] = [("none", "no footer or slide number here")];

/// The settings a slide's comment understands, with what each does.
pub const SETTINGS: [(&'static str, &'static str); 7] = [
    ("note: ", "speaker note"),
    ("layout: ", "draw this slide on a master"),
    ("theme: ", "a theme for this slide only"),
    ("mode: ", "light or dark for this slide"),
    ("chrome: none", "drop the footer and slide number"),
    ("autoplay: ", "hold this slide longer under autoplay"),
    ("next", "carry this pane on to the next slide"),
];

/// The completion item kinds the protocol numbers.
pub const KIND_FIELD: u8 = 5;
pub const KIND_VARIABLE: u8 = 6;
pub const KIND_VALUE: u8 = 12;
pub const KIND_KEYWORD: u8 = 14;
pub const KIND_REFERENCE: u8 = 18;

/// The items a context offers whatever the deck holds, each a label, a
/// kind and a detail: after the deck's masters, `none`; the two modes;
/// `none` for the chrome; the settings a comment takes. The rest come from
/// the deck.
pub open spec fn fixed_items_of(c: Completion) -> Seq<(Seq<char>, u8, Seq<char>)> {
    match c {
        Completion::Masters => seq![("none"@, KIND_VALUE, "no master at all"@)],
        Completion::Modes => seq![("light"@, KIND_VALUE, "mode"@), ("dark"@, KIND_VALUE, "mode"@)],
        Completion::Chrome => seq![("none"@, KIND_VALUE, "no footer or slide number here"@)],
        Completion::Settings => seq![
            ("note: "@, KIND_KEYWORD, "speaker note"@),
            ("layout: "@, KIND_KEYWORD, "draw this slide on a master"@),
            ("theme: "@, KIND_KEYWORD, "a theme for this slide only"@),
            ("mode: "@, KIND_KEYWORD, "light or dark for this slide"@),
            ("chrome: none"@, KIND_KEYWORD, "drop the footer and slide number"@),
            ("autoplay: "@, KIND_KEYWORD, "hold this slide longer under autoplay"@),
            ("next"@, KIND_KEYWORD, "carry this pane on to the next slide"@),
        ],
        _ => Seq::empty(),
    }
}

pub open spec fn item_views(v: Seq<(&'static str, u8, &'static str)>) -> Seq<(Seq<char>, u8, Seq<char>)> {
    v.map_values(|i: (&'static str, u8, &'static str)| (i.0@, i.1, i.2@))
}

/// The items a context offers whatever the deck holds.
pub fn fixed_items(c: Completion) -> (r: Vec<(&'static str, u8, &'static str)>)
    ensures
        item_views(r@) == fixed_items_of(c),
{
    let r: Vec<(&'static str, u8, &'static str)> = match c {
        Completion::Masters => vec![("none", KIND_VALUE, "no master at all")],
        Completion::Modes => vec![("light", KIND_VALUE, "mode"), ("dark", KIND_VALUE, "mode")],
        Completion::Chrome => vec![("none", KIND_VALUE, "no footer or slide number here")],
        Completion::Settings => vec![
            ("note: ", KIND_KEYWORD, "speaker note"),
            ("layout: ", KIND_KEYWORD, "draw this slide on a master"),
            ("theme: ", KIND_KEYWORD, "a theme for this slide only"),
            ("mode: ", KIND_KEYWORD, "light or dark for this slide"),
            ("chrome: none", KIND_KEYWORD, "drop the footer and slide number"),
            ("autoplay: ", KIND_KEYWORD, "hold this slide longer under autoplay"),
            ("next", KIND_KEYWORD, "carry this pane on to the next slide"),
        ],
        _ => Vec::new(),
    };
    assert(item_views(r@) =~= fixed_items_of(c));
    r
}

/// The text of the cursor's line before character `at`.
pub open spec fn prefix_before(source: Seq<char>, at: int) -> Seq<char> {
    let end = if at < source.len() {
        at
    } else {
        source.len() as int
    };
    let head = source.take(end);
    let start = match last_at(head, "\n"@, head.len() as int) {
        Some(k) => k + 1,
        None => 0,
    };
    head.subrange(start, end)
}

/// Whether the last `open` in `prefix` is still open: no `close` after it.
pub open spec fn left_open(prefix: Seq<char>, open: Seq<char>, close: Seq<char>) -> bool {
    match last_at(prefix, open, prefix.len() as int) {
        Some(k) => !contains(prefix.skip(k), close),
        None => false,
    }
}

/// What completes at character `at` of `source`; `in_frontmatter` says
/// whether `at` is inside the deck's opening frontmatter.
pub open spec fn completion_of(source: Seq<char>, at: int, in_frontmatter: bool) -> Completion {
    let prefix = prefix_before(source, at);
    let t = trim_start(prefix);
    if has_prefix(t, "<!--"@) {
        let rest = trim_start(t.skip(4));
        if has_prefix(rest, "layout:"@) {
            Completion::Masters
        } else if has_prefix(rest, "theme:"@) {
            Completion::Themes
        } else if has_prefix(rest, "mode:"@) {
            Completion::Modes
        } else if has_prefix(rest, "chrome:"@) {
            Completion::Chrome
        } else {
            Completion::Settings
        }
    } else if has_prefix(t, "::: pane"@) {
        Completion::Panes
    } else if in_frontmatter && (has_prefix(t, "theme:"@) || has_prefix(t, "- "@)) {
        Completion::Themes
    } else if left_open(prefix, "[@"@, "]"@) {
        Completion::Citations
    } else if left_open(prefix, "{{"@, "}}"@) {
        Completion::Variables
    } else if has_prefix(t, "```"@) && !has_ws(t.skip(3)) {
        Completion::BlockKinds
    } else {
        Completion::Nothing
    }
}

fn still_open(prefix: &Vec<char>, open: &str, close: &str) -> (r: bool)
    ensures
        r == left_open(prefix@, open@, close@),
{
    let o = chars_of(open);
    let c = chars_of(close);
    match rfind(prefix, &o) {
        Some(k) => {
            proof {
                lemma_last_at_in(prefix@, o@, prefix@.len() as int);
            }
            let tail = slice(prefix, k, prefix.len());
            assert(tail@ == prefix@.skip(k as int));
            !occurs(&tail, &c)
        },
        None => false,
    }
}

fn any_ws(s: &Vec<char>, from: usize) -> (r: bool)
    requires
        from <= s.len(),
    ensures
        r == has_ws(s@.skip(from as int)),
{
    let ghost tail = s@.skip(from as int);
    let mut i = from;
    while i < s.len()
        invariant
            from <= i <= s@.len(),
            tail == s@.skip(from as int),
            forall|j: int| from <= j < i ==> !crate::text::is_ws(#[trigger] s@[j]),
        decreases s@.len() - i,
    {
        if is_space(s[i]) {
            assert(tail[i - from] == s@[i as int]);
            assert(crate::text::is_ws(tail[i - from]));
            return true;
        }
        i += 1;
    }
    assert forall|j: int| 0 <= j < tail.len() implies !crate::text::is_ws(#[trigger] tail[j]) by {
        assert(tail[j] == s@[from + j]);
    }
    false
}

/// What completes at character `at` of `source`, `in_frontmatter` saying
/// whether `at` is inside the deck's opening frontmatter.
pub fn completion_at(source: &Vec<char>, at: usize, in_frontmatter: bool) -> (r: Completion)
    ensures
        r == completion_of(source@, at as int, in_frontmatter),
{
    let end = if at < source.len() {
        at
    } else {
        source.len()
    };
    let head = slice(source, 0, end);
    assert(head@ == source@.take(end as int));
    let nl = chars_of("\n");
    let start = match rfind(&head, &nl) {
        Some(k) => {
            proof {
                lemma_last_at_in(head@, nl@, head@.len() as int);
                reveal_strlit("\n");
            }
            k + 1
        },
        None => 0,
    };
    proof {
        reveal_strlit("\n");
        if start > 0 {
            assert(start <= end);
        }
    }
    let prefix = slice(&head, start, end);
    let t = trimmed_start(&prefix);
    proof {
        reveal_strlit("<!--");
        reveal_strlit("::: pane");
        reveal_strlit("```");
    }
    if starts_with(&t, &chars_of("<!--")) {
        let rest = trimmed_start(&slice(&t, 4, t.len()));
        assert(t@.subrange(4, t@.len() as int) == t@.skip(4));
        if starts_with(&rest, &chars_of("layout:")) {
            Completion::Masters
        } else if starts_with(&rest, &chars_of("theme:")) {
            Completion::Themes
        } else if starts_with(&rest, &chars_of("mode:")) {
            Completion::Modes
        } else if starts_with(&rest, &chars_of("chrome:")) {
            Completion::Chrome
        } else {
            Completion::Settings
        }
    } else if starts_with(&t, &chars_of("::: pane")) {
        Completion::Panes
    } else if in_frontmatter && (starts_with(&t, &chars_of("theme:")) || starts_with(
        &t,
        &chars_of("- "),
    )) {
        Completion::Themes
    } else if still_open(&prefix, "[@", "]") {
        Completion::Citations
    } else if still_open(&prefix, "{{", "}}") {
        Completion::Variables
    } else if starts_with(&t, &chars_of("```")) && !any_ws(&t, 3) {
        Completion::BlockKinds
    } else {
        Completion::Nothing
    }
}

/// The lines of `s` from the one at `from` on that hold more than white
/// space (`str::lines`, blank ones passed over).
pub open spec fn filled_lines_from(s: Seq<char>, from: int) -> Seq<Seq<char>>
    decreases s.len() + 1 - from,
    via filled_lines_decrease
{
    if 0 <= from < s.len() {
        let l = line_at(s, from).unwrap();
        let rest = filled_lines_from(s, next_line(s, from));
        if trim(l).len() == 0 {
            rest
        } else {
            seq![l] + rest
        }
    } else {
        Seq::empty()
    }
}

#[via_fn]
proof fn filled_lines_decrease(s: Seq<char>, from: int) {
    if 0 <= from < s.len() {
        lemma_line_end(s, from);
    }
}

/// What hovering a `data:` file says: its header line and how many rows
/// follow it.
pub open spec fn data_summary_of(rel: Seq<char>, text: Seq<char>) -> Seq<char> {
    let lines = filled_lines_from(text, 0);
    let header = if lines.len() > 0 {
        lines[0]
    } else {
        Seq::empty()
    };
    let rows = if lines.len() > 0 {
        (lines.len() - 1) as nat
    } else {
        0
    };
    "`"@ + rel + "` — fields `"@ + header + "`, "@ + decimal(rows) + " row"@ + (if rows == 1 {
        Seq::empty()
    } else {
        "s"@
    })
}

/// What hovering a `data:` line says about the file `rel`, whose text is
/// `text`.
pub fn data_summary(rel: &str, text: &str) -> (r: String)
    ensures
        r@ == data_summary_of(rel@, text@),
{
    let cs = chars_of(text);
    let n = cs.len();
    let mut header: Vec<char> = Vec::new();
    let mut count: usize = 0;
    let mut p: usize = 0;
    let ghost all = filled_lines_from(cs@, 0);
    while p < n
        invariant
            cs@ == text@,
            n == cs@.len(),
            p <= n,
            all == filled_lines_from(cs@, 0),
            count <= p,
            (count > 0 ==> all.len() > 0 && header@ == all[0]),
            all.len() == count + filled_lines_from(cs@, p as int).len(),
            count == 0 ==> all == filled_lines_from(cs@, p as int),
            count == 0 ==> header@ == Seq::<char>::empty(),
        decreases n - p,
    {
        let (line, e) = read_line(&cs, p);
        proof {
            lemma_line_end(cs@, p as int);
        }
        assert(line_at(cs@, p as int).unwrap() == line@);
        assert(next_line(cs@, p as int) == e + 1);
        if e == n {
            assert(filled_lines_from(cs@, e + 1) =~= filled_lines_from(cs@, n as int));
        }
        if trimmed(&line).len() > 0 {
            if count == 0 {
                header = line;
            }
            count = count + 1;
        }
        p = if e < n {
            e + 1
        } else {
            n
        };
    }
    let rows: usize = if count > 0 {
        count - 1
    } else {
        0
    };
    let mut out = chars_of("`");
    push_str(&mut out, rel);
    push_str(&mut out, "` — fields `");
    push_all(&mut out, &header);
    push_str(&mut out, "`, ");
    push_decimal(&mut out, rows as u64);
    push_str(&mut out, " row");
    if rows != 1 {
        push_str(&mut out, "s");
    }
    proof {
        if count == 0 {
            assert(header@ =~= Seq::<char>::empty());
        }
    }
    string_of(out.as_slice())
}

} // verus!
