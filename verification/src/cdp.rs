//! The byte-level parts of talking to Chromium over the DevTools protocol:
//! base64 for the handshake key and the screencast frames, WebSocket frames,
//! and the `DevToolsActivePort` file. The socket itself is the caller's.
use vstd::prelude::*;
use crate::text::{
    chars_of, hex_char, hex_digit, is_space, lead, line_at, next_line, parse_u16, push_all, push_str,
    read_line, slice, string_of, trail, trim, trimmed, unsigned_value, decimal, push_decimal,
    from_utf8_lossy, utf8_lossy, has_prefix, starts_with,
};
use vstd::string::StringSliceAdditionalSpecFns;

verus! {

// ---------------------------------------------------------------------------
// Base64
// ---------------------------------------------------------------------------

/// The character for a 6-bit value in the standard alphabet.
pub open spec fn b64_digit(v: u32) -> char {
    if v < 26 {
        ((v + 65) as u8) as char
    } else if v < 52 {
        ((v - 26 + 97) as u8) as char
    } else if v < 62 {
        ((v - 52 + 48) as u8) as char
    } else if v == 62 {
        '+'
    } else {
        '/'
    }
}

/// The value of a byte in the standard alphabet, if it is one.
pub open spec fn b64_value(c: u8) -> Option<u32> {
    if 65 <= c <= 90 {
        Some((c - 65) as u32)
    } else if 97 <= c <= 122 {
        Some((c - 97 + 26) as u32)
    } else if 48 <= c <= 57 {
        Some((c - 48 + 52) as u32)
    } else if c == 43 {
        Some(62)
    } else if c == 47 {
        Some(63)
    } else {
        None
    }
}

/// Three bytes (zero-padded) as one 24-bit number.
pub open spec fn triple(chunk: Seq<u8>) -> u32 {
    let b0 = chunk[0] as u32;
    let b1 = if chunk.len() > 1 {
        chunk[1] as u32
    } else {
        0
    };
    let b2 = if chunk.len() > 2 {
        chunk[2] as u32
    } else {
        0
    };
    (b0 << 16u32) | (b1 << 8u32) | b2
}

/// One chunk of up to three bytes as four characters, `=`-padded.
pub open spec fn encode_chunk(chunk: Seq<u8>) -> Seq<char> {
    let n = triple(chunk);
    seq![
        b64_digit((n >> 18u32) & 63),
        b64_digit((n >> 12u32) & 63),
        if chunk.len() > 1 {
            b64_digit((n >> 6u32) & 63)
        } else {
            '='
        },
        if chunk.len() > 2 {
            b64_digit(n & 63)
        } else {
            '='
        },
    ]
}

/// Standard base64 of `data`.
pub open spec fn base64_spec(data: Seq<u8>) -> Seq<char>
    decreases data.len(),
{
    if data.len() == 0 {
        Seq::empty()
    } else if data.len() <= 3 {
        encode_chunk(data)
    } else {
        encode_chunk(data.take(3)) + base64_spec(data.skip(3))
    }
}

/// Decoding from byte `i` on, with `acc` holding the pending bits and `bits`
/// how many of them are not yet written out. `Err` carries the first byte
/// outside the alphabet; `=` ends the data, and line breaks and spaces are
/// skipped.
pub open spec fn decode_from(s: Seq<u8>, i: int, acc: u32, bits: u32, out: Seq<u8>) -> Result<
    Seq<u8>,
    u8,
>
    decreases s.len() - i,
{
    if !(0 <= i < s.len()) {
        Ok(out)
    } else if s[i] == 61 {
        Ok(out)
    } else if s[i] == 13 || s[i] == 10 || s[i] == 32 {
        decode_from(s, i + 1, acc, bits, out)
    } else {
        match b64_value(s[i]) {
            None => Err(s[i]),
            Some(v) => {
                let a = (acc << 6u32) | v;
                if bits + 6 >= 8 {
                    decode_from(
                        s,
                        i + 1,
                        a,
                        (bits + 6 - 8) as u32,
                        out.push((a >> ((bits + 6 - 8) as u32)) as u8),
                    )
                } else {
                    decode_from(s, i + 1, a, (bits + 6) as u32, out)
                }
            },
        }
    }
}

pub open spec fn base64_decode_spec(s: Seq<u8>) -> Result<Seq<u8>, u8> {
    decode_from(s, 0, 0, 0, Seq::empty())
}

/// The character for a 6-bit value.
fn digit(v: u32) -> (c: char)
    requires
        v < 64,
    ensures
        c == b64_digit(v),
{
    if v < 26 {
        ((v + 65) as u8) as char
    } else if v < 52 {
        ((v - 26 + 97) as u8) as char
    } else if v < 62 {
        ((v - 52 + 48) as u8) as char
    } else if v == 62 {
        '+'
    } else {
        '/'
    }
}

/// Standard base64, for the handshake key.
pub fn base64(data: &[u8]) -> (r: String)
    ensures
        r@ == base64_spec(data@),
{
    let mut out: Vec<char> = Vec::new();
    let mut i: usize = 0;
    assert(data@.skip(0) == data@);
    while i < data.len()
        invariant
            i <= data.len(),
            base64_spec(data@) == out@ + base64_spec(data@.skip(i as int)),
        decreases data.len() - i,
    {
        let ghost rest = data@.skip(i as int);
        let left = data.len() - i;
        let b0 = data[i] as u32;
        let b1 = if left > 1 {
            data[i + 1] as u32
        } else {
            0
        };
        let b2 = if left > 2 {
            data[i + 2] as u32
        } else {
            0
        };
        let n = (b0 << 16u32) | (b1 << 8u32) | b2;
        let ghost chunk = if rest.len() <= 3 {
            rest
        } else {
            rest.take(3)
        };
        assert(triple(chunk) == n);
        assert((n >> 18u32) & 63 < 64) by (bit_vector);
        assert((n >> 12u32) & 63 < 64) by (bit_vector);
        assert((n >> 6u32) & 63 < 64) by (bit_vector);
        assert(n & 63 < 64) by (bit_vector);
        out.push(digit((n >> 18u32) & 63));
        out.push(digit((n >> 12u32) & 63));
        if left > 1 {
            out.push(digit((n >> 6u32) & 63));
        } else {
            out.push('=');
        }
        if left > 2 {
            out.push(digit(n & 63));
        } else {
            out.push('=');
        }
        if left <= 3 {
            assert(data@.skip(data.len() as int).len() == 0);
            i = data.len();
        } else {
            assert(rest.skip(3) == data@.skip(i + 3));
            i += 3;
        }
    }
    string_of(out.as_slice())
}

/// The message for a byte outside the alphabet.
pub open spec fn not_base64_message(c: u8) -> Seq<char> {
    "not base64: byte "@ + hex_prefixed(c)
}

/// A byte as `{:#x}` writes it: `0x` and its lowercase hex digits, without
/// leading zeros.
pub open spec fn hex_prefixed(c: u8) -> Seq<char> {
    if c < 16 {
        "0x"@ + seq![hex_digit(c as u32)]
    } else {
        "0x"@ + seq![hex_digit((c / 16) as u32), hex_digit((c % 16) as u32)]
    }
}

/// Standard base64 back to bytes, for the screencast frames. Whitespace is
/// skipped; anything else out of alphabet is an error.
pub fn base64_decode(s: &str) -> (r: Result<Vec<u8>, String>)
    ensures
        match r {
            Ok(v) => base64_decode_spec(s.spec_bytes()) == Ok::<Seq<u8>, u8>(v@),
            Err(e) => exists|c: u8|
                base64_decode_spec(s.spec_bytes()) == Err::<Seq<u8>, u8>(c) && e@ == not_base64_message(c),
        },
{
    let bytes = s.as_bytes();
    let mut out: Vec<u8> = Vec::new();
    let mut acc: u32 = 0;
    let mut bits: u32 = 0;
    let mut i: usize = 0;
    while i < bytes.len()
        invariant
            i <= bytes.len(),
            bytes@ == s.spec_bytes(),
            bits < 8,
            base64_decode_spec(s.spec_bytes()) == decode_from(bytes@, i as int, acc, bits, out@),
        decreases bytes.len() - i,
    {
        let c = bytes[i];
        if c == 61 {
            return Ok(out);
        }
        if c == 13 || c == 10 || c == 32 {
            i += 1;
            continue ;
        }
        let v: u32 = if 65 <= c && c <= 90 {
            (c - 65) as u32
        } else if 97 <= c && c <= 122 {
            (c - 97 + 26) as u32
        } else if 48 <= c && c <= 57 {
            (c - 48 + 52) as u32
        } else if c == 43 {
            62
        } else if c == 47 {
            63
        } else {
            let mut msg: Vec<char> = Vec::new();
            push_str(&mut msg, "not base64: byte 0x");
            if c >= 16 {
                msg.push(hex_char((c / 16) as u32));
            }
            msg.push(hex_char((c % 16) as u32));
            proof {
                reveal_strlit("not base64: byte 0x");
                reveal_strlit("not base64: byte ");
                reveal_strlit("0x");
                assert(msg@ =~= not_base64_message(c));
            }
            return Err(string_of(msg.as_slice()));
        };
        acc = (acc << 6u32) | v;
        if bits + 6 >= 8 {
            bits = bits + 6 - 8;
            out.push((acc >> bits) as u8);
        } else {
            bits = bits + 6;
        }
        i += 1;
    }
    Ok(out)
}

// ---------------------------------------------------------------------------
// The round trip
// ---------------------------------------------------------------------------

proof fn lemma_digit_value(v: u32)
    requires
        v < 64,
    ensures
        b64_value(b64_digit(v) as u8) == Some(v),
        b64_digit(v) as u8 != 61 && b64_digit(v) as u8 != 13 && b64_digit(v) as u8 != 10
            && b64_digit(v) as u8 != 32,
        (b64_digit(v) as u32) < 128,
{
}

/// The bytes of an ASCII character sequence.
pub open spec fn ascii_bytes(s: Seq<char>) -> Seq<u8> {
    s.map_values(|c: char| c as u8)
}

/// Decoding whatever `base64` wrote gives back the bytes it was given.
pub proof fn lemma_base64_round_trip(data: Seq<u8>)
    ensures
        base64_decode_spec(ascii_bytes(base64_spec(data))) == Ok::<Seq<u8>, u8>(data),
{
    lemma_round_trip_from(data, 0, Seq::empty());
    assert(Seq::<u8>::empty() + data == data);
}

proof fn lemma_round_trip_from(data: Seq<u8>, acc: u32, out: Seq<u8>)
    ensures
        decode_from(ascii_bytes(base64_spec(data)), 0, acc, 0, out) == Ok::<Seq<u8>, u8>(out + data),
    decreases data.len(),
{
    let e = ascii_bytes(base64_spec(data));
    if data.len() == 0 {
        assert(out + data == out);
    } else {
        let chunk = if data.len() <= 3 {
            data
        } else {
            data.take(3)
        };
        let rest = if data.len() <= 3 {
            Seq::<u8>::empty()
        } else {
            data.skip(3)
        };
        let n = triple(chunk);
        let b0 = chunk[0];
        let v0 = (n >> 18u32) & 63;
        let v1 = (n >> 12u32) & 63;
        let v2 = (n >> 6u32) & 63;
        let v3 = n & 63;
        assert(((n >> 18u32) & 63) < 64 && ((n >> 12u32) & 63) < 64 && ((n >> 6u32) & 63) < 64
            && (n & 63) < 64) by (bit_vector);
        lemma_digit_value(v0);
        lemma_digit_value(v1);
        lemma_digit_value(v2);
        lemma_digit_value(v3);
        let c = encode_chunk(chunk);
        let tail = base64_spec(rest);
        assert(base64_spec(data) == c + tail) by {
            if data.len() <= 3 {
                assert(c + Seq::<char>::empty() == c);
            }
        }
        assert(e == ascii_bytes(c) + ascii_bytes(tail));
        let a1 = (acc << 6u32) | v0;
        let a2 = (a1 << 6u32) | v1;
        let b1: u32 = if chunk.len() > 1 { chunk[1] as u32 } else { 0 };
        let b2: u32 = if chunk.len() > 2 { chunk[2] as u32 } else { 0 };
        let c0 = chunk[0] as u32;
        assert(n == (c0 << 16u32) | (b1 << 8u32) | b2);
        assert(c0 < 256 && b1 < 256 && b2 < 256);
        assert((a2 >> 4u32) as u8 == c0 as u8) by (bit_vector)
            requires
                a1 == (acc << 6u32) | v0,
                a2 == (a1 << 6u32) | v1,
                v0 == (n >> 18u32) & 63,
                v1 == (n >> 12u32) & 63,
                n == (c0 << 16u32) | (b1 << 8u32) | b2,
                c0 < 256,
                b1 < 256,
                b2 < 256,
        ;
        assert(c0 as u8 == chunk[0]);
        assert(e[0] == c[0] as u8);
        assert(e[1] == c[1] as u8);
        assert(e[2] == c[2] as u8);
        assert(e[3] == c[3] as u8);
        let after2 = out.push(chunk[0]);
        assert(decode_from(e, 0, acc, 0, out) == decode_from(e, 1, a1, 6, out));
        assert(decode_from(e, 1, a1, 6, out) == decode_from(e, 2, a2, 4, after2));
        if chunk.len() == 1 {
            assert(c[2] == '=');
            assert(decode_from(e, 2, a2, 4, after2) == Ok::<Seq<u8>, u8>(after2));
            assert(data == chunk);
            assert(after2 == out + data);
        } else {
            let a3 = (a2 << 6u32) | v2;
            assert((a3 >> 2u32) as u8 == b1 as u8) by (bit_vector)
                requires
                    a1 == (acc << 6u32) | v0,
                    a2 == (a1 << 6u32) | v1,
                    a3 == (a2 << 6u32) | v2,
                    v1 == (n >> 12u32) & 63,
                    v2 == (n >> 6u32) & 63,
                    n == (c0 << 16u32) | (b1 << 8u32) | b2,
                    c0 < 256,
                    b1 < 256,
                    b2 < 256,
            ;
            assert(b1 as u8 == chunk[1]);
            let after3 = after2.push(chunk[1]);
            assert(decode_from(e, 2, a2, 4, after2) == decode_from(e, 3, a3, 2, after3));
            if chunk.len() == 2 {
                assert(c[3] == '=');
                assert(data == chunk);
                assert(after3 == out + data);
            } else {
                let a4 = (a3 << 6u32) | v3;
                assert((a4 >> 0u32) as u8 == b2 as u8) by (bit_vector)
                    requires
                        a4 == (a3 << 6u32) | v3,
                        a3 == (a2 << 6u32) | v2,
                        v2 == (n >> 6u32) & 63,
                        v3 == n & 63,
                        n == (c0 << 16u32) | (b1 << 8u32) | b2,
                        c0 < 256,
                        b1 < 256,
                        b2 < 256,
                ;
                assert(b2 as u8 == chunk[2]);
                let after4 = after3.push(chunk[2]);
                assert(decode_from(e, 3, a3, 2, after3) == decode_from(e, 4, a4, 0, after4));
                assert(after4 == out + chunk);
                lemma_round_trip_from(rest, a4, after4);
                assert(e.subrange(4, e.len() as int) =~= ascii_bytes(tail));
                lemma_decode_shift(e, ascii_bytes(tail), 4, a4, after4);
                assert(after4 + rest == out + data) by {
                    if data.len() > 3 {
                        assert(chunk + rest == data);
                    } else {
                        assert(rest.len() == 0);
                        assert(chunk == data);
                    }
                }
            }
        }
    }
}

proof fn lemma_base64_ascii(data: Seq<u8>)
    ensures
        vstd::utf8::is_ascii_chars(base64_spec(data)),
    decreases data.len(),
{
    if data.len() > 0 {
        let chunk = if data.len() <= 3 {
            data
        } else {
            data.take(3)
        };
        let n = triple(chunk);
        assert(((n >> 18u32) & 63) < 64 && ((n >> 12u32) & 63) < 64 && ((n >> 6u32) & 63) < 64
            && (n & 63) < 64) by (bit_vector);
        let c = encode_chunk(chunk);
        assert(vstd::utf8::is_ascii_chars(c));
        if data.len() > 3 {
            lemma_base64_ascii(data.skip(3));
            let whole = base64_spec(data);
            let tail = base64_spec(data.skip(3));
            assert(whole == c + tail);
            assert forall|i: int| 0 <= i < whole.len() implies '\0' <= #[trigger] whole[i] <= '\u{7f}' by {
                if i < 4 {
                    assert(whole[i] == c[i]);
                } else {
                    assert(whole[i] == tail[i - 4]);
                }
            }
        }
    }
}

/// What `base64` writes, `base64_decode` reads back as the same bytes.
pub proof fn lemma_base64_decodes_what_it_encodes(data: Seq<u8>, s: &str)
    requires
        s@ == base64_spec(data),
    ensures
        base64_decode_spec(s.spec_bytes()) == Ok::<Seq<u8>, u8>(data),
{
    lemma_base64_ascii(data);
    vstd::string::is_ascii_spec_bytes(s);
    assert(s.spec_bytes() =~= ascii_bytes(base64_spec(data)));
    lemma_base64_round_trip(data);
}

/// Decoding a suffix from where it starts in the whole.
proof fn lemma_decode_shift(whole: Seq<u8>, suffix: Seq<u8>, k: int, acc: u32, out: Seq<u8>)
    requires
        0 <= k <= whole.len(),
        whole.subrange(k, whole.len() as int) == suffix,
    ensures
        decode_from(whole, k, acc, 0, out) == decode_from(suffix, 0, acc, 0, out),
{
    lemma_decode_shift_any(whole, suffix, k, 0, acc, 0, out);
}

proof fn lemma_decode_shift_any(
    whole: Seq<u8>,
    suffix: Seq<u8>,
    k: int,
    j: int,
    acc: u32,
    bits: u32,
    out: Seq<u8>,
)
    requires
        0 <= k <= whole.len(),
        whole.subrange(k, whole.len() as int) == suffix,
        0 <= j,
    ensures
        decode_from(whole, k + j, acc, bits, out) == decode_from(suffix, j, acc, bits, out),
    decreases suffix.len() - j,
{
    if j < suffix.len() {
        assert(whole[k + j] == suffix[j]);
        let c = suffix[j];
        if c == 61 {
        } else if c == 13 || c == 10 || c == 32 {
            lemma_decode_shift_any(whole, suffix, k, j + 1, acc, bits, out);
        } else {
            match b64_value(c) {
                None => {},
                Some(v) => {
                    let a = (acc << 6u32) | v;
                    if bits + 6 >= 8 {
                        lemma_decode_shift_any(
                            whole,
                            suffix,
                            k,
                            j + 1,
                            a,
                            (bits + 6 - 8) as u32,
                            out.push((a >> ((bits + 6 - 8) as u32)) as u8),
                        );
                    } else {
                        lemma_decode_shift_any(whole, suffix, k, j + 1, a, (bits + 6) as u32, out);
                    }
                },
            }
        }
    }
}

// ---------------------------------------------------------------------------
// WebSocket frames
// ---------------------------------------------------------------------------

/// A big-endian number.
pub open spec fn big_endian(s: Seq<u8>) -> u64
    decreases s.len(),
{
    if s.len() == 0 {
        0
    } else {
        (big_endian(s.drop_last()) << 8u64) | (s.last() as u64)
    }
}

/// A payload with the client mask applied (or removed — it is its own
/// inverse).
pub open spec fn masked(payload: Seq<u8>, mask: Seq<u8>) -> Seq<u8> {
    Seq::new(payload.len(), |i: int| payload[i] ^ mask[i % 4])
}

/// Where a frame's payload length field ends, and the length it gives.
pub open spec fn frame_length(w: Seq<u8>, p: int) -> Option<(int, u64)> {
    let l7 = w[p + 1] & 0x7f;
    if l7 == 126 {
        if p + 4 <= w.len() {
            Some((p + 4, big_endian(w.subrange(p + 2, p + 4))))
        } else {
            None
        }
    } else if l7 == 127 {
        if p + 10 <= w.len() {
            Some((p + 10, big_endian(w.subrange(p + 2, p + 10))))
        } else {
            None
        }
    } else {
        Some((p + 2, l7 as u64))
    }
}

/// One complete message read from `w` at `p`, following continuation frames
/// to their FIN; `None` when the bytes run out first. A control frame that
/// arrives between the fragments of a message is returned on its own.
pub open spec fn read_frames(w: Seq<u8>, p: int, message: Seq<u8>, opcode: u8) -> Option<(u8, Seq<u8>)>
    decreases w.len() - p,
{
    if !(0 <= p && p + 2 <= w.len()) {
        None
    } else {
        let h0 = w[p];
        let h1 = w[p + 1];
        let fin = h0 & 0x80 != 0;
        let op = h0 & 0x0f;
        match frame_length(w, p) {
            None => None,
            Some((q, len)) => {
                let has_mask = h1 & 0x80 != 0;
                let q2 = if has_mask {
                    q + 4
                } else {
                    q
                };
                if q2 > w.len() || len > w.len() - q2 {
                    None
                } else {
                    let raw = w.subrange(q2, q2 + len);
                    let payload = if has_mask {
                        masked(raw, w.subrange(q, q + 4))
                    } else {
                        raw
                    };
                    let op2 = if op != 0 {
                        op
                    } else {
                        opcode
                    };
                    if fin {
                        if op & 8 != 0 && message.len() > 0 {
                            Some((op, payload))
                        } else {
                            Some((op2, message + payload))
                        }
                    } else {
                        read_frames(w, q2 + len, message + payload, op2)
                    }
                }
            },
        }
    }
}

fn big_endian_at(w: &[u8], from: usize, to: usize) -> (r: u64)
    requires
        from <= to <= w@.len(),
    ensures
        r == big_endian(w@.subrange(from as int, to as int)),
{
    let mut acc: u64 = 0;
    let mut i = from;
    while i < to
        invariant
            from <= i <= to <= w@.len(),
            acc == big_endian(w@.subrange(from as int, i as int)),
        decreases to - i,
    {
        assert(w@.subrange(from as int, i + 1).drop_last() == w@.subrange(from as int, i as int));
        acc = (acc << 8u64) | (w[i] as u64);
        i += 1;
    }
    acc
}

/// Reads one complete message from the bytes of a WebSocket stream, following
/// continuation frames to their FIN: its opcode and payload, unmasked.
/// `None` when the bytes end before the message does.
pub fn ws_read(wire: &[u8]) -> (r: Option<(u8, Vec<u8>)>)
    ensures
        match r {
            Some((op, m)) => read_frames(wire@, 0, Seq::empty(), 0) == Some((op, m@)),
            None => read_frames(wire@, 0, Seq::empty(), 0) is None,
        },
{
    let mut message: Vec<u8> = Vec::new();
    let mut opcode: u8 = 0;
    let mut p: usize = 0;
    loop
        invariant
            p <= wire@.len(),
            read_frames(wire@, 0, Seq::empty(), 0) == read_frames(wire@, p as int, message@, opcode),
        decreases wire@.len() - p,
    {
        if wire.len() - p < 2 {
            return None;
        }
        let h0 = wire[p];
        let h1 = wire[p + 1];
        let fin = h0 & 0x80 != 0;
        let op = h0 & 0x0f;
        let l7 = h1 & 0x7f;
        let (q, len): (usize, u64) = if l7 == 126 {
            if wire.len() - p < 4 {
                return None;
            }
            (p + 4, big_endian_at(wire, p + 2, p + 4))
        } else if l7 == 127 {
            if wire.len() - p < 10 {
                return None;
            }
            (p + 10, big_endian_at(wire, p + 2, p + 10))
        } else {
            (p + 2, l7 as u64)
        };
        let has_mask = h1 & 0x80 != 0;
        if has_mask && wire.len() - q < 4 {
            return None;
        }
        let q2 = if has_mask {
            q + 4
        } else {
            q
        };
        if len > (wire.len() - q2) as u64 {
            return None;
        }
        let n = len as usize;
        let ghost before = message@;
        let mut payload: Vec<u8> = Vec::new();
        let mut i: usize = 0;
        while i < n
            invariant
                i <= n,
                q2 + n <= wire.len(),
                wire.len() == wire@.len(),
                has_mask ==> q + 4 <= wire@.len() && q2 == q + 4,
                payload@ == (if has_mask {
                    masked(wire@.subrange(q2 as int, q2 + n), wire@.subrange(q as int, q + 4))
                } else {
                    wire@.subrange(q2 as int, q2 + n)
                }).take(i as int),
            decreases n - i,
        {
            let b = wire[q2 + i];
            let v = if has_mask {
                b ^ wire[q + i % 4]
            } else {
                b
            };
            payload.push(v);
            i += 1;
        }
        let ghost full = if has_mask {
            masked(wire@.subrange(q2 as int, q2 + n), wire@.subrange(q as int, q + 4))
        } else {
            wire@.subrange(q2 as int, q2 + n)
        };
        assert(payload@ == full.take(n as int));
        assert(full.take(n as int) == full);
        if op != 0 {
            opcode = op;
        }
        if fin {
            if op & 8 != 0 && message.len() > 0 {
                return Some((op, payload));
            }
            let mut whole = message;
            let mut tail = payload;
            whole.append(&mut tail);
            return Some((opcode, whole));
        }
        let mut tail = payload;
        message.append(&mut tail);
        p = q2 + n;
    }
}

/// Where the first complete message in `w` from `p` on ends: just past the
/// first frame with FIN set; `None` when the bytes run out first.
pub open spec fn frames_end(w: Seq<u8>, p: int) -> Option<int>
    decreases w.len() - p,
{
    if !(0 <= p && p + 2 <= w.len()) {
        None
    } else {
        let fin = w[p] & 0x80 != 0;
        match frame_length(w, p) {
            None => None,
            Some((q, len)) => {
                let q2 = if w[p + 1] & 0x80 != 0 {
                    q + 4
                } else {
                    q
                };
                if q2 > w.len() || len > w.len() - q2 {
                    None
                } else if fin {
                    Some(q2 + len)
                } else {
                    frames_end(w, q2 + len)
                }
            },
        }
    }
}

/// A message can be read exactly when its end can be found.
pub proof fn lemma_message_end_found(w: Seq<u8>, p: int, message: Seq<u8>, opcode: u8)
    ensures
        frames_end(w, p) is Some <==> read_frames(w, p, message, opcode) is Some,
    decreases w.len() - p,
{
    if 0 <= p && p + 2 <= w.len() {
        match frame_length(w, p) {
            None => {},
            Some((q, len)) => {
                let q2 = if w[p + 1] & 0x80 != 0 {
                    q + 4
                } else {
                    q
                };
                if !(q2 > w.len() || len > w.len() - q2) && w[p] & 0x80 == 0 {
                    let raw = w.subrange(q2, q2 + len);
                    let payload = if w[p + 1] & 0x80 != 0 {
                        masked(raw, w.subrange(q, q + 4))
                    } else {
                        raw
                    };
                    let op = w[p] & 0x0f;
                    let op2 = if op != 0 {
                        op
                    } else {
                        opcode
                    };
                    lemma_message_end_found(w, q2 + len, message + payload, op2);
                }
            },
        }
    }
}

/// How many bytes of a WebSocket stream the first complete message takes,
/// so a reader can drop them once [`ws_read`] has read it; `None` while the
/// message is still arriving.
pub fn ws_message_end(wire: &[u8]) -> (r: Option<usize>)
    ensures
        match r {
            Some(e) => frames_end(wire@, 0) == Some(e as int),
            None => frames_end(wire@, 0) is None,
        },
{
    let mut p: usize = 0;
    loop
        invariant
            p <= wire@.len(),
            frames_end(wire@, 0) == frames_end(wire@, p as int),
        decreases wire@.len() - p,
    {
        if wire.len() - p < 2 {
            return None;
        }
        let h0 = wire[p];
        let h1 = wire[p + 1];
        let fin = h0 & 0x80 != 0;
        let l7 = h1 & 0x7f;
        let (q, len): (usize, u64) = if l7 == 126 {
            if wire.len() - p < 4 {
                return None;
            }
            (p + 4, big_endian_at(wire, p + 2, p + 4))
        } else if l7 == 127 {
            if wire.len() - p < 10 {
                return None;
            }
            (p + 10, big_endian_at(wire, p + 2, p + 10))
        } else {
            (p + 2, l7 as u64)
        };
        let has_mask = h1 & 0x80 != 0;
        if has_mask && wire.len() - q < 4 {
            return None;
        }
        let q2 = if has_mask {
            q + 4
        } else {
            q
        };
        if len > (wire.len() - q2) as u64 {
            return None;
        }
        let end = q2 + len as usize;
        if fin {
            return Some(end);
        }
        p = end;
    }
}

/// The bytes of one frame, masked as a client must with `mask`.
pub open spec fn frame_spec(opcode: u8, payload: Seq<u8>, mask: Seq<u8>) -> Seq<u8> {
    let n = payload.len();
    let head = if n < 126 {
        seq![0x80u8 | opcode, 0x80u8 | (n as u8)]
    } else if n <= 0xffff {
        seq![0x80u8 | opcode, 0x80u8 | 126u8, (n / 256) as u8, (n % 256) as u8]
    } else {
        seq![0x80u8 | opcode, 0x80u8 | 127u8] + Seq::new(8, |i: int| (((n as int) / pow256(7 - i)) % 256) as u8)
    };
    head + mask + masked(payload, mask)
}

pub open spec fn pow256(k: int) -> int
    decreases k,
{
    if k <= 0 {
        1
    } else {
        256 * pow256(k - 1)
    }
}

proof fn lemma_pow256_positive(k: int)
    ensures
        pow256(k) > 0,
    decreases k,
{
    if k > 0 {
        lemma_pow256_positive(k - 1);
    }
}

/// One frame, masked as a client must. The mask is the caller's: it only has
/// to differ from frame to frame.
pub fn ws_frame(opcode: u8, payload: &[u8], mask: [u8; 4]) -> (r: Vec<u8>)
    ensures
        r@ == frame_spec(opcode, payload@, mask@),
{
    let mut frame: Vec<u8> = Vec::new();
    frame.push(0x80u8 | opcode);
    let n = payload.len();
    if n < 126 {
        frame.push(0x80u8 | (n as u8));
    } else if n <= 0xffff {
        frame.push(0x80u8 | 126u8);
        frame.push((n / 256) as u8);
        frame.push((n % 256) as u8);
    } else {
        frame.push(0x80u8 | 127u8);
        let mut k: usize = 0;
        let ghost base = frame@;
        while k < 8
            invariant
                k <= 8,
                base.len() == 2,
                frame@ == base + Seq::new(k as nat, |i: int| (((n as int) / pow256(7 - i)) % 256) as u8),
            decreases 8 - k,
        {
            let mut d: u64 = n as u64;
            let mut j: usize = 0;
            while j < 7 - k
                invariant
                    j <= 7 - k,
                    k < 8,
                    d as int == (n as int) / pow256(j as int),
                decreases 7 - k - j,
            {
                assert(pow256(j + 1) == 256 * pow256(j as int));
                proof {
                    lemma_pow256_positive(j as int);
                }
                assert((d as int) / 256 == (n as int) / pow256(j + 1)) by (nonlinear_arith)
                    requires
                        d as int == (n as int) / pow256(j as int),
                        pow256(j + 1) == 256 * pow256(j as int),
                        pow256(j as int) > 0,
                {
                }
                d = d / 256;
                j += 1;
            }
            frame.push((d % 256) as u8);
            assert(frame@ =~= base + Seq::new((k + 1) as nat, |i: int| (((n as int) / pow256(7 - i)) % 256) as u8));
            k += 1;
        }
    }
    let ghost head = frame@;
    frame.push(mask[0]);
    frame.push(mask[1]);
    frame.push(mask[2]);
    frame.push(mask[3]);
    assert(frame@ =~= head + mask@);
    let ghost with_mask = frame@;
    let mut i: usize = 0;
    while i < n
        invariant
            i <= n == payload@.len(),
            frame@ == with_mask + masked(payload@, mask@).take(i as int),
        decreases n - i,
    {
        frame.push(payload[i] ^ mask[i % 4]);
        assert(frame@ =~= with_mask + masked(payload@, mask@).take(i + 1));
        i += 1;
    }
    assert(masked(payload@, mask@).take(n as int) == masked(payload@, mask@));
    frame
}

// ---------------------------------------------------------------------------
// DevToolsActivePort
// ---------------------------------------------------------------------------

/// `DevToolsActivePort`: the bound port on the first line, the browser
/// target's WebSocket path on the second.
pub open spec fn active_port_spec(s: Seq<char>) -> Option<(u16, Seq<char>)> {
    match line_at(s, 0) {
        None => None,
        Some(first) => match unsigned_value(trim(first), 0xffff) {
            None => None,
            Some(port) => match line_at(s, next_line(s, 0)) {
                None => None,
                Some(second) => if trim(second).len() == 0 {
                    None
                } else {
                    Some((port as u16, trim(second)))
                },
            },
        },
    }
}

/// `DevToolsActivePort`: the bound port on the first line, the browser
/// target's WebSocket path on the second.
pub fn parse_active_port(s: &str) -> (r: Option<(u16, String)>)
    ensures
        match r {
            Some((port, path)) => active_port_spec(s@) == Some((port, path@)),
            None => active_port_spec(s@) is None,
        },
{
    let cs = chars_of(s);
    if cs.len() == 0 {
        return None;
    }
    let (first, end) = read_line(&cs, 0);
    let port = match parse_u16(&trimmed(&first)) {
        Some(p) => p,
        None => return None,
    };
    if cs.len() - end <= 1 {
        return None;
    }
    let (second, _) = read_line(&cs, end + 1);
    let path = trimmed(&second);
    if path.len() == 0 {
        return None;
    }
    Some((port, string_of(path.as_slice())))
}

// ---------------------------------------------------------------------------
// What is written reads back
// ---------------------------------------------------------------------------

/// `n` as `k` big-endian bytes.
pub open spec fn be_bytes(n: int, k: int) -> Seq<u8> {
    Seq::new(k as nat, |i: int| ((n / pow256(k - 1 - i)) % 256) as u8)
}

proof fn lemma_shift_in(x: u64, b: u64)
    requires
        x < 0x100_0000_0000_0000,
        b < 256,
    ensures
        (x << 8u64) | b == x * 256 + b,
{
    assert((x << 8u64) | b == x * 256 + b) by (bit_vector)
        requires
            x < 0x100_0000_0000_0000,
            b < 256,
    ;
}

proof fn lemma_be_bytes(n: int, k: int)
    requires
        0 <= k <= 8,
        0 <= n < pow256(k),
    ensures
        big_endian(be_bytes(n, k)) as int == n,
    decreases k,
{
    lemma_pow256_positive(k);
    if k == 0 {
        assert(be_bytes(n, k) =~= Seq::<u8>::empty());
    } else {
        let s = be_bytes(n, k);
        let q = n / 256;
        lemma_pow256_positive(k - 1);
        assert(pow256(k) == 256 * pow256(k - 1));
        vstd::arithmetic::div_mod::lemma_fundamental_div_mod(n, 256);
        assert(q < pow256(k - 1)) by (nonlinear_arith)
            requires
                n < 256 * pow256(k - 1),
                n == 256 * q + n % 256,
                0 <= n % 256,
        {
        }
        assert(q >= 0);
        lemma_be_bytes(q, k - 1);
        assert forall|i: int| 0 <= i < k - 1 implies #[trigger] s.drop_last()[i] == be_bytes(q, k - 1)[i] by {
            lemma_pow256_positive(k - 2 - i);
            assert(pow256(k - 1 - i) == 256 * pow256(k - 2 - i));
            vstd::arithmetic::div_mod::lemma_div_denominator(n, 256, pow256(k - 2 - i));
        }
        assert(s.drop_last() =~= be_bytes(q, k - 1));
        assert(pow256(0) == 1);
        assert(s.last() == s[k - 1]);
        assert(s[k - 1] == ((n / pow256(0)) % 256) as u8);
        assert(n / 1 == n);
        assert(s.last() == (n % 256) as u8);
        reveal_with_fuel(pow256, 9);
        assert(pow256(k - 1) <= 0x100_0000_0000_0000) by {
            lemma_pow256_grows(k - 1, 7);
        }
        lemma_shift_in(q as u64, (n % 256) as u64);
    }
}

proof fn lemma_pow256_grows(a: int, b: int)
    requires
        0 <= a <= b,
    ensures
        pow256(a) <= pow256(b),
    decreases b - a,
{
    if a < b {
        lemma_pow256_grows(a, b - 1);
        lemma_pow256_positive(b - 1);
    }
}

proof fn lemma_unmask(payload: Seq<u8>, mask: Seq<u8>)
    requires
        mask.len() == 4,
    ensures
        masked(masked(payload, mask), mask) == payload,
{
    assert forall|i: int| 0 <= i < payload.len() implies #[trigger] masked(masked(payload, mask), mask)[i]
        == payload[i] by {
        let a = payload[i];
        let m = mask[i % 4];
        assert((a ^ m) ^ m == a) by (bit_vector);
    }
    assert(masked(masked(payload, mask), mask) =~= payload);
}

/// What `ws_frame` writes, `ws_read` reads back: the same opcode and the
/// same payload, unmasked.
pub proof fn lemma_frames_read_back(opcode: u8, payload: Seq<u8>, mask: Seq<u8>)
    requires
        opcode < 16,
        mask.len() == 4,
        payload.len() <= u64::MAX,
    ensures
        read_frames(frame_spec(opcode, payload, mask), 0, Seq::empty(), 0) == Some((opcode, payload)),
{
    let n = payload.len() as int;
    let w = frame_spec(opcode, payload, mask);
    let h0 = 0x80u8 | opcode;
    assert(h0 & 0x80 != 0 && h0 & 0x0f == opcode) by (bit_vector)
        requires
            h0 == 0x80u8 | opcode,
            opcode < 16,
    ;
    lemma_unmask(payload, mask);
    if n < 126 {
        let l = n as u8;
        let h1 = 0x80u8 | l;
        assert(h1 & 0x80 != 0 && h1 & 0x7f == l) by (bit_vector)
            requires
                h1 == 0x80u8 | l,
                l < 126,
        ;
        let q = 2int;
        assert(w.subrange(q, q + 4) =~= mask);
        assert(w.subrange(q + 4, q + 4 + n) =~= masked(payload, mask));
    } else if n <= 0xffff {
        let h1 = 0x80u8 | 126u8;
        assert(h1 & 0x80 != 0 && h1 & 0x7f == 126) by (bit_vector)
            requires
                h1 == 0x80u8 | 126u8,
        ;
        reveal_with_fuel(pow256, 3);
        assert(w.subrange(2, 4) =~= be_bytes(n, 2));
        lemma_be_bytes(n, 2);
        let q = 4int;
        assert(w.subrange(q, q + 4) =~= mask);
        assert(w.subrange(q + 4, q + 4 + n) =~= masked(payload, mask));
    } else {
        let h1 = 0x80u8 | 127u8;
        assert(h1 & 0x80 != 0 && h1 & 0x7f == 127) by (bit_vector)
            requires
                h1 == 0x80u8 | 127u8,
        ;
        reveal_with_fuel(pow256, 9);
        assert(w.subrange(2, 10) =~= be_bytes(n, 8));
        lemma_be_bytes(n, 8);
        let q = 10int;
        assert(w.subrange(q, q + 4) =~= mask);
        assert(w.subrange(q + 4, q + 4 + n) =~= masked(payload, mask));
    }
    assert(Seq::<u8>::empty() + payload =~= payload);
}


// ---------------------------------------------------------------------------
// The upgrade handshake
// ---------------------------------------------------------------------------

/// The HTTP request that upgrades a connection to `127.0.0.1:port` into a
/// WebSocket on `path`, offering `key`.
pub open spec fn upgrade_request_of(path: Seq<char>, port: nat, key: Seq<char>) -> Seq<char> {
    "GET "@ + path + " HTTP/1.1\r\nHost: 127.0.0.1:"@ + decimal(port)
        + "\r\nUpgrade: websocket\r\nConnection: Upgrade\r\nSec-WebSocket-Version: 13\r\nSec-WebSocket-Key: "@
        + key + "\r\n\r\n"@
}

/// The upgrade request for `path` on the loopback port `port`, offering
/// `key` (base64 of sixteen random bytes).
pub fn upgrade_request(path: &str, port: u16, key: &str) -> (r: String)
    ensures
        r@ == upgrade_request_of(path@, port as nat, key@),
{
    let mut out = chars_of("GET ");
    push_str(&mut out, path);
    push_str(&mut out, " HTTP/1.1\r\nHost: 127.0.0.1:");
    push_decimal(&mut out, port as u64);
    push_str(
        &mut out,
        "\r\nUpgrade: websocket\r\nConnection: Upgrade\r\nSec-WebSocket-Version: 13\r\nSec-WebSocket-Key: ",
    );
    push_str(&mut out, key);
    push_str(&mut out, "\r\n\r\n");
    string_of(out.as_slice())
}

/// Where reading the server's answer stands, byte by byte.
#[derive(Debug, Clone, Copy, PartialEq, Eq, Structural)]
pub enum HeadStep {
    /// Its headers are not over: read another byte.
    More,
    /// The blank line has come: what follows is the first frame.
    Done,
    /// Past sixteen kilobytes with no blank line: this is no handshake.
    TooLong,
}

pub open spec fn head_step_of(head: Seq<u8>) -> HeadStep {
    if head.len() >= 4 && head.skip(head.len() - 4) == seq![13u8, 10u8, 13u8, 10u8] {
        HeadStep::Done
    } else if head.len() > 16384 {
        HeadStep::TooLong
    } else {
        HeadStep::More
    }
}

/// Whether the answer read so far, `head`, is complete.
pub fn head_step(head: &[u8]) -> (r: HeadStep)
    ensures
        r == head_step_of(head@),
{
    let n = head.len();
    if n >= 4 && head[n - 4] == 13 && head[n - 3] == 10 && head[n - 2] == 13 && head[n - 1] == 10 {
        assert(head@.skip(n - 4) =~= seq![13u8, 10u8, 13u8, 10u8]);
        HeadStep::Done
    } else {
        proof {
            if n >= 4 && head@.skip(n - 4) == seq![13u8, 10u8, 13u8, 10u8] {
                assert(head@.skip(n - 4)[0] == head@[n - 4]);
                assert(head@.skip(n - 4)[1] == head@[n - 3]);
                assert(head@.skip(n - 4)[2] == head@[n - 2]);
                assert(head@.skip(n - 4)[3] == head@[n - 1]);
            }
        }
        if n > 16384 {
            HeadStep::TooLong
        } else {
            HeadStep::More
        }
    }
}

/// What the server's answer `head` (as text, invalid UTF-8 replaced) says
/// of the upgrade: accepted when it opens `HTTP/1.1 101`, else refused,
/// naming its first line.
pub open spec fn upgrade_answer_of(head: Seq<char>) -> Result<(), Seq<char>> {
    if has_prefix(head, "HTTP/1.1 101"@) {
        Ok(())
    } else {
        Err("the DevTools endpoint refused the upgrade: "@ + match line_at(head, 0) {
            Some(l) => l,
            None => Seq::empty(),
        })
    }
}

/// Whether the server accepted the upgrade, from its answer's bytes.
pub fn upgrade_answer(head: &[u8]) -> (r: Result<(), String>)
    ensures
        match r {
            Ok(()) => upgrade_answer_of(utf8_lossy(head@)) is Ok,
            Err(e) => upgrade_answer_of(utf8_lossy(head@)) == Err::<(), Seq<char>>(e@),
        },
{
    let text = chars_of(from_utf8_lossy(head).as_str());
    if starts_with(&text, &chars_of("HTTP/1.1 101")) {
        return Ok(());
    }
    let mut m = chars_of("the DevTools endpoint refused the upgrade: ");
    if text.len() > 0 {
        let (line, _) = read_line(&text, 0);
        push_all(&mut m, &line);
    }
    Err(string_of(m.as_slice()))
}

} // verus!
