//! The samples of an image stored in a page, widened to three bytes a pixel:
//! grey, RGB, or a palette, at one to eight bits a sample, every row starting
//! on a byte boundary.
use vstd::prelude::*;
use std::io::Write;
use crate::text::{chars_of, decimal, push_decimal, push_str, string_of};

verus! {

/// How the samples say what colour a pixel is.
#[derive(Debug, Clone, PartialEq, Eq)]
pub enum Space {
    Gray,
    Rgb,
    /// A palette: each sample is an index into `lookup`, which holds RGB
    /// triples.
    Indexed(Vec<u8>),
}

pub enum SpaceView {
    Gray,
    Rgb,
    Indexed(Seq<u8>),
}

impl View for Space {
    type V = SpaceView;

    open spec fn view(&self) -> SpaceView {
        match self {
            Space::Gray => SpaceView::Gray,
            Space::Rgb => SpaceView::Rgb,
            Space::Indexed(l) => SpaceView::Indexed(l@),
        }
    }
}

pub open spec fn components_of(s: SpaceView) -> nat {
    match s {
        SpaceView::Rgb => 3,
        _ => 1,
    }
}

impl Space {
    /// Samples per pixel.
    pub fn components(&self) -> (n: usize)
        ensures
            n == components_of(self@),
    {
        match self {
            Space::Rgb => 3,
            _ => 1,
        }
    }
}

/// An image's colour space entry, read down to plain values.
pub enum SpaceEntry {
    /// A name, such as `DeviceRGB`.
    Name(String),
    /// An array: the name it opens with, the `N` of the ICC profile stream
    /// its second element is, what its second element reads as, and the
    /// palette its fourth element holds (a string, or a stream's
    /// decompressed bytes).
    Array {
        head: Option<String>,
        n: Option<i64>,
        base: Option<Box<SpaceEntry>>,
        lookup: Option<Vec<u8>>,
    },
    /// Anything else.
    Other,
}

/// A grey palette widened to three bytes an entry.
pub open spec fn widened(l: Seq<u8>) -> Seq<u8> {
    Seq::new(3 * l.len(), |i: int| l[i / 3])
}

/// The space a bare name gives.
pub open spec fn named_space(n: Seq<char>) -> Option<SpaceView> {
    if n == "DeviceGray"@ || n == "CalGray"@ || n == "G"@ {
        Some(SpaceView::Gray)
    } else if n == "DeviceRGB"@ || n == "CalRGB"@ || n == "RGB"@ {
        Some(SpaceView::Rgb)
    } else {
        None
    }
}

/// The space an entry reads as: a device or calibrated space by name, an
/// ICC profile by its component count, a palette over a grey or RGB base
/// (a grey one widened to RGB); `None` for anything else.
pub open spec fn space_of_entry(e: SpaceEntry) -> Option<SpaceView>
    decreases e,
{
    match e {
        SpaceEntry::Name(n) => named_space(n@),
        SpaceEntry::Other => None,
        SpaceEntry::Array { head, n, base, lookup } => match head {
            None => None,
            Some(h) => if h@ == "ICCBased"@ {
                match n {
                    Some(c) => if c == 1 {
                        Some(SpaceView::Gray)
                    } else if c == 3 {
                        Some(SpaceView::Rgb)
                    } else {
                        None
                    },
                    None => None,
                }
            } else if h@ == "CalRGB"@ {
                Some(SpaceView::Rgb)
            } else if h@ == "CalGray"@ {
                Some(SpaceView::Gray)
            } else if h@ == "Indexed"@ || h@ == "I"@ {
                match base {
                    Some(b) => match lookup {
                        Some(l) => match space_of_entry(*b) {
                            Some(SpaceView::Gray) => Some(SpaceView::Indexed(widened(l@))),
                            Some(SpaceView::Rgb) => Some(SpaceView::Indexed(l@)),
                            _ => None,
                        },
                        None => None,
                    },
                    None => None,
                }
            } else {
                None
            },
        },
    }
}

/// Reads an image's colour space entry.
pub fn read_space(e: &SpaceEntry) -> (r: Option<Space>)
    ensures
        match r {
            Some(s) => space_of_entry(*e) == Some(s@),
            None => space_of_entry(*e) is None,
        },
    decreases e,
{
    match e {
        SpaceEntry::Name(n) => {
            let n = chars_of(n.as_str());
            if crate::text::is(&n, "DeviceGray") || crate::text::is(&n, "CalGray") || crate::text::is(&n, "G") {
                Some(Space::Gray)
            } else if crate::text::is(&n, "DeviceRGB") || crate::text::is(&n, "CalRGB") || crate::text::is(&n, "RGB") {
                Some(Space::Rgb)
            } else {
                None
            }
        },
        SpaceEntry::Other => None,
        SpaceEntry::Array { head, n, base, lookup } => {
            let h = match head {
                Some(h) => chars_of(h.as_str()),
                None => return None,
            };
            if crate::text::is(&h, "ICCBased") {
                match n {
                    Some(c) => if *c == 1 {
                        Some(Space::Gray)
                    } else if *c == 3 {
                        Some(Space::Rgb)
                    } else {
                        None
                    },
                    None => None,
                }
            } else if crate::text::is(&h, "CalRGB") {
                Some(Space::Rgb)
            } else if crate::text::is(&h, "CalGray") {
                Some(Space::Gray)
            } else if crate::text::is(&h, "Indexed") || crate::text::is(&h, "I") {
                let (b, l) = match (base, lookup) {
                    (Some(b), Some(l)) => (b, l),
                    _ => return None,
                };
                match read_space(&**b) {
                    Some(Space::Gray) => {
                        let mut out: Vec<u8> = Vec::new();
                        let mut i: usize = 0;
                        while i < l.len()
                            invariant
                                i <= l.len(),
                                out@ == widened(l@.take(i as int)),
                            decreases l.len() - i,
                        {
                            let g = l[i];
                            out.push(g);
                            out.push(g);
                            out.push(g);
                            proof {
                                assert(widened(l@.take(i + 1)) =~= widened(l@.take(i as int)) + seq![g, g, g]);
                            }
                            i += 1;
                        }
                        assert(l@.take(l.len() as int) =~= l@);
                        Some(Space::Indexed(out))
                    },
                    Some(Space::Rgb) => Some(Space::Indexed(l.clone())),
                    _ => None,
                }
            } else {
                None
            }
        },
    }
}

/// The space an image's samples are read in: a stencil mask is grey
/// whatever else the dictionary says; otherwise its colour space entry,
/// if it has one that reads.
pub fn image_space(mask: bool, entry: Option<&SpaceEntry>) -> (r: Option<Space>)
    ensures
        mask ==> r == Some(Space::Gray),
        !mask ==> match entry {
            None => r is None,
            Some(e) => match r {
                Some(s) => space_of_entry(*e) == Some(s@),
                None => space_of_entry(*e) is None,
            },
        },
{
    if mask {
        Some(Space::Gray)
    } else {
        match entry {
            Some(e) => read_space(e),
            None => None,
        }
    }
}

/// Sample `index` of a row, `bits` wide; a sample past the row's end is 0.
pub open spec fn sample_of(row: Seq<u8>, index: int, bits: int) -> u32 {
    if bits == 8 {
        if 0 <= index < row.len() {
            row[index] as u32
        } else {
            0
        }
    } else {
        let bit = index * bits;
        let byte: u32 = if 0 <= bit / 8 < row.len() {
            row[bit / 8] as u32
        } else {
            0
        };
        (byte >> ((8 - bits - bit % 8) as u32)) & (((1u32 << (bits as u32)) - 1) as u32)
    }
}

/// Whether every sample a row of `n` samples holds sits inside one byte:
/// eight bits a sample, or a narrower sample that does not cross a byte.
pub open spec fn samples_fit(n: int, bits: int) -> bool {
    bits == 8 || (bits < 8 && forall|i: int| 0 <= i < n ==> (#[trigger] (i * bits)) % 8 + bits <= 8)
}

proof fn lemma_mask(b: u32)
    requires
        b <= 8,
    ensures
        1 <= (1u32 << b) <= 256,
        b == 8 ==> (1u32 << b) == 256,
        forall|x: u32| #[trigger] (x & ((1u32 << b) - 1) as u32) <= ((1u32 << b) - 1) as u32,
{
    assert(1 <= (1u32 << b) <= 256) by (bit_vector)
        requires
            b <= 8,
    ;
    assert(b == 8 ==> (1u32 << b) == 256) by (bit_vector);
    assert forall|x: u32| #[trigger] (x & ((1u32 << b) - 1) as u32) <= ((1u32 << b) - 1) as u32 by {
        assert((x & ((1u32 << b) - 1) as u32) <= ((1u32 << b) - 1) as u32) by (bit_vector)
            requires
                b <= 8,
        ;
    }
}

/// One sample, however many bits wide it is.
pub fn read_bits(row: &[u8], index: usize, bits: usize) -> (r: u32)
    requires
        bits <= 8,
        bits == 8 || (index * bits) % 8 + bits <= 8,
        index * bits <= usize::MAX,
    ensures
        r == sample_of(row@, index as int, bits as int),
        r <= ((1u32 << (bits as u32)) - 1) as u32,
{
    proof {
        lemma_mask(bits as u32);
    }
    if bits == 8 {
        if index < row.len() {
            row[index] as u32
        } else {
            0
        }
    } else {
        let bit = index * bits;
        let byte: u32 = if bit / 8 < row.len() {
            row[bit / 8] as u32
        } else {
            0
        };
        let shift = (8 - bits - (bit % 8)) as u32;
        let b = bits as u32;
        proof {
            lemma_mask(b);
        }
        (byte >> shift) & ((1u32 << b) - 1)
    }
}

/// A sample stretched from `0..=max` to `0..=255`, rounded half away from
/// zero; with no range at all (zero bits) it is zero.
pub open spec fn stretched(raw: u32, max: u32) -> nat {
    if max == 0 {
        0
    } else {
        ((2 * raw * 255 + max) / (2 * max as int)) as nat
    }
}

pub open spec fn min255(v: nat) -> u8 {
    if v > 255 {
        255
    } else {
        v as u8
    }
}

/// The three bytes for a pixel whose first component is `p0` and whose
/// components are `p`.
pub open spec fn pixel_out(space: SpaceView, p: Seq<u8>) -> Seq<u8> {
    match space {
        SpaceView::Gray => seq![p[0], p[0], p[0]],
        SpaceView::Rgb => p,
        SpaceView::Indexed(lookup) => {
            let at = p[0] * 3;
            if at + 3 <= lookup.len() {
                lookup.subrange(at as int, at + 3)
            } else {
                seq![0u8, 0u8, 0u8]
            }
        },
    }
}

/// Component `c` of pixel `x` in `row`, as a byte.
pub open spec fn component(row: Seq<u8>, x: int, c: int, comps: int, bits: int, space: SpaceView, inverted: bool) -> u8 {
    let raw = sample_of(row, x * comps + c, bits);
    let max = (((1u32 << (bits as u32)) - 1) as u32);
    let value: nat = if space is Indexed {
        raw as nat
    } else {
        stretched(raw, max)
    };
    let value = if inverted && !(space is Indexed) {
        (255 - min255(value)) as nat
    } else {
        value
    };
    min255(value)
}

/// The components of pixel `x` of `row`, as many as the space has, then
/// zeros to three.
pub open spec fn pixel_of(row: Seq<u8>, x: int, bits: int, space: SpaceView, inverted: bool) -> Seq<u8> {
    let comps = components_of(space) as int;
    Seq::new(3, |c: int| if c < comps { component(row, x, c, comps, bits, space, inverted) } else { 0u8 })
}

/// Bytes per row: every row starts on a byte boundary.
pub open spec fn row_bytes_of(width: int, comps: int, bits: int) -> int {
    (width * comps * bits + 7) / 8
}

/// The output for the first `k` pixels, row by row.
pub open spec fn rgb_upto(samples: Seq<u8>, width: int, bits: int, space: SpaceView, inverted: bool, k: int) -> Seq<u8>
    decreases k,
{
    if k <= 0 || width <= 0 {
        Seq::empty()
    } else {
        let y = (k - 1) / width;
        let x = (k - 1) % width;
        let rb = row_bytes_of(width, components_of(space) as int, bits);
        rgb_upto(samples, width, bits, space, inverted, k - 1) + pixel_out(
            space,
            pixel_of(samples.skip(y * rb), x, bits, space, inverted),
        )
    }
}

pub open spec fn short_message(len: nat, width: nat, height: nat, need: nat) -> Seq<char> {
    decimal(len) + " bytes of samples for a "@ + decimal(width) + "×"@ + decimal(height)
        + " image that needs "@ + decimal(need)
}

fn component_at(row: &[u8], x: usize, c: usize, comps: usize, bits: usize, space: &Space, inverted: bool, max: u32) -> (v: u8)
    requires
        bits <= 8,
        x * comps + c <= usize::MAX,
        (x * comps + c) * bits <= usize::MAX,
        bits == 8 || ((x * comps + c) * bits) % 8 + bits <= 8,
        max == (((1u32 << (bits as u32)) - 1) as u32),
    ensures
        v == component(row@, x as int, c as int, comps as int, bits as int, space@, inverted),
{
    proof {
        lemma_mask(bits as u32);
    }
    let at = x * comps + c;
    let raw = read_bits(row, at, bits);
    let indexed = match space {
        Space::Indexed(_) => true,
        _ => false,
    };
    let value: u32 = if indexed {
        raw
    } else if max == 0 {
        0
    } else {
        assert((2 * raw * 255 + max) / (2 * max as int) <= 255) by (nonlinear_arith)
            requires
                raw <= max,
                max > 0,
        ;
        ((2 * (raw as u64) * 255 + max as u64) / (2 * max as u64)) as u32
    };
    let value = if inverted && !indexed {
        255 - (if value > 255 {
            255
        } else {
            value
        })
    } else {
        value
    };
    if value > 255 {
        255
    } else {
        value as u8
    }
}

/// Samples in, three bytes a pixel out. Samples are one, two, four or eight
/// bits wide (or, wherever no sample crosses a byte, another width up to
/// eight); a palette index past the palette's end is black.
pub fn to_rgb(samples: &[u8], width: usize, height: usize, bits: usize, space: &Space, inverted: bool) -> (r: Result<Vec<u8>, String>)
    requires
        bits <= 8,
        samples_fit(width * components_of(space@), bits as int),
        width * components_of(space@) <= usize::MAX,
        width * components_of(space@) * bits + 7 <= usize::MAX,
        row_bytes_of(width as int, components_of(space@) as int, bits as int) * height <= usize::MAX,
        width * height * 3 <= usize::MAX,
    ensures
        ({
            let need = row_bytes_of(width as int, components_of(space@) as int, bits as int) * height;
            match r {
                Ok(out) => samples@.len() >= need && out@ == rgb_upto(
                    samples@,
                    width as int,
                    bits as int,
                    space@,
                    inverted,
                    width * height,
                ),
                Err(e) => samples@.len() < need && e@ == short_message(
                    samples@.len(),
                    width as nat,
                    height as nat,
                    need as nat,
                ),
            }
        }),
{
    let comps = space.components();
    let row_bytes = (width * comps * bits + 7) / 8;
    let need = row_bytes * height;
    if samples.len() < need {
        let mut msg: Vec<char> = Vec::new();
        push_decimal(&mut msg, samples.len() as u64);
        push_str(&mut msg, " bytes of samples for a ");
        push_decimal(&mut msg, width as u64);
        push_str(&mut msg, "×");
        push_decimal(&mut msg, height as u64);
        push_str(&mut msg, " image that needs ");
        push_decimal(&mut msg, need as u64);
        return Err(string_of(msg.as_slice()));
    }
    let b = bits as u32;
    proof {
        lemma_mask(b);
    }
    let max: u32 = (1u32 << b) - 1;
    let mut out: Vec<u8> = Vec::new();
    let mut y: usize = 0;
    while y < height
        invariant
            y <= height,
            comps == components_of(space@),
            row_bytes == row_bytes_of(width as int, comps as int, bits as int),
            need == row_bytes * height,
            samples@.len() >= need,
            bits <= 8,
            samples_fit(width * comps, bits as int),
            width * height * 3 <= usize::MAX,
            width * comps <= usize::MAX,
            width * comps * bits + 7 <= usize::MAX,
            max == (((1u32 << (bits as u32)) - 1) as u32),
            out@ == rgb_upto(samples@, width as int, bits as int, space@, inverted, y * width),
        decreases height - y,
    {
        assert(y * row_bytes <= need) by (nonlinear_arith)
            requires
                y < height,
                need == row_bytes * height,
                row_bytes >= 0,
        ;
        let row = vstd::slice::slice_subrange(samples, y * row_bytes, samples.len());
        assert(row@ =~= samples@.skip(y * row_bytes));
        let mut x: usize = 0;
        while x < width
            invariant
                x <= width,
                y < height,
                comps == components_of(space@),
                row_bytes == row_bytes_of(width as int, comps as int, bits as int),
                bits <= 8,
                samples_fit(width * comps, bits as int),
                width * height * 3 <= usize::MAX,
                max == (((1u32 << (bits as u32)) - 1) as u32),
                row@ == samples@.skip(y * row_bytes),
                width * comps <= usize::MAX,
                width * comps * bits + 7 <= usize::MAX,
                out@ == rgb_upto(samples@, width as int, bits as int, space@, inverted, y * width + x),
            decreases width - x,
        {
            let ghost k = y * width + x;
            assert((k + 1 - 1) / (width as int) == y && (k + 1 - 1) % (width as int) == x) by (nonlinear_arith)
                requires
                    k == y * width + x,
                    x < width,
            ;
            let mut pixel: [u8; 3] = [0u8; 3];
            let mut c: usize = 0;
            while c < comps
                invariant
                    c <= comps <= 3,
                    x < width,
                    comps == components_of(space@),
                    bits <= 8,
                    samples_fit(width * comps, bits as int),
                    width * comps <= usize::MAX,
                    width * comps * bits + 7 <= usize::MAX,
                    max == (((1u32 << (bits as u32)) - 1) as u32),
                    forall|j: int|
                        0 <= j < 3 ==> pixel@[j] == if j < c {
                            component(row@, x as int, j, comps as int, bits as int, space@, inverted)
                        } else {
                            0u8
                        },
                decreases comps - c,
            {
                assert(x * comps + c < width * comps) by (nonlinear_arith)
                    requires
                        x < width,
                        c < comps,
                ;
                let ghost at: int = x * comps + c;
                let ghost wc: int = width * comps;
                assert(at * bits <= wc * bits) by (nonlinear_arith)
                    requires
                        at < wc,
                        bits >= 0,
                ;
                assert(wc * bits == width * comps * bits);
                assert(at * bits <= usize::MAX);
                assert(bits == 8 || ((x * comps + c) * bits) % 8 + bits <= 8);
                let v = component_at(row, x, c, comps, bits, space, inverted, max);
                pixel[c] = v;
                c += 1;
            }
            let ghost p = pixel@;
            assert(p =~= pixel_of(row@, x as int, bits as int, space@, inverted));
            match space {
                Space::Gray => {
                    out.push(pixel[0]);
                    out.push(pixel[0]);
                    out.push(pixel[0]);
                },
                Space::Rgb => {
                    out.push(pixel[0]);
                    out.push(pixel[1]);
                    out.push(pixel[2]);
                },
                Space::Indexed(lookup) => {
                    let at = pixel[0] as usize * 3;
                    if at + 3 <= lookup.len() {
                        out.push(lookup[at]);
                        out.push(lookup[at + 1]);
                        out.push(lookup[at + 2]);
                    } else {
                        out.push(0);
                        out.push(0);
                        out.push(0);
                    }
                },
            }
            assert(out@ =~= rgb_upto(samples@, width as int, bits as int, space@, inverted, k + 1));
            x += 1;
        }
        assert(y * width + width == (y + 1) * width) by (nonlinear_arith);
        y += 1;
    }
    assert(height * width == width * height) by (nonlinear_arith);
    Ok(out)
}


// ---------------------------------------------------------------------------
// PNG
// ---------------------------------------------------------------------------

/// One bit of CRC-32: the register shifted right, the reflected
/// polynomial `0xEDB88320` folded in when the bit shifted out was set.
pub open spec fn crc_bit(c: u32) -> u32 {
    if c & 1 == 1 {
        (c >> 1) ^ 0xEDB8_8320
    } else {
        c >> 1
    }
}

/// The register after one byte: the byte folded into its low bits, then
/// eight bits.
pub open spec fn crc_byte(c: u32, b: u8) -> u32 {
    crc_bit(crc_bit(crc_bit(crc_bit(crc_bit(crc_bit(crc_bit(crc_bit(c ^ (b as u32)))))))))
}

/// The register after a run of bytes.
pub open spec fn crc_over(c: u32, b: Seq<u8>) -> u32
    decreases b.len(),
{
    if b.len() == 0 {
        c
    } else {
        crc_byte(crc_over(c, b.drop_last()), b.last())
    }
}

/// CRC-32 (the ISO-HDLC one PNG and zlib's gzip use, as `flate2::Crc`
/// computes it): the register starts all ones, takes each byte, and ends
/// inverted.
pub open spec fn crc32_of(b: Seq<u8>) -> u32 {
    crc_over(0xFFFF_FFFF, b) ^ 0xFFFF_FFFF
}

/// `flate2::Crc`, fed `kind` and then `data`, and asked for its sum: the
/// CRC-32 of the two one after the other.
#[verifier::external_body]
fn crc32(kind: &[u8], data: &[u8]) -> (r: u32)
    ensures
        r == crc32_of(kind@ + data@),
{
    let mut crc = flate2::Crc::new();
    crc.update(kind);
    crc.update(data);
    crc.sum()
}

/// What `flate2`'s zlib encoder at the default level writes for `raw`,
/// given it in one piece, flushed, then finished.
pub uninterp spec fn zlib_of(raw: Seq<u8>) -> Seq<u8>;

/// `flate2::write::ZlibEncoder` over a `Vec`: write, flush, finish. It
/// succeeds, and its bytes are the named stream: the encoder writes into
/// memory, and its only error, a compressor in a bad state, is not reached
/// by a fresh encoder fed once. The `Result` is the encoder's own.
#[verifier::external_body]
fn zlib(raw: &[u8]) -> (r: Result<Vec<u8>, String>)
    ensures
        r is Ok,
        r matches Ok(z) ==> z@ == zlib_of(raw@),
{
    let mut encoder = flate2::write::ZlibEncoder::new(Vec::new(), flate2::Compression::default());
    encoder.write_all(raw).and_then(|()| encoder.flush()).map_err(|e| e.to_string())?;
    encoder.finish().map_err(|e| e.to_string())
}

/// A `u32` as four bytes, most significant first.
pub open spec fn be32(v: u32) -> Seq<u8> {
    seq![
        (v / 0x100_0000) as u8,
        ((v / 0x1_0000) % 256) as u8,
        ((v / 256) % 256) as u8,
        (v % 256) as u8,
    ]
}

fn push_be32(out: &mut Vec<u8>, v: u32)
    ensures
        final(out)@ == old(out)@ + be32(v),
{
    out.push((v / 0x100_0000) as u8);
    out.push(((v / 0x1_0000) % 256) as u8);
    out.push(((v / 256) % 256) as u8);
    out.push((v % 256) as u8);
    assert(final(out)@ =~= old(out)@ + be32(v));
}

/// One chunk: its length, its kind, its data, and the CRC of kind and data.
pub open spec fn png_chunk(kind: Seq<u8>, data: Seq<u8>) -> Seq<u8> {
    be32(data.len() as u32) + kind + data + be32(crc32_of(kind + data))
}

fn push_chunk(out: &mut Vec<u8>, kind: &[u8], data: &[u8])
    ensures
        final(out)@ == old(out)@ + png_chunk(kind@, data@),
{
    push_be32(out, data.len() as u32);
    let mut i: usize = 0;
    let ghost start = out@;
    while i < kind.len()
        invariant
            i <= kind@.len(),
            out@ == start + kind@.take(i as int),
        decreases kind@.len() - i,
    {
        out.push(kind[i]);
        assert(kind@.take(i + 1) =~= kind@.take(i as int).push(kind@[i as int]));
        i += 1;
    }
    assert(kind@.take(kind@.len() as int) =~= kind@);
    let ghost mid = out@;
    let mut j: usize = 0;
    while j < data.len()
        invariant
            j <= data@.len(),
            out@ == mid + data@.take(j as int),
        decreases data@.len() - j,
    {
        out.push(data[j]);
        assert(data@.take(j + 1) =~= data@.take(j as int).push(data@[j as int]));
        j += 1;
    }
    assert(data@.take(data@.len() as int) =~= data@);
    let c = crc32(kind, data);
    push_be32(out, c);
    assert(final(out)@ =~= old(out)@ + png_chunk(kind@, data@));
}

/// Whether a PNG carries an alpha channel.
#[derive(Debug, Clone, Copy, PartialEq, Eq, Structural)]
pub enum Colour {
    Rgb,
    Rgba,
}

pub open spec fn channels_of(c: Colour) -> nat {
    match c {
        Colour::Rgb => 3,
        Colour::Rgba => 4,
    }
}

pub open spec fn colour_type_of(c: Colour) -> u8 {
    match c {
        Colour::Rgb => 2,
        Colour::Rgba => 6,
    }
}

/// The first `h` rows of pixels, each `row` bytes wide, each led by the
/// filter byte that says it is unfiltered.
pub open spec fn scanlines(pixels: Seq<u8>, row: nat, h: nat) -> Seq<u8>
    decreases h,
{
    if h == 0 {
        Seq::empty()
    } else {
        scanlines(pixels, row, (h - 1) as nat) + seq![0u8] + pixels.subrange(
            (h - 1) * row,
            (h * row) as int,
        )
    }
}

/// The bytes of `PNG` after the high-bit byte, and the line endings that
/// catch a file mangled in transit.
pub open spec fn png_signature() -> Seq<u8> {
    seq![0x89u8, 0x50, 0x4e, 0x47, 0x0d, 0x0a, 0x1a, 0x0a]
}

pub open spec fn ihdr() -> Seq<u8> {
    seq![0x49u8, 0x48, 0x44, 0x52]
}

pub open spec fn idat() -> Seq<u8> {
    seq![0x49u8, 0x44, 0x41, 0x54]
}

pub open spec fn iend() -> Seq<u8> {
    seq![0x49u8, 0x45, 0x4e, 0x44]
}

/// The simplest PNG the format allows: eight bits a channel, no
/// interlacing, every scanline unfiltered, so the only compression is
/// zlib's.
pub open spec fn png_of(width: usize, height: usize, colour: Colour, pixels: Seq<u8>) -> Seq<u8> {
    let row = (width * channels_of(colour)) as nat;
    png_signature() + png_chunk(ihdr(), header_of(width, height, colour)) + png_chunk(
        idat(),
        zlib_of(scanlines(pixels, row, height as nat)),
    ) + png_chunk(
        iend(),
        Seq::empty(),
    )
}

/// The IHDR chunk's data: size, eight bits a channel, the colour type, and
/// no compression, filter or interlace choices beyond the defaults.
pub open spec fn header_of(width: usize, height: usize, colour: Colour) -> Seq<u8> {
    be32(width as u32) + be32(height as u32) + seq![8u8, colour_type_of(colour), 0, 0, 0]
}

/// The rows of `pixels` as unfiltered scanlines, or `None` when the pixels
/// run short of `height` rows of `row` bytes.
fn scanline_bytes(pixels: &[u8], row: usize, height: usize) -> (r: Option<Vec<u8>>)
    requires
        (1 + row) * height <= usize::MAX,
    ensures
        match r {
            Some(raw) => row * height <= pixels@.len() && raw@ == scanlines(
                pixels@,
                row as nat,
                height as nat,
            ),
            None => row * height > pixels@.len(),
        },
{
    let plen = pixels.len();
    let mut raw: Vec<u8> = Vec::new();
    let mut y: usize = 0;
    while y < height
        invariant
            y <= height,
            plen == pixels@.len(),
            (1 + row) * height <= usize::MAX,
            raw@ == scanlines(pixels@, row as nat, y as nat),
            y * row <= pixels@.len(),
        decreases height - y,
    {
        assert((y + 1) * row <= (1 + row) * height) by (nonlinear_arith)
            requires y < height, row >= 0;
        assert(y * row + row == (y + 1) * row) by (nonlinear_arith);
        let from = y * row;
        if from + row > plen {
            assert(row * height >= (y + 1) * row) by (nonlinear_arith)
                requires y < height, row >= 0;
            return None;
        }
        raw.push(0);
        let ghost before = raw@;
        let mut k: usize = 0;
        while k < row
            invariant
                k <= row,
                from + row <= plen,
                plen == pixels@.len(),
                raw@ == before + pixels@.subrange(from as int, from + k),
            decreases row - k,
        {
            raw.push(pixels[from + k]);
            assert(pixels@.subrange(from as int, from + k + 1) =~= pixels@.subrange(
                from as int,
                from + k,
            ).push(pixels@[from + k]));
            k += 1;
        }
        y += 1;
        assert(raw@ =~= scanlines(pixels@, row as nat, y as nat));
    }
    assert(row * height == height * row) by (nonlinear_arith);
    Some(raw)
}

/// The file around compressed data: signature, header, data, end.
fn png_bytes(width: usize, height: usize, colour: Colour, data: &[u8]) -> (r: Vec<u8>)
    ensures
        r@ == png_signature() + png_chunk(ihdr(), header_of(width, height, colour)) + png_chunk(
            idat(),
            data@,
        ) + png_chunk(iend(), Seq::empty()),
{
    let colour_type: u8 = match colour {
        Colour::Rgb => 2,
        Colour::Rgba => 6,
    };
    let mut header: Vec<u8> = Vec::new();
    push_be32(&mut header, #[verifier::truncate] (width as u32));
    push_be32(&mut header, #[verifier::truncate] (height as u32));
    header.push(8);
    header.push(colour_type);
    header.push(0);
    header.push(0);
    header.push(0);
    assert(header@ =~= header_of(width, height, colour));
    let mut out: Vec<u8> = vec![0x89, 0x50, 0x4e, 0x47, 0x0d, 0x0a, 0x1a, 0x0a];
    let kind_ihdr: [u8; 4] = [0x49, 0x48, 0x44, 0x52];
    let kind_idat: [u8; 4] = [0x49, 0x44, 0x41, 0x54];
    let kind_iend: [u8; 4] = [0x49, 0x45, 0x4e, 0x44];
    let empty: Vec<u8> = Vec::new();
    assert(kind_ihdr@ =~= ihdr());
    assert(kind_idat@ =~= idat());
    assert(kind_iend@ =~= iend());
    assert(out@ =~= png_signature());
    push_chunk(&mut out, &kind_ihdr, header.as_slice());
    push_chunk(&mut out, &kind_idat, data);
    push_chunk(&mut out, &kind_iend, empty.as_slice());
    assert(empty@ =~= Seq::<u8>::empty());
    out
}

/// Writes `pixels` (rows of `width` pixels, three or four bytes each) as a
/// PNG; an image whose pixels run short of its size is refused.
pub fn png(width: usize, height: usize, colour: Colour, pixels: &[u8]) -> (r: Result<
    Vec<u8>,
    String,
>)
    requires
        (1 + width * channels_of(colour)) * height <= usize::MAX,
    ensures
        ({
            let need = width * channels_of(colour) * height;
            match r {
                Ok(b) => pixels@.len() >= need && b@ == png_of(width, height, colour, pixels@),
                Err(e) => pixels@.len() < need && e@ == "an image shorter than its own size"@,
            }
        }),
{
    let channels: usize = match colour {
        Colour::Rgb => 3,
        Colour::Rgba => 4,
    };
    assert(width * channels <= (1 + width * channels) * height || height == 0) by (nonlinear_arith)
        requires height >= 0, width >= 0, channels >= 0;
    let row = if height == 0 {
        0
    } else {
        width * channels
    };
    assert(row * height == width * channels * height) by (nonlinear_arith)
        requires height == 0 || row == width * channels;
    assert((1 + row) * height <= usize::MAX) by (nonlinear_arith)
        requires height == 0 || row == width * channels, (1 + width * channels) * height <= usize::MAX;
    let raw = match scanline_bytes(pixels, row, height) {
        Some(raw) => raw,
        None => return Err(string_of(chars_of("an image shorter than its own size").as_slice())),
    };
    assert(raw@ == scanlines(pixels@, (width * channels_of(colour)) as nat, height as nat)) by {
        if height == 0 {
        }
    }
    let data = match zlib(raw.as_slice()) {
        Ok(d) => d,
        Err(e) => return Err(e),
    };
    Ok(png_bytes(width, height, colour, data.as_slice()))
}



// ---------------------------------------------------------------------------
// Lifting a stored image out
// ---------------------------------------------------------------------------

/// An image, ready to be written to disk.
pub struct Extracted {
    pub bytes: Vec<u8>,
    pub extension: &'static str,
    /// What it turned out to be, for the line the command prints.
    pub what: String,
}

/// What an image's filter chain allows.
#[derive(Debug, Clone, PartialEq, Eq)]
pub enum Stored {
    /// A JPEG file with its header in the dictionary: its bytes are the
    /// photograph as it was.
    Jpeg,
    /// Something not unwrapped here, and why.
    Refused(String),
    /// Samples, once decompressed.
    Samples,
}

pub open spec fn texts(v: Seq<String>) -> Seq<Seq<char>> {
    v.map_values(|s: String| s@)
}

/// Why a filter chain is refused, if it is.
pub open spec fn refusal(f: Seq<Seq<char>>) -> Option<Seq<char>> {
    if f.len() > 0 && f.last() == "DCTDecode"@ {
        if f.len() > 1 {
            Some("a JPEG behind another filter, which is not unwrapped here"@)
        } else {
            None
        }
    } else if f.len() > 0 && f.last() == "JPXDecode"@ {
        Some("JPEG 2000, which no browser but Safari shows"@)
    } else if exists|i: int|
        0 <= i < f.len() && (f[i] == "CCITTFaxDecode"@ || f[i] == "JBIG2Decode"@) {
        Some("a fax-coded scan, which is not decoded here"@)
    } else {
        None
    }
}

/// What a stream whose filters are `filters` (first applied first) holds.
pub fn by_filters(filters: &Vec<String>) -> (r: Stored)
    ensures
        match r {
            Stored::Jpeg => texts(filters@).len() == 1 && texts(filters@)[0] == "DCTDecode"@,
            Stored::Refused(m) => refusal(texts(filters@)) == Some(m@),
            Stored::Samples => refusal(texts(filters@)) is None && !(texts(filters@).len() > 0
                && texts(filters@).last() == "DCTDecode"@),
        },
{
    let n = filters.len();
    let ghost f = texts(filters@);
    if n > 0 {
        let last = chars_of(filters[n - 1].as_str());
        assert(f.last() == last@);
        if crate::text::is(&last, "DCTDecode") {
            if n > 1 {
                return Stored::Refused(
                    string_of(
                        chars_of(
                            "a JPEG behind another filter, which is not unwrapped here",
                        ).as_slice(),
                    ),
                );
            }
            return Stored::Jpeg;
        }
        if crate::text::is(&last, "JPXDecode") {
            return Stored::Refused(
                string_of(chars_of("JPEG 2000, which no browser but Safari shows").as_slice()),
            );
        }
    }
    let mut i: usize = 0;
    while i < n
        invariant
            i <= n == filters@.len(),
            f == texts(filters@),
            n > 0 ==> f.last() != "DCTDecode"@ && f.last() != "JPXDecode"@,
            forall|j: int| 0 <= j < i ==> f[j] != "CCITTFaxDecode"@ && f[j] != "JBIG2Decode"@,
        decreases n - i,
    {
        let name = chars_of(filters[i].as_str());
        assert(f[i as int] == name@);
        if crate::text::is(&name, "CCITTFaxDecode") || crate::text::is(&name, "JBIG2Decode") {
            return Stored::Refused(
                string_of(chars_of("a fax-coded scan, which is not decoded here").as_slice()),
            );
        }
        i += 1;
    }
    Stored::Samples
}

/// A JPEG lifted out as the file it was.
pub fn jpeg(content: Vec<u8>) -> (r: Extracted)
    ensures
        r.bytes@ == content@,
        r.extension@ == "jpg"@,
        r.what@ == "JPEG"@,
{
    Extracted { bytes: content, extension: "jpg", what: string_of(chars_of("JPEG").as_slice()) }
}

/// RGB pixels with an alpha byte after each: as many as both have.
pub open spec fn interleaved(rgb: Seq<u8>, alpha: Seq<u8>) -> Seq<u8> {
    let n = if rgb.len() / 3 < alpha.len() {
        rgb.len() / 3
    } else {
        alpha.len()
    };
    Seq::new(
        4 * n,
        |i: int|
            if i % 4 == 3 {
                alpha[i / 4]
            } else {
                rgb[(i / 4) * 3 + i % 4]
            },
    )
}

/// Each RGB pixel followed by its alpha.
pub fn with_alpha(rgb: &Vec<u8>, alpha: &Vec<u8>) -> (r: Vec<u8>)
    requires
        rgb@.len() % 3 == 0,
        4 * (rgb@.len() / 3) <= usize::MAX,
    ensures
        r@ == interleaved(rgb@, alpha@),
{
    let rlen = rgb.len();
    let pixels = if rgb.len() / 3 < alpha.len() {
        rgb.len() / 3
    } else {
        alpha.len()
    };
    let mut out: Vec<u8> = Vec::new();
    let mut p: usize = 0;
    while p < pixels
        invariant
            p <= pixels,
            rlen == rgb@.len(),
            4 * (rgb@.len() / 3) <= usize::MAX,
            pixels <= rgb@.len() / 3,
            pixels <= alpha@.len(),
            pixels as int == (if rgb@.len() / 3 < alpha@.len() {
                rgb@.len() / 3
            } else {
                alpha@.len()
            }),
            out@.len() == 4 * p,
            forall|i: int| 0 <= i < 4 * p ==> out@[i] == interleaved(rgb@, alpha@)[i],
        decreases pixels - p,
    {
        out.push(rgb[3 * p]);
        out.push(rgb[3 * p + 1]);
        out.push(rgb[3 * p + 2]);
        out.push(alpha[p]);
        assert forall|i: int| 0 <= i < 4 * (p + 1) implies out@[i] == interleaved(rgb@, alpha@)[i] by {
            if i >= 4 * p {
                assert(i / 4 == p);
            }
        }
        p += 1;
    }
    assert(out@ =~= interleaved(rgb@, alpha@));
    out
}

/// The alpha a grey mask gives: its first byte of each widened pixel.
pub open spec fn firsts(gray: Seq<u8>) -> Seq<u8> {
    Seq::new(gray.len() / 3, |i: int| gray[3 * i])
}

/// A soft mask read as one alpha byte a pixel, when its samples cover its
/// size.
pub fn alpha_of(samples: &[u8], width: usize, height: usize, bits: usize) -> (r: Option<Vec<u8>>)
    requires
        bits == 1 || bits == 2 || bits == 4 || bits == 8,
        sizes_fit(width as nat, height as nat, bits as nat),
    ensures
        ({
            let need = row_bytes_of(width as int, 1, bits as int) * height;
            match r {
                Some(a) => samples@.len() >= need && a@ == firsts(
                    rgb_upto(samples@, width as int, bits as int, SpaceView::Gray, false, width * height),
                ),
                None => samples@.len() < need,
            }
        }),
{
    proof {
        lemma_sizes_fit(width as nat, height as nat, bits as nat, 1);
    }
    match to_rgb(samples, width, height, bits, &Space::Gray, false) {
        Ok(gray) => {
            let glen = gray.len();
            let n = glen / 3;
            let mut out: Vec<u8> = Vec::new();
            let mut i: usize = 0;
            while i < n
                invariant
                    i <= n,
                    glen == gray@.len(),
                    n == gray@.len() / 3,
                    out@ =~= firsts(gray@).take(i as int),
                decreases n - i,
            {
                out.push(gray[3 * i]);
                i += 1;
            }
            Some(out)
        },
        Err(_) => None,
    }
}

/// Sizes the widening and the PNG can count without overflow, for at most
/// three components a pixel.
pub open spec fn sizes_fit(w: nat, h: nat, bits: nat) -> bool {
    &&& w * 3 * bits + 7 <= usize::MAX
    &&& ((w * 3 * bits + 7) / 8) * h <= usize::MAX
    &&& (1 + w * 4) * h <= usize::MAX
}

proof fn lemma_sizes_fit(w: nat, h: nat, bits: nat, comps: nat)
    requires
        sizes_fit(w, h, bits),
        bits == 1 || bits == 2 || bits == 4 || bits == 8,
        comps == 1 || comps == 3,
    ensures
        samples_fit((w * comps) as int, bits as int),
        w * comps <= usize::MAX,
        w * comps * bits + 7 <= usize::MAX,
        row_bytes_of(w as int, comps as int, bits as int) * h <= usize::MAX,
        w * h * 3 <= usize::MAX,
        4 * (w * h) <= usize::MAX,
        (1 + w * 3) * h <= usize::MAX,
{
    assert(w * comps <= w * 3 * bits) by (nonlinear_arith)
        requires comps <= 3, bits >= 1;
    assert(w * comps * bits <= w * 3 * bits) by (nonlinear_arith)
        requires comps <= 3;
    assert((w * comps * bits + 7) / 8 <= (w * 3 * bits + 7) / 8) by (nonlinear_arith)
        requires w * comps * bits <= w * 3 * bits;
    assert(((w * comps * bits + 7) / 8) * h <= ((w * 3 * bits + 7) / 8) * h) by (nonlinear_arith)
        requires (w * comps * bits + 7) / 8 <= (w * 3 * bits + 7) / 8;
    assert(w * h * 3 <= (1 + w * 4) * h) by (nonlinear_arith);
    assert(4 * (w * h) <= (1 + w * 4) * h) by (nonlinear_arith);
    assert((1 + w * 3) * h <= (1 + w * 4) * h) by (nonlinear_arith);
    if bits < 8 {
        assert forall|i: int| 0 <= i < w * comps implies (#[trigger] (i * bits)) % 8 + bits <= 8 by {
            if bits == 1 {
            } else if bits == 2 {
                assert((i * 2) % 8 == 2 * (i % 4)) by (nonlinear_arith)
                    requires i >= 0;
            } else {
                assert((i * 4) % 8 == 4 * (i % 2)) by (nonlinear_arith)
                    requires i >= 0;
            }
        }
    }
}


/// Why an image of this size and depth is not read.
pub open spec fn depth_message(w: nat, h: nat, bits: nat) -> Seq<char> {
    decimal(w) + "×"@ + decimal(h) + " at "@ + decimal(bits) + " bits, which is not read here"@
}

/// What a lifted image is said to be.
pub open spec fn what_of(w: nat, h: nat, with_alpha: bool) -> Seq<char> {
    decimal(w) + "×"@ + decimal(h) + " image"@ + if with_alpha {
        " with its transparency"@
    } else {
        Seq::empty()
    }
}

/// An image stored as samples, packed into a PNG: its size and depth as the
/// dictionary gives them (`None` where it gives none), the colour space it
/// was read as (`None` when it could not be), whether a stencil's sense is
/// reversed, and the alpha its soft mask gives, if any.
pub fn from_samples(
    samples: &[u8],
    width: Option<usize>,
    height: Option<usize>,
    bits: usize,
    space: Option<Space>,
    inverted: bool,
    alpha: Option<Vec<u8>>,
) -> (r: Result<Extracted, String>)
    requires
        width matches Some(w) ==> height matches Some(h) ==> sizes_fit(
            w as nat,
            h as nat,
            bits as nat,
        ),
    ensures
        width is None ==> (r matches Err(e) && e@ == "an image with no width"@),
        width is Some && height is None ==> (r matches Err(e) && e@ == "an image with no height"@),
        width is Some && height is Some && space is None ==> (r matches Err(e) && e@
            == "a colour space this cannot read"@),
        width matches Some(w) ==> height matches Some(h) ==> space matches Some(sp) ==> {
            let good = w > 0 && h > 0 && (bits == 1 || bits == 2 || bits == 4 || bits == 8);
            let need = row_bytes_of(w as int, components_of(sp@) as int, bits as int) * h;
            let rgb = rgb_upto(samples@, w as int, bits as int, sp@, inverted, w * h);
            let pixels = match alpha {
                Some(a) => interleaved(rgb, a@),
                None => rgb,
            };
            let colour = if alpha is Some {
                Colour::Rgba
            } else {
                Colour::Rgb
            };
            &&& !good ==> (r matches Err(e) && e@ == depth_message(w as nat, h as nat, bits as nat))
            &&& good && samples@.len() < need ==> (r matches Err(e) && e@ == short_message(
                samples@.len(),
                w as nat,
                h as nat,
                need as nat,
            ))
            &&& good && samples@.len() >= need && (alpha matches Some(a) && a@.len() < w * h) ==> (
            r matches Err(e) && e@ == "an image shorter than its own size"@)
            &&& good && samples@.len() >= need && !(alpha matches Some(a) && a@.len() < w * h) ==> r is Ok
            &&& r matches Ok(x) ==> good && samples@.len() >= need && x.extension@ == "png"@
                && x.what@ == what_of(w as nat, h as nat, alpha is Some) && x.bytes@ == png_of(
                w,
                h,
                colour,
                pixels,
            )
        },
{
    let w = match width {
        Some(w) => w,
        None => return Err(string_of(chars_of("an image with no width").as_slice())),
    };
    let h = match height {
        Some(h) => h,
        None => return Err(string_of(chars_of("an image with no height").as_slice())),
    };
    let sp = match space {
        Some(sp) => sp,
        None => return Err(string_of(chars_of("a colour space this cannot read").as_slice())),
    };
    if w == 0 || h == 0 || !(bits == 1 || bits == 2 || bits == 4 || bits == 8) {
        let mut msg: Vec<char> = Vec::new();
        push_decimal(&mut msg, w as u64);
        push_str(&mut msg, "×");
        push_decimal(&mut msg, h as u64);
        push_str(&mut msg, " at ");
        push_decimal(&mut msg, bits as u64);
        push_str(&mut msg, " bits, which is not read here");
        return Err(string_of(msg.as_slice()));
    }
    proof {
        lemma_sizes_fit(w as nat, h as nat, bits as nat, components_of(sp@));
    }
    let rgb = match to_rgb(samples, w, h, bits, &sp, inverted) {
        Ok(rgb) => rgb,
        Err(e) => return Err(e),
    };
    proof {
        lemma_rgb_len(samples@, w as int, bits as int, sp@, inverted, w * h);
        assert(rgb@.len() / 3 == w * h);
    }
    let mut what: Vec<char> = Vec::new();
    push_decimal(&mut what, w as u64);
    push_str(&mut what, "×");
    push_decimal(&mut what, h as u64);
    push_str(&mut what, " image");
    let (bytes, has_alpha) = match alpha {
        Some(a) => {
            let rgba = with_alpha(&rgb, &a);
            proof {
                assert(w * 4 * h == 4 * (w * h)) by (nonlinear_arith);
                assert(rgb@.len() / 3 == w * h);
                if a@.len() < w * h {
                    assert(rgba@.len() == 4 * a@.len());
                    assert(rgba@.len() < w * 4 * h);
                } else {
                    assert(rgba@.len() == 4 * (w * h));
                }
            }
            push_str(&mut what, " with its transparency");
            (png(w, h, Colour::Rgba, rgba.as_slice()), true)
        },
        None => {
            proof {
                reveal_strlit("");
                assert(w * 3 * h == 3 * (w * h)) by (nonlinear_arith);
            }
            (png(w, h, Colour::Rgb, rgb.as_slice()), false)
        },
    };
    match bytes {
        Ok(b) => Ok(Extracted { bytes: b, extension: "png", what: string_of(what.as_slice()) }),
        Err(e) => Err(e),
    }
}

proof fn lemma_rgb_len(samples: Seq<u8>, width: int, bits: int, space: SpaceView, inverted: bool, k: int)
    requires
        width > 0,
        k >= 0,
    ensures
        rgb_upto(samples, width, bits, space, inverted, k).len() == 3 * k,
    decreases k,
{
    if k > 0 {
        lemma_rgb_len(samples, width, bits, space, inverted, k - 1);
    }
}

} // verus!
