//! What laying a film's sound decides: whether an ffmpeg can mix it and
//! with which codec, whether a file has a sound to mix, and where a clip's
//! audio comes from. Running ffmpeg and writing the clip's bytes to a file
//! are the caller's.
use vstd::prelude::*;
use vstd::utf8::encode_utf8;
use crate::cdp::{base64_decode, base64_decode_spec, not_base64_message};
use crate::text::{chars_of, contains, first_at, has_prefix, occurs, push_str, slice, starts_with, string_of};

verus! {

/// Whether an ffmpeg listing names the filter `f`, spaced as the listing
/// spaces its names.
pub open spec fn lists(listing: Seq<char>, f: Seq<char>) -> bool {
    contains(listing, " "@ + f + " "@)
}

/// The codec the sound is encoded with, given what `ffmpeg -filters` and
/// `ffmpeg -encoders` printed: Opus first, Vorbis second (the two WebM
/// carries), and nothing unless the three filters the mix is made of are
/// there.
pub open spec fn codec_of(filters: Seq<char>, encoders: Seq<char>) -> Option<Seq<char>> {
    if !(lists(filters, "amix"@) && lists(filters, "adelay"@) && lists(filters, "atrim"@)) {
        None
    } else if contains(encoders, "libopus"@) {
        Some("libopus"@)
    } else if contains(encoders, "libvorbis"@) {
        Some("libvorbis"@)
    } else {
        None
    }
}

fn lists_filter(listing: &Vec<char>, f: &str) -> (r: bool)
    ensures
        r == lists(listing@, f@),
{
    let mut w = chars_of(" ");
    push_str(&mut w, f);
    push_str(&mut w, " ");
    proof {
        reveal_strlit(" ");
    }
    occurs(listing, &w)
}

/// Whether this ffmpeg can lay sound under the film, and with which codec,
/// from what `ffmpeg -hide_banner -filters` and `-encoders` printed.
pub fn mix_codec(filters: &str, encoders: &str) -> (r: Option<&'static str>)
    ensures
        match r {
            Some(c) => codec_of(filters@, encoders@) == Some(c@),
            None => codec_of(filters@, encoders@) is None,
        },
{
    let fl = chars_of(filters);
    if !(lists_filter(&fl, "amix") && lists_filter(&fl, "adelay") && lists_filter(&fl, "atrim")) {
        return None;
    }
    let en = chars_of(encoders);
    if occurs(&en, &chars_of("libopus")) {
        Some("libopus")
    } else if occurs(&en, &chars_of("libvorbis")) {
        Some("libvorbis")
    } else {
        None
    }
}

/// Whether `ffmpeg -i`'s stream listing (what it printed on stderr) holds
/// an audio stream.
pub fn has_audio(probe: &str) -> (r: bool)
    ensures
        r == contains(probe@, "Audio:"@),
{
    occurs(&chars_of(probe), &chars_of("Audio:"))
}

/// Where a clip's audio comes from.
#[derive(Debug, PartialEq, Eq)]
pub enum Clip {
    /// A file, where it lies.
    File(String),
    /// The bytes a `data:` URI carried, for the caller to write out.
    Bytes(Vec<u8>),
}

pub enum ClipView {
    File(Seq<char>),
    Bytes(Seq<u8>),
}

impl View for Clip {
    type V = ClipView;

    open spec fn view(&self) -> ClipView {
        match self {
            Clip::File(p) => ClipView::File(p@),
            Clip::Bytes(b) => ClipView::Bytes(b@),
        }
    }
}

/// What a media element's `currentSrc` gives to mix: the path of a
/// `file://` URL, the decoded bytes of a base64 `data:` URI, or why it
/// gives nothing.
pub open spec fn clip_of(src: Seq<char>) -> Result<ClipView, Seq<char>> {
    if has_prefix(src, "file://"@) {
        Ok(ClipView::File(src.skip(7)))
    } else if has_prefix(src, "data:"@) {
        match first_at(src, ";base64,"@, 0) {
            None => Err("a clip's data: URI is not base64"@),
            Some(k) => match base64_decode_spec(encode_utf8(src.skip(k + 8))) {
                Ok(b) => Ok(ClipView::Bytes(b)),
                Err(c) => Err(not_base64_message(c)),
            },
        }
    } else {
        Err("a clip plays from somewhere unmixable: "@ + src)
    }
}

/// Where the clip `src` names plays from.
pub fn clip_source(src: &str) -> (r: Result<Clip, String>)
    ensures
        match r {
            Ok(c) => clip_of(src@) == Ok::<ClipView, Seq<char>>(c@),
            Err(e) => clip_of(src@) == Err::<ClipView, Seq<char>>(e@),
        },
{
    let cs = chars_of(src);
    let n = cs.len();
    proof {
        reveal_strlit("file://");
        reveal_strlit(";base64,");
    }
    if starts_with(&cs, &chars_of("file://")) {
        let p = slice(&cs, 7, n);
        assert(p@ == src@.skip(7));
        return Ok(Clip::File(string_of(p.as_slice())));
    }
    if starts_with(&cs, &chars_of("data:")) {
        let marker = chars_of(";base64,");
        return match crate::text::find_from(&cs, &marker, 0) {
            None => Err("a clip's data: URI is not base64".to_string()),
            Some(k) => {
                proof {
                    crate::text::lemma_first_at_some(cs@, marker@, 0);
                    let j = first_at(cs@, marker@, 0).unwrap();
                    assert(crate::text::occurs_at(cs@, marker@, j));
                    assert(0 <= j <= n);
                    assert(j == k as int);
                }
                let tail = string_of(slice(&cs, k + 8, n).as_slice());
                assert(tail@ == src@.skip(k + 8));
                match base64_decode(tail.as_str()) {
                    Ok(b) => Ok(Clip::Bytes(b)),
                    Err(e) => Err(e),
                }
            },
        };
    }
    let mut m = chars_of("a clip plays from somewhere unmixable: ");
    push_str(&mut m, src);
    Err(string_of(m.as_slice()))
}

} // verus!
