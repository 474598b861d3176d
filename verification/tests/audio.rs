use mirzam::audio::{clip_source, has_audio, mix_codec, Clip};

const FILTERS: &str = " ... amix              N->A       Audio mixing.\n ... adelay            A->A       Delay.\n ... atrim             A->A       Trim.\n";

#[test]
fn opus_is_preferred_and_vorbis_is_the_fallback() {
    assert_eq!(mix_codec(FILTERS, " A....D libopus  Opus\n A....D libvorbis Vorbis\n"), Some("libopus"));
    assert_eq!(mix_codec(FILTERS, " A....D libvorbis Vorbis\n"), Some("libvorbis"));
    assert_eq!(mix_codec(FILTERS, " A....D aac AAC\n"), None);
}

#[test]
fn a_trimmed_ffmpeg_without_the_filters_mixes_nothing() {
    let no_amix = " ... adelay  A->A\n ... atrim  A->A\n";
    assert_eq!(mix_codec(no_amix, "libopus"), None);
    assert_eq!(mix_codec("", ""), None);
}

#[test]
fn a_file_with_an_audio_stream_says_so() {
    assert!(has_audio("  Stream #0:1: Audio: opus, 48000 Hz"));
    assert!(!has_audio("  Stream #0:0: Video: vp9"));
}

#[test]
fn a_clip_plays_from_a_file_or_from_its_own_bytes() {
    assert_eq!(clip_source("file:///tmp/a.ogg"), Ok(Clip::File("/tmp/a.ogg".to_string())));
    assert_eq!(
        clip_source("data:audio/ogg;base64,Zm9v"),
        Ok(Clip::Bytes(b"foo".to_vec()))
    );
    assert_eq!(
        clip_source("data:audio/ogg,raw"),
        Err("a clip's data: URI is not base64".to_string())
    );
    assert_eq!(clip_source("data:audio/ogg;base64,Zm9v!"), Err("not base64: byte 0x21".to_string()));
    assert_eq!(
        clip_source("https://example.org/a.ogg"),
        Err("a clip plays from somewhere unmixable: https://example.org/a.ogg".to_string())
    );
}
