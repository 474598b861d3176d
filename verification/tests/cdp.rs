use mirzam::cdp::{
    base64, base64_decode, head_step, parse_active_port, upgrade_answer, upgrade_request, ws_frame,
    ws_message_end, ws_read, HeadStep,
};

#[test]
fn base64_round_trips() {
    for data in [
        &b""[..],
        b"f",
        b"fo",
        b"foo",
        b"foob",
        b"fooba",
        b"foobar",
        &[0u8, 255, 128, 7, 66][..],
    ] {
        let enc = base64(data);
        assert_eq!(base64_decode(&enc).unwrap(), data, "via {enc}");
    }
    assert_eq!(base64(b"foobar"), "Zm9vYmFy");
}

#[test]
fn base64_decode_skips_line_breaks_and_rejects_junk() {
    assert_eq!(base64_decode("Zm9v\r\nYmFy").unwrap(), b"foobar");
    assert!(base64_decode("Zm9v!").is_err());
}

#[test]
fn websocket_frames_round_trip_through_read() {
    // A client-masked frame is what we write; servers send unmasked, so
    // exercise both paths by decoding our own write and a hand-built
    // server frame.
    let written = ws_frame(0x1, b"hello", [0x37, 0xFA, 0x21, 0x3D]);
    let (op, payload) = ws_read(&written[..]).unwrap();
    assert_eq!((op, payload.as_slice()), (0x1, &b"hello"[..]));

    let mut server = vec![0x81, 3];
    server.extend_from_slice(b"abc");
    let (op, payload) = ws_read(&server[..]).unwrap();
    assert_eq!((op, payload.as_slice()), (0x1, &b"abc"[..]));
}

#[test]
fn websocket_read_reassembles_fragments_and_extended_lengths() {
    // Two fragments: text without FIN, then a continuation with it.
    let mut wire = vec![0x01, 2, b'h', b'i'];
    wire.extend_from_slice(&[0x80, 3, b'y', b'o', b'u']);
    let (op, payload) = ws_read(&wire[..]).unwrap();
    assert_eq!((op, payload.as_slice()), (0x1, &b"hiyou"[..]));

    // A 300-byte payload takes the 16-bit length form.
    let body = vec![b'x'; 300];
    let mut wire = vec![0x81, 126];
    wire.extend_from_slice(&300u16.to_be_bytes());
    wire.extend_from_slice(&body);
    let (op, payload) = ws_read(&wire[..]).unwrap();
    assert_eq!((op, payload.len()), (0x1, 300));
}

#[test]
fn active_port_file_parses() {
    assert_eq!(
        parse_active_port("39131\n/devtools/browser/ab-cd\n"),
        Some((39131, "/devtools/browser/ab-cd".into()))
    );
    assert_eq!(parse_active_port(""), None);
    assert_eq!(parse_active_port("39131\n"), None);
}

#[test]
fn base64_decode_names_the_first_stray_byte() {
    assert_eq!(base64_decode("Zm9v!").unwrap_err(), "not base64: byte 0x21");
    assert_eq!(base64_decode("Zm9v=junk").unwrap(), b"foo");
}

#[test]
fn a_masked_frame_hides_its_payload() {
    let frame = ws_frame(0x1, b"hi", [1, 2, 3, 4]);
    assert_eq!(frame, vec![0x81, 0x82, 1, 2, 3, 4, b'h' ^ 1, b'i' ^ 2]);
}

#[test]
fn long_frames_take_the_wide_length_forms() {
    let body = vec![7u8; 70000];
    let frame = ws_frame(0x2, &body, [9, 8, 7, 6]);
    assert_eq!(&frame[..10], &[0x82, 0xFF, 0, 0, 0, 0, 0, 1, 0x11, 0x70]);
    let (op, payload) = ws_read(&frame).unwrap();
    assert_eq!((op, payload), (0x2, body));

    let body = vec![1u8; 300];
    let frame = ws_frame(0x1, &body, [0, 0, 0, 0]);
    assert_eq!(&frame[..4], &[0x81, 0xFE, 1, 44]);
    assert_eq!(ws_read(&frame).unwrap().1, body);
}

#[test]
fn a_control_frame_between_fragments_is_answered_first() {
    let mut wire = vec![0x01, 2, b'h', b'i'];
    wire.extend_from_slice(&[0x89, 1, b'p']);
    assert_eq!(ws_read(&wire).unwrap(), (0x9, b"p".to_vec()));
}

#[test]
fn a_short_stream_reads_nothing() {
    assert_eq!(ws_read(&[0x81]), None);
    assert_eq!(ws_read(&[0x81, 5, b'a']), None);
    assert_eq!(ws_read(&[0x01, 1, b'a']), None);
}

#[test]
fn an_active_port_file_with_crlf_and_padding_parses() {
    assert_eq!(
        parse_active_port(" 9222 \r\n /devtools/x \r\n"),
        Some((9222, "/devtools/x".into()))
    );
    assert_eq!(parse_active_port("70000\n/p\n"), None);
    assert_eq!(parse_active_port("9222\n   \n"), None);
}

#[test]
fn a_message_ends_where_its_last_frame_ends() {
    let written = ws_frame(0x1, b"hello", [1, 2, 3, 4]);
    assert_eq!(ws_message_end(&written[..]), Some(written.len()));

    // Two fragments, the first without FIN, then trailing bytes of the next message.
    let mut stream = vec![0x01, 2, b'a', b'b', 0x80, 1, b'c'];
    stream.extend_from_slice(&[0x81, 5]);
    assert_eq!(ws_message_end(&stream[..]), Some(7));

    // A frame whose payload has not arrived yet.
    assert_eq!(ws_message_end(&[0x81, 5, b'a'][..]), None);
    assert_eq!(ws_message_end(&[][..]), None);
}

#[test]
fn the_upgrade_asks_for_a_websocket_with_its_key() {
    let req = upgrade_request("/devtools/browser/abc", 9222, "dGhlIHNhbXBsZSBub25jZQ==");
    assert_eq!(
        req,
        "GET /devtools/browser/abc HTTP/1.1\r\nHost: 127.0.0.1:9222\r\nUpgrade: websocket\r\n\
         Connection: Upgrade\r\nSec-WebSocket-Version: 13\r\nSec-WebSocket-Key: dGhlIHNhbXBsZSBub25jZQ==\r\n\r\n"
    );
}

#[test]
fn the_answer_is_read_to_its_blank_line_and_no_further() {
    assert_eq!(head_step(b"HTTP/1.1 101 Switching"), HeadStep::More);
    assert_eq!(head_step(b"HTTP/1.1 101 Switching\r\n\r\n"), HeadStep::Done);
    assert_eq!(head_step(&vec![b'x'; 16385]), HeadStep::TooLong);
    assert_eq!(head_step(&vec![b'x'; 16384]), HeadStep::More);
    assert_eq!(upgrade_answer(b"HTTP/1.1 101 Switching Protocols\r\n\r\n"), Ok(()));
    assert_eq!(
        upgrade_answer(b"HTTP/1.1 404 Not Found\r\nContent-Length: 0\r\n\r\n"),
        Err("the DevTools endpoint refused the upgrade: HTTP/1.1 404 Not Found".to_string())
    );
}
