use mirzam::lsp::{
    cite_key_at, data_path_at, expression_at, heading, is_markdown, line_around, offset_of,
    path_of_uri, spanning, strip_tags, unbuildable, uri_of_path, Finding, frame_message,
    header_step, HeaderStep, MAX_BODY_BYTES, MAX_HEADER_BYTES, Message, Reply, Server,
    completion_at, data_summary, Completion, SETTINGS, MODES, no_such_method, METHOD_NOT_FOUND,
    char_of_position, fixed_items,
};

fn cs(s: &str) -> Vec<char> {
    s.chars().collect()
}

#[test]
fn a_uri_survives_a_space_and_a_multibyte_name() {
    for path in ["/tmp/a deck.md", "/tmp/スライド.md", "/tmp/plain.md"] {
        let uri = uri_of_path(path);
        assert!(!uri.contains(' '), "{uri}");
        assert_eq!(path_of_uri(Some(&uri)), Some(path.to_string()));
    }
    assert_eq!(path_of_uri(Some("untitled:Untitled-1")), None);
}

#[test]
fn a_windows_drive_keeps_its_letter_and_loses_the_slash() {
    assert_eq!(
        path_of_uri(Some("file:///c%3A/decks/talk.md")),
        Some("c:/decks/talk.md".to_string())
    );
}

#[test]
fn a_uri_escapes_what_is_not_unreserved_in_capitals() {
    assert_eq!(uri_of_path("/a b/ü.md"), "file:///a%20b/%C3%BC.md");
    assert_eq!(uri_of_path("c:/x"), "file:///c:/x");
    assert_eq!(uri_of_path("rel/x~_-.md"), "file:///rel/x~_-.md");
}

#[test]
fn only_an_empty_authority_names_a_file_here() {
    assert_eq!(path_of_uri(None), None);
    assert_eq!(path_of_uri(Some("file://host/a.md")), None);
    assert_eq!(path_of_uri(Some("file:///a.md")), Some("/a.md".to_string()));
}

#[test]
fn an_escape_that_spells_nothing_is_kept() {
    assert_eq!(path_of_uri(Some("file:///a%zzb")), Some("/a%zzb".to_string()));
    assert_eq!(path_of_uri(Some("file:///a%2")), Some("/a%2".to_string()));
    assert_eq!(path_of_uri(Some("file:///a%+5b")), Some("/a\u{5}b".to_string()));
    // Bytes that decode to no text give up the whole URI.
    assert_eq!(path_of_uri(Some("file:///a%FF")), None);
    assert_eq!(path_of_uri(Some("file:///c|/x")), Some("c|/x".to_string()));
}

#[test]
fn a_file_that_is_not_markdown_is_not_a_deck() {
    assert!(!is_markdown("/tmp/notes.txt"));
    assert!(is_markdown("/tmp/talk.md"));
    assert!(is_markdown("/tmp/Talk.MarkDown"));
    assert!(!is_markdown("/tmp/.md"));
    assert!(!is_markdown("/tmp/md"));
}

#[test]
fn a_deck_that_will_not_build_has_one_finding_at_the_top() {
    let f = unbuildable("/d/talk.md", "mermaid: no renderer");
    assert_eq!(
        f,
        Finding {
            file: "/d/talk.md".to_string(),
            start: 0,
            end: 0,
            kind: "build.mermaid".to_string(),
            message: "mermaid: no renderer".to_string(),
        }
    );
}

#[test]
fn a_position_counts_utf16_columns_into_a_byte_offset() {
    let text = "日本語 {{x}}\n";
    let at = offset_of(text, 0, 4);
    assert_eq!(&text[at..at + 2], "{{");
    // Past the end of the line clamps to its end.
    assert_eq!(offset_of(text, 0, 99), text.len() - 1);
    assert_eq!(offset_of(text, 9, 0), text.len());
    // A character outside the basic plane is two columns.
    let wide = "a😀b\r\nc";
    assert_eq!(offset_of(wide, 0, 3), 5);
    assert_eq!(offset_of(wide, 0, 2), 5, "inside the pair lands after it");
    assert_eq!(offset_of(wide, 0, 9), 6);
    assert_eq!(offset_of(wide, 1, 1), 9);
}

#[test]
fn the_line_around_a_character() {
    let (start, line) = line_around(&cs("ab\ncd\nef"), 4);
    assert_eq!((start, line.into_iter().collect::<String>()), (3, "cd".to_string()));
    let (start, line) = line_around(&cs("ab\ncd"), 99);
    assert_eq!((start, line.into_iter().collect::<String>()), (3, "cd".to_string()));
}

#[test]
fn a_span_holds_the_cursor_with_its_delimiters() {
    let line = cs("see [@a] and [@b]");
    let got = spanning(&line, 14, &cs("[@"), &cs("]")).unwrap();
    assert_eq!((got.0, got.1.into_iter().collect::<String>()), (13, "b".to_string()));
    assert!(spanning(&line, 9, &cs("[@"), &cs("]")).is_none());
}

#[test]
fn a_citation_and_an_expression_under_the_cursor() {
    let src = cs("# T\nAs [@ vaswani2017 ] said, {{ n + 1 }}.\n");
    assert_eq!(cite_key_at(&src, 9), Some("vaswani2017".to_string()));
    assert_eq!(cite_key_at(&src, 2), None);
    assert_eq!(cite_key_at(&cs("[@two words]"), 3), None);
    assert_eq!(expression_at(&src, 36), Some("{{ n + 1 }}".to_string()));
    assert_eq!(expression_at(&src, 5), None);
}

#[test]
fn a_data_line_counts_only_inside_a_chart_or_each_fence() {
    let src = cs("data: prose.csv\n```chart\ntype: bar\ndata: sales.csv\n```\ndata: after.csv\n");
    assert_eq!(data_path_at(&src, 3), None);
    assert_eq!(data_path_at(&src, 38), Some("sales.csv".to_string()));
    assert_eq!(data_path_at(&src, 60), None);
    let quoted = cs("````md\n```chart\ndata: x.csv\n```\n````\n");
    assert_eq!(data_path_at(&quoted, 20), None, "a fence quoted in another is not a block");
}

#[test]
fn the_outline_names_a_slide_by_its_heading() {
    let text = cs("intro\n## Results <br>so far {.wide}\nbody\n");
    assert_eq!(heading(&text, 0, 999), Some("Results so far".to_string()));
    assert_eq!(heading(&text, 6, 3), None);
    assert_eq!(heading(&cs("#nospace\ntext"), 0, 99), None);
    assert_eq!(strip_tags(&cs("a<br>b  <i>c</i>")).into_iter().collect::<String>(), "a b c");
}

/// Reads one framed message the way the server's loop does: header lines
/// through `header_step`, then exactly the body it names.
fn read_framed(input: &mut impl std::io::BufRead) -> Result<Option<Vec<u8>>, String> {
    let mut length = None;
    loop {
        let mut line = String::new();
        let mut limited = std::io::Read::take(&mut *input, MAX_HEADER_BYTES as u64);
        match std::io::BufRead::read_line(&mut limited, &mut line) {
            Ok(0) => return Ok(None),
            Ok(_) => {}
            Err(e) => return Err(format!("cannot read from the client: {e}")),
        }
        match header_step(&line, length) {
            HeaderStep::More(l) => length = l,
            HeaderStep::Body(n) => {
                let mut body = vec![0u8; n];
                std::io::Read::read_exact(input, &mut body).map_err(|e| e.to_string())?;
                return Ok(Some(body));
            }
            HeaderStep::Refused(why) => return Err(why),
        }
    }
}

#[test]
fn a_message_is_framed_by_its_length_and_read_back_whole() {
    let mut map = serde_json::Map::new();
    map.insert("hello".to_string(), serde_json::Value::String("デッキ".to_string()));
    let body = serde_json::to_vec(&serde_json::Value::Object(map)).expect("encoded");
    let written = frame_message(&body);
    let text = String::from_utf8(written.clone()).expect("utf-8");
    assert!(text.starts_with("Content-Length: "), "{text}");
    let mut reader = std::io::BufReader::new(&written[..]);
    let back = read_framed(&mut reader).expect("read").expect("a message");
    let value: serde_json::Value = serde_json::from_slice(&back).expect("json");
    assert_eq!(value["hello"], "デッキ");
    // And the end of the stream is an end, not an error.
    assert_eq!(read_framed(&mut reader).expect("read"), None);
}

#[test]
fn a_stream_that_never_ends_a_line_is_an_error_not_a_swelling_buffer() {
    let endless = std::io::repeat(b'x');
    let mut reader = std::io::BufReader::new(endless);
    let answer = read_framed(&mut reader);
    assert!(
        answer.is_err_and(|e| e.contains("not a language client's stream")),
        "an endless header line should be refused"
    );
}

#[test]
fn a_body_larger_than_the_limit_is_refused_before_it_is_allocated() {
    let framed = format!("Content-Length: {}\r\n\r\n", MAX_BODY_BYTES + 1);
    let mut reader = std::io::BufReader::new(framed.as_bytes());
    assert!(read_framed(&mut reader).is_err_and(|e| e.contains("past the")));
}

#[test]
fn header_lines_step_through_to_the_body() {
    assert!(matches!(header_step("Content-Length: 12\r\n", None), HeaderStep::More(Some(12))));
    assert!(matches!(header_step("Content-Length:+7\n", None), HeaderStep::More(Some(7))));
    assert!(matches!(header_step("Content-Length: x\r\n", Some(3)), HeaderStep::More(None)));
    assert!(matches!(
        header_step("Content-Type: application/vscode-jsonrpc\r\n", Some(5)),
        HeaderStep::More(Some(5))
    ));
    assert!(matches!(header_step("\r\n", Some(5)), HeaderStep::Body(5)));
    match header_step("\r\n", None) {
        HeaderStep::Refused(why) => assert_eq!(why, "a message arrived with no Content-Length"),
        _ => panic!("a body with no length"),
    }
    match header_step("\n", Some(MAX_BODY_BYTES + 1)) {
        HeaderStep::Refused(why) => assert_eq!(
            why,
            "a message claimed 67108865 bytes, past the 67108864-byte limit"
        ),
        _ => panic!("too large"),
    }
    assert!(matches!(header_step("\n", Some(MAX_BODY_BYTES)), HeaderStep::Body(67108864)));
}

#[test]
fn a_frame_is_its_header_then_its_body() {
    assert_eq!(frame_message(b"{}"), b"Content-Length: 2\r\n\r\n{}".to_vec());
    assert_eq!(frame_message(b""), b"Content-Length: 0\r\n\r\n".to_vec());
}

fn message(method: &str, has_id: bool, path: Option<&str>) -> Message {
    Message {
        method: method.to_string(),
        has_id,
        path: path.map(str::to_string),
        open_text: None,
        change_text: None,
    }
}

fn opened(server: &mut Server, path: &str, text: &str) -> Vec<Reply> {
    let mut m = message("textDocument/didOpen", false, Some(path));
    m.open_text = Some(text.to_string());
    server.handle(&m)
}

#[test]
fn a_request_the_server_never_advertised_is_an_error_and_a_notification_is_not() {
    let mut server = Server::default();
    let replies = server.handle(&message("textDocument/codeAction", true, None));
    assert!(matches!(&replies[..], [Reply::NoSuchMethod(m)] if m == "textDocument/codeAction"));
    assert!(server.handle(&message("$/cancelRequest", false, None)).is_empty());
}

#[test]
fn exit_stops_the_loop_and_shutdown_answers_first() {
    let mut server = Server::default();
    let replies = server.handle(&message("shutdown", true, None));
    assert!(matches!(&replies[..], [Reply::Null]));
    assert!(!server.exited());
    server.handle(&message("exit", false, None));
    assert!(server.exited());
}

#[test]
fn an_open_buffer_is_what_the_session_reads() {
    let mut server = Server::new();
    let replies = opened(&mut server, "/tmp/deck.md", "# One\n");
    assert!(matches!(&replies[..], [Reply::Diagnose(p)] if p == "/tmp/deck.md"));
    assert_eq!(server.text("/tmp/deck.md").as_deref(), Some("# One\n"));

    let mut change = message("textDocument/didChange", false, Some("/tmp/deck.md"));
    change.change_text = Some("# Two\n".to_string());
    server.handle(&change);
    assert_eq!(server.text("/tmp/deck.md").as_deref(), Some("# Two\n"));

    // A file that is not a deck is kept but not diagnosed.
    assert!(opened(&mut server, "/tmp/notes.txt", "x").is_empty());
    assert_eq!(server.text("/tmp/notes.txt").as_deref(), Some("x"));

    let saved = server.handle(&message("textDocument/didSave", false, Some("/tmp/deck.md")));
    assert!(matches!(&saved[..], [Reply::Diagnose(_)]));
    let closed = server.handle(&message("textDocument/didClose", false, Some("/tmp/deck.md")));
    assert!(matches!(&closed[..], [Reply::Clear(p)] if p == "/tmp/deck.md"));
    assert_eq!(server.text("/tmp/deck.md"), None);
    assert_eq!(server.text("/tmp/notes.txt").as_deref(), Some("x"));
    // Saving a deck that is not open has nothing to diagnose.
    assert!(server.handle(&message("textDocument/didSave", false, Some("/tmp/deck.md"))).is_empty());
}

#[test]
fn a_fixed_file_is_sent_an_empty_list_once() {
    let mut server = Server::new();
    let first = server.diagnosed("/d/deck.md", &vec!["/d/part.md".to_string()]);
    assert!(first.is_empty());
    assert!(server.has_published("/d/deck.md"));
    assert!(server.has_published("/d/part.md"));
    let second = server.diagnosed("/d/deck.md", &Vec::new());
    assert_eq!(second, vec!["/d/part.md".to_string()]);
    assert!(!server.has_published("/d/part.md"));
    assert!(server.has_published("/d/deck.md"));
    server.handle(&message("textDocument/didClose", false, Some("/d/deck.md")));
    assert!(!server.has_published("/d/deck.md"));
}

#[test]
fn the_queries_name_their_file() {
    let mut server = Server::new();
    let r = server.handle(&message("textDocument/completion", true, Some("/a.md")));
    assert!(matches!(&r[..], [Reply::Completion(Some(p))] if p == "/a.md"));
    let r = server.handle(&message("textDocument/documentSymbol", true, None));
    assert!(matches!(&r[..], [Reply::Symbols(None)]));
    assert!(matches!(&server.handle(&message("initialize", true, None))[..], [Reply::Capabilities]));
    assert!(server.handle(&message("initialized", false, None)).is_empty());
}

/// What completes at the end of `text`.
fn completes(text: &str, in_frontmatter: bool) -> Completion {
    let cs: Vec<char> = text.chars().collect();
    completion_at(&cs, cs.len(), in_frontmatter)
}

#[test]
fn each_context_opens_with_its_own_spelling() {
    assert_eq!(completes("# Title\n<!-- layout:", false), Completion::Masters);
    assert_eq!(completes("<!--  theme: ", false), Completion::Themes);
    assert_eq!(completes("<!-- mode:", false), Completion::Modes);
    assert_eq!(completes("<!-- chrome:", false), Completion::Chrome);
    assert_eq!(completes("text\n  <!-- ", false), Completion::Settings);
    assert_eq!(completes("::: pane ", false), Completion::Panes);
    assert_eq!(completes("theme: ", true), Completion::Themes);
    assert_eq!(completes("  - ", true), Completion::Themes);
    assert_eq!(completes("theme: ", false), Completion::Nothing);
    assert_eq!(completes("As shown [@kn", false), Completion::Citations);
    assert_eq!(completes("As shown [@knuth] and", false), Completion::Nothing);
    assert_eq!(completes("Hello {{ na", false), Completion::Variables);
    assert_eq!(completes("Hello {{ name }} and", false), Completion::Nothing);
    assert_eq!(completes("```ch", false), Completion::BlockKinds);
    assert_eq!(completes("```chart x", false), Completion::Nothing);
    assert_eq!(completes("plain words", false), Completion::Nothing);
}

#[test]
fn only_the_text_before_the_cursor_counts() {
    let cs: Vec<char> = "[@a] and [@b".chars().collect();
    assert_eq!(completion_at(&cs, 3, false), Completion::Citations);
    assert_eq!(completion_at(&cs, 4, false), Completion::Nothing);
    assert_eq!(completion_at(&cs, 100, false), Completion::Citations);
    assert_eq!(SETTINGS.len(), 7);
    assert_eq!(MODES[1].0, "dark");
}

#[test]
fn a_data_file_is_summed_up_by_its_header_and_rows() {
    assert_eq!(
        data_summary("d.csv", "name,score\n\nada,3\nbob,4\n"),
        "`d.csv` — fields `name,score`, 2 rows"
    );
    assert_eq!(data_summary("d.csv", "name\r\nada\n"), "`d.csv` — fields `name`, 1 row");
    assert_eq!(data_summary("e.csv", ""), "`e.csv` — fields ``, 0 rows");
}

#[test]
fn an_unknown_request_is_answered_with_the_method_not_found_error() {
    assert_eq!(METHOD_NOT_FOUND, -32601);
    assert_eq!(no_such_method("textDocument/codeAction"), "no such method: textDocument/codeAction");
}

#[test]
fn a_position_names_a_character_counted_from_its_line() {
    let text = "ab\ncdé\nf";
    assert_eq!(char_of_position(text, 0, 0), 0);
    assert_eq!(char_of_position(text, 0, 1), 1);
    assert_eq!(char_of_position(text, 1, 2), 5);
    assert_eq!(char_of_position(text, 2, 0), 7);
    // A character past its line's end stops at the newline.
    assert_eq!(char_of_position(text, 0, 9), 2);
    // A line past the text's end stops at the end.
    assert_eq!(char_of_position(text, 9, 0), 8);
    // Bytes and characters differ once a multibyte character stands before.
    assert_eq!(offset_of(text, 2, 0), 8);
}

#[test]
fn the_fixed_items_of_each_context() {
    assert_eq!(fixed_items(Completion::Masters), vec![("none", 12, "no master at all")]);
    assert_eq!(
        fixed_items(Completion::Modes),
        vec![("light", 12, "mode"), ("dark", 12, "mode")]
    );
    let settings = fixed_items(Completion::Settings);
    assert_eq!(settings.len(), 7);
    assert_eq!(settings[0], ("note: ", 14, "speaker note"));
    assert_eq!(settings[6].0, "next");
    assert!(fixed_items(Completion::Themes).is_empty());
    assert!(fixed_items(Completion::Citations).is_empty());
}
