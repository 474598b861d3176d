use mirzam::check::{
    build_kind, extract_result_payload, inject_before_closing_body, line_of_offset,
    percent_decode, verdict,
};

#[test]
fn percent_decode_round_trips_json() {
    assert_eq!(percent_decode("%7B%22a%22%3A1%7D"), r#"{"a":1}"#);
    assert_eq!(percent_decode("plain"), "plain");
}

#[test]
fn injects_before_the_last_closing_body_tag() {
    let html = "<html><body><div>x</div></body></html>";
    let out = inject_before_closing_body(html, "<script>Z</script>");
    assert_eq!(
        out,
        "<html><body><div>x</div><script>Z</script></body></html>"
    );
}

#[test]
fn extracts_the_marker_payload_between_its_tags() {
    let dom = r#"<body><pre id="mz-check-result" style="display: none;">%7B%7D</pre></body>"#;
    assert_eq!(extract_result_payload(dom).unwrap(), "%7B%7D");
}

#[test]
fn a_missing_marker_is_a_readable_error() {
    assert!(extract_result_payload("<body></body>").is_err());
}

/// One real message per family, copied from a build of a deliberately
/// broken deck. A reworded message is allowed to keep its kind; a message
/// that lands on `build.other` is one this table has not been taught.
#[test]
fn every_family_of_build_warning_has_its_own_kind() {
    for (message, kind) in [
        (
            "slide 1: shape line 1: unknown shape kind `boxx`",
            "build.shape",
        ),
        ("slide 1: shape: no element with id `#nope`", "build.shape"),
        (
            "grid-gap: `wide` is not a pixel length (write `64px` or `64`)",
            "build.layout",
        ),
        (
            "slide 1: footnote reference `[^gone]` has no definition on this slide",
            "build.footnote",
        ),
        (
            "slide 1: `[span broken]{.small}` is still on the slide as text",
            "build.span",
        ),
        (
            "slide 1: connect endpoint `#nowhere` matches nothing on this slide",
            "build.connect",
        ),
        (
            "slide 2: anim target `#nothing` matches nothing on this slide",
            "build.anim",
        ),
        (
            "slide 2: annotate target `nosuchpane` matches nothing on this slide",
            "build.annotate",
        ),
        (
            "slide 2: effects line 1: unknown effect `nosucheffect`",
            "build.effects",
        ),
        ("slide 2: chart: cannot parse block: type", "build.chart"),
        (
            "slide 2: mermaid: no diagram renderer found, so the block is shown as code",
            "build.mermaid",
        ),
        // The reason `mermaid:` is matched before `chart`: an external
        // tool's own words come through in this message, and Mermaid's
        // vocabulary contains half of Mirzam's.
        (
            "slide 3: mermaid: mmdc failed (exit status: 1): Parse error on line 2 \
             of the flowchart",
            "build.mermaid",
        ),
        ("slide 1: pane `x` is not in the layout", "build.layout"),
        ("toc: unknown key `bogus`", "build.toc"),
        ("bibliography: nothing to list", "build.bibliography"),
        ("masters: cannot read masters.md", "build.master"),
        ("unknown theme `nope`; using `mirzam`", "build.theme"),
        (
            "`default` is no longer a theme name: it was a second name for \
             the `mirzam` palette",
            "build.theme",
        ),
        (
            "unknown mode `sideways`; expected `light` or `dark`",
            "build.theme",
        ),
        ("math: unknown dialect `maple`", "build.math"),
        (
            "transition: unknown transition `wobble`",
            "build.transition",
        ),
        ("theme: cannot read missing.css", "build.css"),
        (
            "theme: `themes/acme.css` paints in one palette: 12 colour tokens",
            "build.theme",
        ),
        (
            "slide 2, pane `fig`: `acme` is loaded from `themes/acme.css`, but that file \
             sets its tokens outside `[data-theme=\"acme\"]`. A file theme is usable by \
             name only if it scopes its tokens to its own stem",
            "build.theme",
        ),
        ("no slides: deck.md is empty", "build.deck"),
        ("nope.png: file not found", "build.asset"),
    ] {
        assert_eq!(build_kind(message), kind, "for: {message}");
    }
}

#[test]
fn an_unfamiliar_warning_is_named_rather_than_guessed() {
    assert_eq!(
        build_kind("something nobody has classified yet"),
        "build.other"
    );
}

#[test]
fn a_line_number_counts_from_one_over_bytes() {
    let text = "one\ntwo\nthree\n";
    assert_eq!(line_of_offset(text, 0), 1);
    assert_eq!(line_of_offset(text, 4), 2);
    assert_eq!(line_of_offset(text, 8), 3);
    // Past the end rather than a panic.
    assert_eq!(line_of_offset(text, 9_999), 4);
    // Mid-character is still a line.
    assert_eq!(line_of_offset("é\né", 1), 1);
}

#[test]
fn a_page_without_a_body_gets_the_script_at_its_end() {
    assert_eq!(inject_before_closing_body("<p>x</p>", "<s>"), "<p>x</p><s>");
    assert_eq!(
        inject_before_closing_body("a</body>b</body>c", "S"),
        "a</body>bS</body>c"
    );
}

#[test]
fn a_percent_that_spells_nothing_is_kept() {
    assert_eq!(percent_decode("100%"), "100%");
    assert_eq!(percent_decode("%zz%4"), "%zz%4");
    assert_eq!(percent_decode("%+9"), "\t");
    assert_eq!(percent_decode("%C3%A9"), "é");
    assert_eq!(percent_decode("%FF"), "\u{FFFD}");
}

#[test]
fn the_verdict_counts_the_problems() {
    assert_eq!(verdict(0), Ok(()));
    assert_eq!(
        verdict(3).unwrap_err(),
        "3 problem(s). Widen the band in the pane block, shorten the text, \
         or move the content to another pane. See docs/layout.md."
    );
}

#[test]
fn an_unterminated_marker_is_no_result() {
    assert!(extract_result_payload(r#"<pre id="mz-check-result""#).is_err());
    assert!(extract_result_payload(r#"<pre id="mz-check-result">abc"#).is_err());
    assert_eq!(
        extract_result_payload(r#"<pre id="mz-check-result"></pre>"#).unwrap(),
        ""
    );
}

#[test]
fn check_and_the_language_server_name_a_warning_alike() {
    for message in [
        "`css:` was removed: write `theme: x.css`",
        "theme: cannot read house.css",
        "mermaid: no renderer",
        "something nobody has classified yet",
    ] {
        assert_eq!(build_kind(message), mirzam::pipeline::warning_kind(message), "for: {message}");
    }
    assert_eq!(build_kind("`css:` was removed"), "build.css");
}
