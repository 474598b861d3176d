use mirzam::annot::{color_css, is_picture, parse, parse_item, referenced_ids, Kind, Place};

/// A number as the block wrote it, read the way the renderer reads it.
fn num(s: &str) -> f64 {
    s.parse().unwrap()
}

#[test]
fn parses_the_workstream_example() {
    let doc = parse(
        "target: #fig1\n\
         rect   40,22 18x12 : label=\"cache miss\"\n\
         arrow  12,70 -> 38,30\n\
         text   10,80 \"throughput doubles here\"\n",
    );
    assert!(doc.errors.is_empty(), "{:?}", doc.errors);
    assert_eq!(doc.target.as_deref(), Some("#fig1"));
    assert_eq!(doc.items.len(), 3);
    assert_eq!(doc.items[0].kind, Kind::Rect);
    assert_eq!(doc.items[0].place, Place::At("40".into(), "22".into()));
    let (w, h) = doc.items[0].size.clone().unwrap();
    assert_eq!((num(&w), num(&h)), (18.0, 12.0));
    assert_eq!(doc.items[0].label.as_deref(), Some("cache miss"));
    assert_eq!(doc.items[1].to, Some(Place::At("38".into(), "30".into())));
    assert_eq!(
        doc.items[2].label.as_deref(),
        Some("throughput doubles here")
    );
}

#[test]
fn anchored_circle_with_pad() {
    let doc = parse("target: chart\ncircle #latency-1-2 : pad=6 label=\"the spike\"\n");
    assert!(doc.errors.is_empty(), "{:?}", doc.errors);
    assert_eq!(doc.items[0].place, Place::Anchor("latency-1-2".into()));
    assert_eq!(doc.items[0].pad.as_deref().map(num), Some(6.0));
    assert_eq!(referenced_ids(&doc), vec!["latency-1-2"]);
}

#[test]
fn arrow_may_end_on_an_anchor() {
    let doc = parse("target: shot\narrow 10,80 -> #mark\n");
    assert!(doc.errors.is_empty(), "{:?}", doc.errors);
    assert_eq!(doc.items[0].to, Some(Place::Anchor("mark".into())));
}

#[test]
fn missing_target_is_an_error() {
    let doc = parse("rect 10,10 5x5\n");
    assert!(doc.errors.iter().any(|e| e.contains("no `target:`")));
}

#[test]
fn coordinates_without_size_are_an_error() {
    let doc = parse("target: x\nrect 10,10\n");
    assert_eq!(doc.errors.len(), 1);
    assert!(doc.errors[0].contains("size"));
}

#[test]
fn pad_on_a_coordinate_item_is_an_error() {
    let doc = parse("target: x\nrect 10,10 5x5 : pad=4\n");
    assert!(doc.errors[0].contains("anchored"));
}

#[test]
fn unknown_kind_reports_the_line() {
    let doc = parse("target: x\nblob 10,10\n");
    assert!(doc.errors[0].contains("line 2"));
    assert!(doc.errors[0].contains("blob"));
}

#[test]
fn literal_colors_are_sanitized() {
    let doc = parse("target: x\nrect 1,1 2x2 : color=\"red;} body{\"\n");
    assert!(doc.errors.is_empty(), "{:?}", doc.errors);
    // `;`, `{` and `}` are gone: nothing an attribute value can smuggle
    // into a style survives the filter.
    assert_eq!(color_css(doc.items[0].color.as_deref().unwrap()), "red body");
}

#[test]
fn an_item_may_carry_an_id_for_the_rest_of_the_deck_to_point_at() {
    let doc = parse("target: fig\ncircle 40,30 20x20 : id=a-hot label=\"here\"\n");
    assert!(doc.errors.is_empty(), "{:?}", doc.errors);
    assert_eq!(doc.items[0].id.as_deref(), Some("a-hot"));
}

#[test]
fn an_id_that_would_not_survive_a_selector_is_refused() {
    let doc = parse("target: fig\ncircle 40,30 20x20 : id=\"a b\"\n");
    assert!(doc.errors[0].contains("not a valid id"), "{:?}", doc.errors);
}

#[test]
fn an_item_may_wait_for_a_click() {
    let doc = parse("target: fig\ncircle 40,30 20x20 : step=2 label=\"here\"\n");
    assert!(doc.errors.is_empty(), "{:?}", doc.errors);
    assert_eq!(doc.items[0].step, 2);
}

#[test]
fn an_item_with_no_step_is_there_from_the_start() {
    let doc = parse("target: fig\ncircle 40,30 20x20\n");
    assert_eq!(doc.items[0].step, 0);
}

#[test]
fn a_step_that_is_not_a_number_is_refused() {
    let doc = parse("target: fig\ncircle 40,30 20x20 : step=soon\n");
    assert!(doc.errors[0].contains("click number"), "{:?}", doc.errors);
}

#[test]
fn quoted_label_may_contain_colons_and_spaces() {
    let doc = parse("target: x\ntext 5,5 \"p95: down 40%\"\n");
    assert!(doc.errors.is_empty(), "{:?}", doc.errors);
    assert_eq!(doc.items[0].label.as_deref(), Some("p95: down 40%"));
}

#[test]
fn a_text_mark_takes_an_id() {
    let doc = parse("highlight #t-ap : color=@accent2 step=1\n");
    assert!(doc.errors.is_empty(), "{:?}", doc.errors);
    assert_eq!(doc.items.len(), 1);
    assert_eq!(doc.items[0].kind, Kind::Highlight);
    assert!(doc.items[0].kind.marks_text());
    assert_eq!(doc.items[0].place, Place::Anchor("t-ap".into()));
    assert_eq!(doc.items[0].step, 1);
}

#[test]
fn underline_and_box_are_text_marks_too() {
    let doc = parse("underline #a\nbox #b : pad=6\n");
    assert!(doc.errors.is_empty(), "{:?}", doc.errors);
    assert_eq!(doc.items[0].kind, Kind::Underline);
    assert_eq!(doc.items[1].kind, Kind::Box);
    assert_eq!(doc.items[1].pad.as_deref().map(num), Some(6.0));
}

/// Where the words of a *sentence* are is the browser's business; a
/// percentage would be a guess that goes stale as soon as the sentence is
/// edited. A box is only ever drawn round a sentence, so it refuses them.
#[test]
fn a_box_refuses_coordinates() {
    let doc = parse("target: t\nbox 10,20 30x5\n");
    assert_eq!(doc.items.len(), 0);
    assert!(doc.errors[0].contains("#id"), "{:?}", doc.errors);
}

#[test]
fn a_highlight_or_underline_may_be_placed_by_coordinates() {
    let doc = parse("target: p\nhighlight 50,32.1 95.5x8 : step=1\nunderline 10,20 30x5\n");
    assert!(doc.errors.is_empty(), "{:?}", doc.errors);
    assert_eq!(doc.items[0].place, Place::At("50".into(), "32.1".into()));
    assert_eq!(doc.items[0].size, Some(("95.5".into(), "8".into())));
    assert_eq!(doc.items[1].kind, Kind::Underline);
    let doc = parse("target: p\nhighlight 50,32\n");
    assert!(doc.errors[0].contains("size"), "{:?}", doc.errors);
}

#[test]
fn a_quote_and_its_source_are_kept_for_the_check() {
    let doc = parse(
        "target: #p1\nsource: @duberg2020\n\
         highlight 50,32 95x8 : step=1 quote=\"This gives, surprisingly, a more memory efficient representation.\" page=1\n\
         highlight 50,41 95x8 : step=1\n",
    );
    assert!(doc.errors.is_empty(), "{:?}", doc.errors);
    assert_eq!(doc.source.as_deref(), Some("@duberg2020"));
    assert_eq!(
        doc.items[0].quote.as_deref(),
        Some("This gives, surprisingly, a more memory efficient representation.")
    );
    assert_eq!(doc.items[0].page, Some(1));
    assert_eq!(doc.items[1].quote, None);

    let doc = parse("highlight #t : quote=\"words\"\n");
    assert!(doc.errors[0].contains("source:"), "{:?}", doc.errors);
    let doc = parse("target: p\nhighlight 1,1 1x1 : page=0\n");
    assert!(doc.errors[0].contains("page number"), "{:?}", doc.errors);
}

/// A block that pairs a phrase with a chart mark measures nothing against a
/// box, so making it name one would be ceremony.
#[test]
fn an_all_anchored_block_needs_no_target() {
    let doc = parse("highlight #t-ap : step=1\nrect #lat-0-2 : step=1 pad=8\n");
    assert!(doc.errors.is_empty(), "{:?}", doc.errors);
    assert_eq!(doc.items.len(), 2);
    assert!(doc.target.is_none());
}

/// But a coordinate is a percentage *of something*, and that something has
/// to be named.
#[test]
fn coordinates_still_need_a_target() {
    let doc = parse("circle 40,30 20x20\n");
    assert!(
        doc.errors.iter().any(|e| e.contains("target")),
        "{:?}",
        doc.errors
    );
}

#[test]
fn a_picture_target_makes_a_card_block() {
    let doc = parse(
        "target: img/devi2022-p1.svg\nsource: @devi2022\n\
         highlight #q1 : color=@accent1 step=1\n\
         highlight 54.6,43.8 84.2x9.6 : color=@accent1 step=1 quote=\"words\" page=1\n",
    );
    assert!(doc.errors.is_empty(), "{:?}", doc.errors);
    assert_eq!(doc.picture(), Some("img/devi2022-p1.svg"));
    assert_eq!(doc.chips().len(), 1);
    assert!(is_picture("shots/a.PNG"));
    assert!(!is_picture("#fig"), "an id is not a file");
    assert!(!is_picture("fig"), "a pane name is not a file");
    assert!(!is_picture("notes.txt"), "not a picture the browser draws");
    assert_eq!(parse("target: #fig\nrect 1,1 2x2\n").picture(), None);
}

/// Nothing on the slide can open a card but a chip, and nothing but a
/// percentage mark can be drawn on a picture that is not laid out.
#[test]
fn a_card_needs_a_chip_and_draws_only_marks() {
    let doc = parse("target: p.svg\nhighlight 50,32 95x8 : step=1\n");
    assert!(doc.errors[0].contains("phrase"), "{:?}", doc.errors);

    let doc = parse("target: p.svg\nhighlight #q1\narrow 10,80 -> 38,30\n");
    assert!(doc.errors[0].contains("arrow"), "{:?}", doc.errors);

    let doc = parse("target: p.svg\nhighlight #q1\ncircle #mark : pad=4\n");
    assert!(doc.errors[0].contains("chip"), "{:?}", doc.errors);

    let doc = parse("target: p.svg\nbox #q1\nrect 10,10 20x10\ncircle 50,50 10x10\n");
    assert!(doc.errors.is_empty(), "{:?}", doc.errors);
}

#[test]
fn a_quote_on_the_phrase_makes_a_card_with_no_picture() {
    let doc = parse("source: @devi2022\nhighlight #lim : quote=\"Outside the range\"\n");
    assert!(doc.errors.is_empty(), "{:?}", doc.errors);
    assert!(doc.is_card());
    assert_eq!(doc.picture(), None);
    assert_eq!(doc.chips().len(), 1);

    let doc = parse("source: @devi2022\nhighlight #lim : quote=\"words\"\nunderline #other\n");
    assert!(doc.is_card());
    assert!(doc.errors[0].contains("#other"), "{:?}", doc.errors);

    let doc = parse("target: #chart\nhighlight #lim : quote=\"words\"\n");
    assert!(!doc.is_card());
    assert!(doc.errors.is_empty(), "{:?}", doc.errors);
    let doc = parse("highlight #lim : color=@accent1\n");
    assert!(!doc.is_card());
}

#[test]
fn a_token_colour_becomes_its_custom_property() {
    assert_eq!(color_css("@accent2"), "var(--mz-accent2)");
    assert_eq!(color_css("#ff0000"), "#ff0000");
    assert_eq!(color_css("rgb(1, 2, 3)"), "rgb(1, 2, 3)");
}

#[test]
fn item_errors_are_exact() {
    assert_eq!(parse_item("rect 10;10 1x1").unwrap_err(), "`10;10` is neither `x,y` nor `#id`");
    assert_eq!(parse_item("rect 1,y 1x1").unwrap_err(), "not a number: `y`");
    assert_eq!(parse_item("rect 1,1 1by1").unwrap_err(), "`1by1` is not a `WxH` size");
    assert_eq!(parse_item("rect 1,1 1x1 extra").unwrap_err(), "too many fields before `:`");
    assert_eq!(
        parse_item("circle #a 5x5").unwrap_err(),
        "an anchored circle takes no size (got `5x5`); use pad="
    );
    assert_eq!(parse_item("arrow 1,1 2,2").unwrap_err(), "arrow is written `from -> to`");
    assert_eq!(parse_item("text 1,1 plain").unwrap_err(), "text content must be quoted");
    assert_eq!(parse_item("rect 1,1 1x1 : style=dotted").unwrap_err(), "unknown style `dotted` (only `dashed`)");
    assert_eq!(parse_item("rect 1,1 1x1 : weight=3").unwrap_err(), "unknown attribute `weight=`");
    assert_eq!(parse_item("rect 1,1 1x1 : label=\"open").unwrap_err(), "unclosed quote");
    assert_eq!(parse_item("rect 1,1 1x1 : nothing").unwrap_err(), "expected key=value, got `nothing`");
    assert_eq!(parse_item("circle #a : pad=wide").unwrap_err(), "pad is a number of pixels, got `wide`");
    assert_eq!(parse_item("rect 1%%,2% 3x4 : style=dashed").unwrap().place, Place::At("1".into(), "2".into()));
}
