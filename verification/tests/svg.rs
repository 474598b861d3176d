use mirzam::svg::scalable;

#[test]
fn the_root_keeps_its_shape_and_loses_its_size() {
    let svg = r##"<svg viewBox="0 0 511 133" width="511" height="133.4" xmlns="http://www.w3.org/2000/svg"><g/></svg>"##;
    assert_eq!(
        scalable(svg),
        r##"<svg viewBox="0 0 511 133" xmlns="http://www.w3.org/2000/svg"><g/></svg>"##
    );
}

#[test]
fn a_root_with_no_view_box_keeps_the_only_size_it_has() {
    // Without one there is nothing left to say how tall the figure is.
    let svg = r##"<svg width="511" height="133"><g/></svg>"##;
    assert_eq!(scalable(svg), svg);
}

#[test]
fn an_attribute_in_single_quotes_survives() {
    let svg = r##"<svg viewBox='0 0 4 2' width='4' id='fig'><g/></svg>"##;
    assert_eq!(
        scalable(svg),
        r##"<svg viewBox='0 0 4 2' id='fig'><g/></svg>"##
    );
}

#[test]
fn what_comes_before_and_after_the_root_is_kept() {
    let svg = "<?xml version=\"1.0\"?>\n<svg height=\"2\"  viewBox=\"0 0 1 2\">x</svg>";
    assert_eq!(
        scalable(svg),
        "<?xml version=\"1.0\"?>\n<svg viewBox=\"0 0 1 2\">x</svg>"
    );
    assert_eq!(scalable("no svg here"), "no svg here");
    assert_eq!(scalable("<svg viewBox=\"0 0 1 1\""), "<svg viewBox=\"0 0 1 1\"");
}

/// A page the shape hayro writes one: drawn elements first, then the glyph
/// outlines they point at, inside a `<defs>` that carries an id of its own.
const PAGE: &str = r##"<svg viewBox="0 0 100 50" xmlns="http://www.w3.org/2000/svg">
    <path d="M10,10 L90,10 L90,40 L10,40 Z" fill="#eeeeee" transform="matrix(1 0 0 1 0 0)"/>
    <path d="M10,500 L90,500 L90,540 L10,540 Z" fill="#ff0000" transform="matrix(1 0 0 1 0 0)"/>
    <path d="M0,0 h10 v10" fill="#00ff00" transform="matrix(1 0 0 1 0 0)"/>
    <use xlink:href="#g0" transform="matrix(1 0 0 1 0 0)" fill="#000000"/>
    <use xlink:href="#g1" transform="matrix(1 0 0 1 0 0)" fill="#000000"/>
    <use xlink:href="#g2" transform="matrix(1 0 0 1 0 0)" fill="#000000"/>
    <g transform="matrix(1 0 0 1 0 0)">
        <path d="M10,900 L20,900 L20,910 Z" fill="#0000ff"/>
    </g>
    <g transform="matrix(1 0 0 1 0 0)">
        <path d="M10,10 m5,5 l3,3" fill="#00ffff"/>
    </g>
    <g>
        <image transform="matrix(100 0 0 30 2 900)" xlink:href="data:image/png;base64,AAAA" width="2" height="2"/>
    </g>
    <defs id="outline-glyph">
        <path id="g0" d="M20,20 L30,20 L30,30 Z"/>
        <path id="g1" d="M20,900 L30,900 L30,910 Z"/>
        <path id="g2" d=""/>
    </defs>
</svg>"##;

/// Whether each element of `PAGE`, in document order, meets the view
/// `0 0 100 50` once measured: the grey figure, the `h` shorthand (which
/// cannot be measured, so stays) and the group holding an `m` shorthand
/// do; the far rectangle, the far glyph, the empty glyph, and the groups
/// of far-off paths and of a far-off image do not.
const SEEN: [bool; 17] = [
    true, true, false, true, true, false, false, false, false, true, true, false, false, true,
    true, false, false,
];

fn culled(svg: &str, seen: Option<&[bool]>) -> String {
    let cs: Vec<char> = svg.chars().collect();
    let els = mirzam::svg::scan(&cs);
    let view: Option<Vec<bool>> = seen.map(|s| s.to_vec());
    mirzam::svg::cull(&cs, &els, view.as_ref()).into_iter().collect()
}

/// Tags in, tags out, and every one of them closed.
fn balanced(svg: &str) -> bool {
    let cs: Vec<char> = svg.chars().collect();
    let open = mirzam::svg::scan(&cs).iter().filter(|e| !e.empty).count();
    svg.matches("</").count() == open
}

#[test]
fn what_the_view_cannot_show_goes() {
    let culled = culled(PAGE, Some(&SEEN));
    assert!(culled.contains("#eeeeee"), "the figure stays: {culled}");
    assert!(!culled.contains("#ff0000"), "the far-off rectangle goes: {culled}");
    assert!(culled.contains(r##"<use xlink:href="#g0""##), "{culled}");
    assert!(!culled.contains(r##"<use xlink:href="#g1""##), "{culled}");
    assert!(balanced(&culled), "{culled}");
}

/// A definition survives exactly as long as something still names it.
#[test]
fn the_glyphs_nobody_draws_go_with_them() {
    let culled = culled(PAGE, Some(&SEEN));
    assert!(culled.contains(r##"<path id="g0""##), "{culled}");
    assert!(!culled.contains(r##"<path id="g1""##), "{culled}");
    assert!(
        culled.contains(r##"<defs id="outline-glyph">"##) && culled.contains("</defs>"),
        "the container is not a definition: {culled}"
    );
}

#[test]
fn a_glyph_that_paints_nothing_is_dropped() {
    let culled = culled(PAGE, Some(&SEEN));
    assert!(!culled.contains(r##"<use xlink:href="#g2""##), "{culled}");
    assert!(!culled.contains(r##"<path id="g2""##), "{culled}");
}

#[test]
fn what_it_cannot_measure_it_keeps() {
    let culled = culled(PAGE, Some(&SEEN));
    assert!(culled.contains("#00ff00"), "the `h` shorthand stays: {culled}");
    assert!(culled.contains("#00ffff"), "and the group holding one stays with it: {culled}");
}

#[test]
fn a_group_is_measured_by_what_it_holds() {
    let culled = culled(PAGE, Some(&SEEN));
    assert!(!culled.contains("#0000ff"), "a group of far-off paths goes: {culled}");
    assert!(!culled.contains("data:image/png"), "and so does one holding a far-off image: {culled}");
    assert!(balanced(&culled), "{culled}");
}

/// Nothing to measure against, nothing to remove.
#[test]
fn a_page_with_no_view_box_is_left_alone() {
    let odd = r#"<svg xmlns="http://www.w3.org/2000/svg"><path d="M0,0 L1,1"/></svg>"#;
    assert_eq!(culled(odd, None), odd);
}

#[test]
fn the_lines_go_with_the_elements() {
    let culled = culled(PAGE, Some(&SEEN));
    assert!(
        !culled.lines().any(|l| l.trim().is_empty()),
        "a dropped element leaves no blank line behind: {culled}"
    );
}

#[test]
fn the_tags_are_read_with_their_nesting_and_names() {
    let cs: Vec<char> = "<svg a='>'><g><path d=\"x>y\"/></g></svg>".chars().collect();
    let els = mirzam::svg::scan(&cs);
    assert_eq!(els.len(), 3);
    let name = |i: usize| cs[els[i].name_start..els[i].name_end].iter().collect::<String>();
    assert_eq!((name(0), name(1), name(2)), ("svg".into(), "g".into(), "path".into()));
    assert_eq!((els[0].depth, els[1].depth, els[2].depth), (0, 1, 2));
    assert!(els[2].empty && !els[1].empty);
    assert_eq!(els[1].close_end, 33);
    assert_eq!(els[0].close_end, cs.len());
    let id: Vec<char> = "<path xlink:id=\"q\" id=\"p1\"/>".chars().collect();
    assert_eq!(mirzam::svg::id_of(&id).map(|v| v.into_iter().collect::<String>()), Some("q".into()));
    let none: Vec<char> = "<path grid=\"1\"/>".chars().collect();
    assert_eq!(mirzam::svg::id_of(&none), None);
}

#[test]
fn taking_the_size_off_twice_takes_it_off_once() {
    for svg in [
        r#"<?xml version="1.0"?><svg width="10pt" viewBox="0 0 10 5" height='5pt' id="a"><g/></svg>"#,
        r#"<svg   height="1"   width = "2" viewBox="0 0 2 1"><rect/></svg>"#,
        r#"<svg width="3" height="4"><g/></svg>"#,
        "no svg here",
    ] {
        let once = scalable(svg);
        assert_eq!(scalable(&once), once, "{svg}");
    }
    assert_eq!(
        scalable(r#"<svg width="10pt" viewBox="0 0 10 5" height='5pt' id="a">"#),
        r#"<svg viewBox="0 0 10 5" id="a">"#
    );
}
