use mirzam::pipeline::{pane_block_offset, warning_kind, WarningSite};

#[test]
fn a_pane_block_is_found_by_its_whole_name() {
    let slide = "# Head\n\n::: pane figure\nx\n:::\n\n::: pane fig {align=center}\ny\n:::\n";
    let at = pane_block_offset(slide, "fig").expect("fig has a block");
    assert!(
        slide[at..].starts_with("::: pane fig {"),
        "{:?}",
        &slide[at..]
    );
    assert_eq!(pane_block_offset(slide, "figure"), Some(8));
    assert_eq!(pane_block_offset(slide, "main"), None);
}

#[test]
fn a_pane_offset_counts_bytes_not_characters() {
    let slide = "# Über\n  ::: pane fig\n";
    assert_eq!(pane_block_offset(slide, "fig"), Some(8));
    assert_eq!(pane_block_offset("::: pane", "fig"), None);
    assert_eq!(pane_block_offset("::: pane  a\t", "a"), Some(0));
}

#[test]
fn the_css_key_has_its_own_kind_here() {
    assert_eq!(warning_kind("`css:` was removed in 0.7.0"), "build.css");
    assert_eq!(warning_kind("slide 2: mermaid: flowchart"), "build.mermaid");
    assert_eq!(warning_kind("nothing known"), "build.other");
    assert_eq!(WarningSite::default(), WarningSite { slide: None, file: None, offset: None });
}

#[test]
fn a_cached_slide_is_fresh_while_its_assets_are_unchanged() {
    let entry = mirzam::pipeline::CacheEntry::new(
        "<section>x</section>".to_string(),
        vec![("a.png".to_string(), Some(7)), ("b.csv".to_string(), None)],
    );
    assert_eq!(entry.html(), "<section>x</section>");
    assert_eq!(entry.asset_paths(), vec!["a.png".to_string(), "b.csv".to_string()]);
    assert!(entry.is_fresh(&vec![Some(7), None]));
    assert!(!entry.is_fresh(&vec![Some(8), None]));
    assert!(!entry.is_fresh(&vec![Some(7), Some(1)]));
}
