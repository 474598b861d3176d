use mirzam::pdfimport::{
    converts_here, lift_choice, lifted_note, no_tool, tool_note, wanted, Lift,
    credit, decode_text, distinct, figure_markdown, nothing_taken, stem_for, title_text, Format,
    Options, Tool, TOOL_ENV,
};

#[test]
fn no_two_figures_are_written_to_one_file() {
    let mut taken = Vec::new();
    let names: Vec<String> = ["p-fig3", "p-fig3", "p-fig4", "p-fig3"]
        .into_iter()
        .map(|s| distinct(s, &mut taken))
        .collect();
    assert_eq!(names, ["p-fig3", "p-fig3-2", "p-fig4", "p-fig3-3"]);
}

#[test]
fn a_named_tool_wins_and_a_missing_one_is_ignored() {
    let none = |_: &str| None;
    let all = |_: &str| true;
    let tool = Tool::discover_with(Some("/opt/pdftocairo"), none, all).unwrap();
    assert_eq!(tool.name(), "pdftocairo");

    let env = |k: &str| {
        if k == TOOL_ENV {
            Some("/opt/mutool".to_string())
        } else {
            None
        }
    };
    let tool = Tool::discover_with(None, env, all).unwrap();
    assert_eq!(tool.name(), "mutool");

    assert!(Tool::discover_with(Some("/opt/mutool"), none, |_: &str| false).is_none());
}

#[test]
fn the_markdown_carries_the_caption_and_the_citation() {
    let line = figure_markdown(
        "Figure 3",
        Some("img/vaswani2017-fig3.svg"),
        "Readout fidelity, the \"good\" run",
        "[@vaswani2017]",
    );
    assert!(line.contains("![Figure 3](img/vaswani2017-fig3.svg)"), "{line}");
    assert!(line.contains("caption=\"Readout fidelity, the ”good” run\""), "{line}");
    assert!(line.contains("credit=\"Figure 3 of [@vaswani2017]\""), "{line}");
    assert!(figure_markdown("T", None, "c", "p").starts_with("![T](…){fit=contain"));
}

#[test]
fn a_format_is_one_of_five_words() {
    assert_eq!(Format::parse("svg"), Ok(Format::Svg));
    assert_eq!(Format::parse("auto"), Ok(Format::Auto));
    assert_eq!(Format::parse("pdf"), Ok(Format::Pdf));
    assert_eq!(
        Format::parse("jpeg"),
        Err("--format: `jpeg` is not a format; use auto, svg, png, image or pdf".to_string())
    );
    assert_eq!(Format::default(), Format::Auto);
    let o = Options::default();
    assert_eq!(o.out_dir, "img");
    assert_eq!(o.dpi, 300);
    assert!(!o.list && o.only.is_none() && o.tool.is_none());
}

#[test]
fn a_tool_is_told_by_its_file_name_not_its_folder() {
    assert!(matches!(Tool::name_of("/pdftocairo/bin/mutool"), Tool::MuTool(_)));
    assert!(matches!(Tool::name_of("/usr/bin/pdftocairo"), Tool::PdfToCairo(_)));
    assert_eq!(Tool::name_of("/usr/bin/pdftocairo").program(), "/usr/bin/pdftocairo");
    let named = Tool::named_with(None, |_: &str| None, |_: &str| true);
    assert!(named.is_none(), "what is merely installed is not asked for");
}

#[test]
fn a_file_name_comes_from_the_key_or_the_paper() {
    assert_eq!(stem_for(Some("Vaswani2017"), "x.pdf", "fig", "3a"), "vaswani2017-fig3a");
    assert_eq!(stem_for(None, "/papers/My Paper!.pdf", "tab", "IV."), "my-paper-tabiv");
    assert_eq!(stem_for(None, "", "fig", "1"), "figure-fig1");
}

#[test]
fn the_credit_is_a_citation_when_the_key_is_known() {
    assert_eq!(credit(Some("k"), Some("T"), "/a/p.pdf"), "[@k]");
    assert_eq!(credit(None, Some("A Title"), "/a/p.pdf"), "A Title");
    assert_eq!(credit(None, None, "/a/p.pdf"), "p.pdf");
}

#[test]
fn nothing_taken_says_which_flags_excluded_what() {
    assert_eq!(
        nothing_taken("p.pdf", Some("3"), Some(2), 4),
        "p.pdf: 4 captioned figure(s), none matching --figure 3 --page 2.\n\
         Run it without them - or with --list - to see what the paper calls them."
    );
    assert!(nothing_taken("p.pdf", None, None, 0).starts_with("p.pdf: no captioned figure found.\n"));
}

#[test]
fn a_text_string_is_utf16_after_its_mark_and_latin1_without() {
    assert_eq!(decode_text(&[0xFE, 0xFF, 0x00, 0x41, 0x00, 0xE9]), "Aé");
    assert_eq!(decode_text(b"Caf\xe9"), "Café");
    assert_eq!(title_text(b"  Deep Nets  "), Some("Deep Nets".to_string()));
    assert_eq!(title_text(&[0xFE, 0xFF, 0x00, 0x20]), None);
    assert_eq!(title_text(b""), None);
}

#[test]
fn a_figure_is_lifted_cropped_or_converted_as_its_format_asks() {
    assert_eq!(lift_choice(Format::Auto, true, "Figure 2"), Lift::Try);
    assert_eq!(lift_choice(Format::Auto, false, "Figure 2"), Lift::Skip);
    assert_eq!(lift_choice(Format::Svg, true, "Figure 2"), Lift::Skip);
    assert_eq!(
        lift_choice(Format::Image, false, "Figure 2"),
        Lift::Refuse(
            "Figure 2: not a single stored image, so there is nothing to lift out. \
             Leave --format off and it will be cropped instead."
                .to_string()
        )
    );
    assert_eq!(lifted_note("640×480 image"), "the 640×480 image stored in the page");
    assert_eq!(wanted(Format::Png), "png");
    assert_eq!(wanted(Format::Auto), "svg");
    assert!(converts_here("svg", false));
    assert!(!converts_here("svg", true));
    assert!(!converts_here("png", false));
    assert_eq!(tool_note("png", &Tool::PdfToCairo("pdftocairo".to_string())), "png by pdftocairo");
    assert_eq!(no_tool(Format::Auto, "F", None, "svg", "f.pdf"), Ok("cropped".to_string()));
    assert_eq!(
        no_tool(Format::Auto, "F", Some("no fonts"), "svg", "f.pdf"),
        Ok("cropped - not converted here: no fonts".to_string())
    );
    assert_eq!(
        no_tool(Format::Svg, "Figure 1", Some("no fonts"), "svg", "out/f.pdf"),
        Err("Figure 1: no fonts.\nThe crop is at out/f.pdf, and `mutool` or `pdftocairo` may still convert it."
            .to_string())
    );
    assert!(no_tool(Format::Png, "F", None, "png", "out/f.pdf")
        .unwrap_err()
        .starts_with("a png is rendered by a tool, and this machine has none."));
}
