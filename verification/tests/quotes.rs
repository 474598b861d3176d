use mirzam::cite::entry::Entry;
use mirzam::quotes::{
    beside_bib, miss_finding, no_source_finding, pdf_in_file_field, pdf_path, resolve, short, warn,
    Miss, Source, settle, PageFind,
};
use mirzam::strmap::StrMap;

#[test]
fn the_file_field_is_read_in_every_shape_a_manager_writes() {
    assert_eq!(
        pdf_in_file_field("papers/a.pdf").as_deref(),
        Some("papers/a.pdf")
    );
    assert_eq!(
        pdf_in_file_field("Full Text PDF:files/123/duberg.pdf:application/pdf").as_deref(),
        Some("files/123/duberg.pdf")
    );
    assert_eq!(pdf_in_file_field(":a.pdf:PDF").as_deref(), Some("a.pdf"));
    assert_eq!(
        pdf_in_file_field("Snapshot:x.html:text/html;Full Text:b.PDF:application/pdf")
            .as_deref(),
        Some("b.PDF")
    );
    assert_eq!(
        pdf_in_file_field("C:\\papers\\a.pdf:PDF").as_deref(),
        Some("C:\\papers\\a.pdf")
    );
    assert_eq!(pdf_in_file_field("notes.txt"), None);
}

#[test]
fn a_source_resolves_to_a_pdf_or_says_why_not() {
    let mut bib = StrMap::new();
    let mut fields = StrMap::new();
    fields.insert(
        "file".to_string(),
        "Full Text:papers/d.pdf:application/pdf".to_string(),
    );
    bib.insert("d".to_string(), Entry::from_fields("d", &fields));
    bib.insert("nofile".to_string(), Entry::from_fields("nofile", &StrMap::new()));
    let mut odd = StrMap::new();
    odd.insert("file".to_string(), "notes.txt".to_string());
    bib.insert("odd".to_string(), Entry::from_fields("odd", &odd));

    let deck = "/deck";
    let bibs = "/deck/refs";
    // Where the PDF is: the file beside the `.bib` is looked for first.
    let open = |source: &str, beside_exists: bool| {
        let s = resolve(source, &bib).unwrap();
        let _ = beside_bib(&s, bibs);
        pdf_path(&s, bibs, deck, beside_exists)
    };
    assert_eq!(resolve("paper.pdf", &bib).unwrap(), Source::Given("paper.pdf".into()));
    assert_eq!(open("paper.pdf", false), "/deck/paper.pdf");
    assert_eq!(open("/abs/p.pdf", false), "/abs/p.pdf");
    assert_eq!(resolve("@d", &bib).unwrap(), Source::Attached("papers/d.pdf".into()));
    // Neither location exists here, so the deck's directory is the answer.
    assert_eq!(
        beside_bib(&resolve("@d", &bib).unwrap(), bibs).as_deref(),
        Some("/deck/refs/papers/d.pdf")
    );
    assert_eq!(open("@d", false), "/deck/papers/d.pdf");
    assert_eq!(open("@d", true), "/deck/refs/papers/d.pdf");
    assert!(resolve("@ghost", &bib)
        .unwrap_err()
        .contains("not in the bibliography"));
    assert!(resolve("@nofile", &bib).unwrap_err().contains("`file` field"));
    assert_eq!(
        resolve("@odd", &bib).unwrap_err(),
        "@odd: no PDF in its `file` field (`notes.txt`)"
    );
}

#[test]
fn a_long_quote_is_cut_at_sixty_characters() {
    let long = "x".repeat(61);
    assert_eq!(short(&long), format!("{}…", "x".repeat(60)));
    assert_eq!(short("brief"), "brief");
    let f = warn(3, "careful".to_string());
    assert_eq!((f.slide, f.error, f.message.as_str()), (3, false, "careful"));
}

#[test]
fn a_missed_quote_says_where_it_was_looked_for() {
    let f = miss_finding(3, "d.pdf", Some(4), "the words", &Miss::Nothing);
    assert!(f.error);
    assert_eq!(f.slide, 3);
    assert_eq!(f.message, "quote is not on p. 4 of d.pdf: \"the words\"");
    let f = miss_finding(3, "d.pdf", None, "w", &Miss::NoPage(9));
    assert!(!f.error);
    assert_eq!(f.message, "d.pdf has no page 9");
    let f = miss_finding(1, "d.pdf", None, "w", &Miss::Unreadable("garbled".to_string()));
    assert_eq!(f.message, "in d.pdf: garbled");
    let near = Miss::Near { page: 2, text: "the wurds".to_string(), distance: 1 };
    let f = miss_finding(1, "d.pdf", Some(2), "the words", &near);
    assert!(!f.error);
    assert_eq!(
        f.message,
        "quote differs from p. 2 of d.pdf by 1 edit(s): the slide says \"the words\" and the page prints \"the wurds\""
    );
    assert!(no_source_finding(2).message.starts_with("a mark carries quote="));
}

fn near(text: &str, distance: usize) -> PageFind {
    PageFind::Near { text: text.to_string(), distance }
}

#[test]
fn the_first_exact_match_wins() {
    let finds = vec![near("a b", 3), PageFind::Exact, near("c", 1), PageFind::Exact];
    assert_eq!(settle(&vec![1, 2, 3, 4], None, &finds), Ok(1));
}

#[test]
fn failing_an_exact_match_the_nearest_words_anywhere() {
    let finds = vec![near("x", 3), PageFind::NoMatch, near("y", 1)];
    assert_eq!(
        settle(&vec![1, 2, 3], None, &finds),
        Err(Miss::Near { page: 3, text: "y".to_string(), distance: 1 })
    );
    // Equally near: the earlier page stands.
    let finds = vec![near("x", 2), near("y", 2)];
    assert_eq!(
        settle(&vec![7, 8], None, &finds),
        Err(Miss::Near { page: 7, text: "x".to_string(), distance: 2 })
    );
    // Near words outrank a page that could not be read.
    let finds = vec![PageFind::Unreadable("bad".to_string()), near("z", 4)];
    assert_eq!(
        settle(&vec![1, 2], None, &finds),
        Err(Miss::Near { page: 2, text: "z".to_string(), distance: 4 })
    );
}

#[test]
fn a_named_page_is_the_only_one_looked_at() {
    assert_eq!(settle(&vec![1, 2], Some(5), &vec![PageFind::Exact, PageFind::Exact]), Err(Miss::NoPage(5)));
    assert_eq!(settle(&vec![1, 2], Some(2), &vec![PageFind::Exact, PageFind::NoMatch]), Err(Miss::Nothing));
    assert_eq!(settle(&vec![1, 2], Some(2), &vec![PageFind::NoMatch, PageFind::Exact]), Ok(1));
}

#[test]
fn the_first_unreadable_page_else_nothing() {
    let finds = vec![
        PageFind::Unreadable("bad".to_string()),
        PageFind::NoMatch,
        PageFind::Unreadable("worse".to_string()),
    ];
    assert_eq!(settle(&vec![1, 2, 3], None, &finds), Err(Miss::Unreadable("bad".to_string())));
    assert_eq!(settle(&Vec::new(), None, &Vec::new()), Err(Miss::Nothing));
}

#[test]
fn the_first_attachment_that_lists_a_pdf_wins() {
    assert_eq!(
        pdf_in_file_field(r"notes.txt:text/plain; Title:C:\papers\Paper.PDF:application/pdf;b.pdf"),
        Some(r"C:\papers\Paper.PDF".to_string())
    );
    assert_eq!(pdf_in_file_field("  a.pdf  ;b.pdf"), Some("a.pdf".to_string()));
    assert_eq!(pdf_in_file_field("a.txt;b.doc:x"), None);
}
