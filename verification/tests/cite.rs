use mirzam::cite::bibtex::parse_bibtex;
use mirzam::cite::entry::{escape, CiteStyle, Entry};
use mirzam::strmap::StrMap;

const VASWANI: &str = r#"
@inproceedings{vaswani2017,
  author    = {Vaswani, Ashish and Shazeer, Noam and Parmar, Niki and Uszkoreit, Jakob},
  title     = {Attention Is All You Need},
  booktitle = {NeurIPS},
  year      = {2017},
  doi       = {10.5555/3295222.3295349}
}
"#;

fn one(src: &str) -> Entry {
    let (bib, warnings) = parse_bibtex(src);
    assert!(warnings.is_empty(), "{warnings:?}");
    bib.into_values().into_iter().next().expect("one entry")
}

fn html_authors(e: &Entry) -> String {
    e.author_display().unwrap_or_default()
}

#[test]
fn an_entry_keeps_its_key_type_and_fields() {
    let e = one(VASWANI);
    assert_eq!(e.key, "vaswani2017");
    assert_eq!(e.kind, "inproceedings");
    assert_eq!(e.field(&["title"]), Some("Attention Is All You Need"));
    assert_eq!(e.field(&["booktitle"]), Some("NeurIPS"));
}

#[test]
fn a_label_is_the_first_surname_and_the_year() {
    assert_eq!(one(VASWANI).label(), "Vaswani+17");
    assert_eq!(
        one("@book{k, author={Knuth, Donald E.}, year={1984}}").label(),
        "Knuth84"
    );
}

#[test]
fn et_al_in_the_field_is_read_as_the_summary_it_is() {
    let e = one("@misc{x, author={Vaswani et al.}, year={2017}}");
    assert_eq!(e.label(), "Vaswani+17");
    assert_eq!(html_authors(&e), "Vaswani et al.");
}

#[test]
fn a_one_word_name_is_its_own_surname() {
    let e = one("@misc{x, author={山田太郎 and 鈴木花子}, year={2024}}");
    assert_eq!(e.label(), "山田太郎+24");
}

#[test]
fn an_entry_with_no_author_falls_back_to_its_key() {
    assert_eq!(one("@misc{rfc7231, title={HTTP/1.1}}").label(), "rfc7231");
}

#[test]
fn a_reference_reads_as_authors_title_venue_year() {
    let html = one(VASWANI).html();
    assert!(
        html.starts_with("Vaswani, Shazeer, Parmar et al. <em>"),
        "{html}"
    );
    assert!(
        html.contains("<em>Attention Is All You Need</em>"),
        "{html}"
    );
    assert!(html.contains("NeurIPS, 2017."), "{html}");
    assert!(
        html.contains(r#"<a href="https://doi.org/10.5555/3295222.3295349">"#),
        "{html}"
    );
}

#[test]
fn a_reference_carries_volume_issue_and_pages() {
    let e = one(
        "@article{h, author={Huang, Guoquan}, title={T}, journal={IJRR}, \
         volume={29}, number={5}, pages={502--528}, year={2010}}",
    );
    assert!(
        e.html().contains("IJRR 29(5), 502–528, 2010."),
        "{}",
        e.html()
    );
    let vol = one("@article{a, title={T}, journal={J}, volume={7}, year={2020}}");
    assert!(vol.html().contains("J 7, 2020."), "{}", vol.html());
    let pages = one("@incollection{b, title={T}, booktitle={B}, pages={1--9}}");
    assert!(pages.html().contains("B 1–9."), "{}", pages.html());
    let issue = one("@article{c, title={T}, journal={J}, number={3}}");
    assert!(issue.html().contains("J no. 3."), "{}", issue.html());
    assert!(one(VASWANI).html().contains("NeurIPS, 2017."));
}

#[test]
fn a_short_author_list_is_shown_whole_and_comma_separated() {
    let e = one("@misc{x, author={Rivest, Ron and Shamir, Adi}, title={T}}");
    assert!(e.html().starts_with("Rivest, Shamir."), "{}", e.html());
    let ja = one("@misc{y, author={山田, 太郎 and 鈴木, 花子}, title={T}}");
    assert!(ja.html().starts_with("山田, 鈴木."), "{}", ja.html());
}

#[test]
fn an_arxiv_entry_links_to_the_abstract() {
    let e = one("@misc{x, title={T}, eprint={1810.04805}, archiveprefix={arXiv}}");
    assert!(
        e.html()
            .contains(r#"href="https://arxiv.org/abs/1810.04805""#),
        "{}",
        e.html()
    );
    assert!(e.html().contains("arXiv:1810.04805"));
}

#[test]
fn quoted_and_bare_values_parse_too() {
    let e = one(r#"@article{x, author = "Lovelace, Ada", year = 1843, title = {Notes}}"#);
    assert_eq!(e.field(&["year"]), Some("1843"));
    assert_eq!(e.label(), "Lovelace43");
}

#[test]
fn case_protecting_braces_and_escapes_are_not_shown() {
    let e = one(r#"@misc{x, title={{BERT} \& friends}}"#);
    assert_eq!(e.field(&["title"]), Some("BERT & friends"));
}

#[test]
fn a_value_wrapped_across_lines_becomes_one_line() {
    let e = one("@misc{x, title={A title\n    split over lines}}");
    assert_eq!(e.field(&["title"]), Some("A title split over lines"));
}

#[test]
fn a_nested_brace_does_not_end_the_value_early() {
    let e = one("@misc{x, title={A {nested} brace}, year={2020}}");
    assert_eq!(e.field(&["title"]), Some("A nested brace"));
    assert_eq!(e.field(&["year"]), Some("2020"));
}

#[test]
fn string_and_comment_blocks_are_read_past_not_into() {
    let (bib, warnings) =
        parse_bibtex("@string{acl = {ACL}}\n@comment{ignore me}\n@misc{real, title={T}}\n");
    assert!(warnings.is_empty(), "{warnings:?}");
    assert_eq!(bib.key_list(), vec!["real"]);
}

#[test]
fn an_unterminated_entry_costs_only_itself() {
    let (bib, _) = parse_bibtex("@misc{a, title={A}}\n@misc{b, title={B}\n");
    assert!(bib.contains_key("a"));
}

#[test]
fn a_key_defined_twice_is_reported() {
    let (bib, warnings) = parse_bibtex("@misc{a, title={One}}\n@misc{a, title={Two}}\n");
    assert_eq!(bib.get("a").unwrap().field(&["title"]), Some("Two"));
    assert_eq!(warnings.len(), 1, "{warnings:?}");
}

#[test]
fn frontmatter_fields_make_the_same_entry() {
    let mut fields = StrMap::new();
    fields.insert("Author".to_string(), "Lovelace, Ada".to_string());
    fields.insert("year".to_string(), "1843".to_string());
    let e = Entry::from_fields("x", &fields);
    assert_eq!(e.label(), "Lovelace43");
}

#[test]
fn a_style_name_is_checked_not_guessed() {
    assert_eq!(CiteStyle::parse("author"), Ok(CiteStyle::Author));
    assert_eq!(CiteStyle::parse(" numeric "), Ok(CiteStyle::Numeric));
    assert!(CiteStyle::parse("apa").is_err());
}

#[test]
fn markup_in_a_field_cannot_escape_into_the_page() {
    let e = one(r#"@misc{x, title={<script>alert(1)</script>}}"#);
    assert!(!e.html().contains("<script>"), "{}", e.html());
}

#[test]
fn escape_writes_the_four_entities() {
    assert_eq!(escape(r#"a & <b> "c""#), "a &amp; &lt;b&gt; &quot;c&quot;");
}

#[test]
fn an_empty_entry_reads_as_its_key() {
    assert_eq!(one("@misc{lonely,}").html(), "lonely");
}

#[test]
fn a_missing_key_is_reported_and_skipped() {
    let (bib, warnings) = parse_bibtex("@misc{, title={T}}\n@misc{k, title={K}}");
    assert_eq!(bib.len(), 1);
    assert_eq!(warnings, vec!["a `@misc` entry has no citation key; skipped".to_string()]);
}

#[test]
fn a_doi_written_as_a_link_is_not_linked_twice() {
    let e = one("@misc{x, title={T}, doi={https://doi.org/10.1/abc}}");
    assert!(e.html().contains(r#"<a href="https://doi.org/10.1/abc">doi:10.1/abc</a>"#), "{}", e.html());
}

#[test]
fn every_entry_is_filed_under_a_clean_key_with_one_line_values() {
    let (bib, _) = parse_bibtex(
        "@Article{ smith2020 ,\n  Title = {A  {Big}\n   Result~Here},\n  year = 2020\n}\n@misc{x, note={a~b}}",
    );
    for key in bib.key_list() {
        let e = bib.get(&key).unwrap();
        assert_eq!(e.key, key);
        assert!(!key.is_empty() && key == key.trim() && !key.contains(',') && !key.contains('\n'));
        for name in e.fields.key_list() {
            let v = e.fields.get(&name).unwrap();
            assert!(!name.is_empty());
            assert_eq!(v, &v.split_whitespace().collect::<Vec<_>>().join(" "));
            assert!(!v.contains('~'));
        }
    }
    assert_eq!(bib.get("smith2020").unwrap().fields.get("title").unwrap(), "A Big Result Here");
}

#[test]
fn escaping_leaves_no_markup_and_reads_back() {
    for s in ["<script>alert(\"x\")</script>", "a & b", "plain", "&amp;"] {
        let e = escape(s);
        assert!(!e.contains('<') && !e.contains('>') && !e.contains('"'));
        let back = e
            .replace("&quot;", "\"")
            .replace("&gt;", ">")
            .replace("&lt;", "<")
            .replace("&amp;", "&");
        assert_eq!(back, s);
    }
}

#[test]
fn a_field_is_the_first_listed_name_the_entry_has() {
    let mut f = StrMap::new();
    f.insert("year".to_string(), "".to_string());
    f.insert("date".to_string(), "2020".to_string());
    let e = Entry::from_fields("k", &f);
    assert_eq!(e.field(&["year", "date"]), None, "an empty first match is no value");
    assert_eq!(e.field(&["date", "year"]), Some("2020"));
    assert_eq!(e.field(&["x", "date"]), Some("2020"));
    assert_eq!(e.field(&["x"]), None);
}

#[test]
fn every_tag_in_a_reference_is_one_the_list_writes() {
    let e = one(r#"@misc{x, title={<script>alert(1)</script>}}"#);
    assert_eq!(e.html(), "<em>&lt;script&gt;alert(1)&lt;/script&gt;</em>.");
    let e = one(r#"@misc{y, author={A <b>}, title={T</em>}, url={https://x.org/?q="<i>"}}"#);
    let html = e.html();
    for (i, c) in html.char_indices() {
        if c == '<' {
            let rest = &html[i..];
            assert!(
                ["<em>", "</em>", "<a href=\"", "</a>"].iter().any(|t| rest.starts_with(t)),
                "{html}"
            );
        }
    }
    assert!(html.contains("&lt;b&gt;") && html.contains("T&lt;/em&gt;"), "{html}");
}

#[test]
fn escaping_is_read_back_by_replacing_the_entities_in_turn() {
    for s in [r#"a & <b> "c""#, "&amp;", "&quot;<", "plain", "&&lt;>", ""] {
        let back = escape(s)
            .replace("&quot;", "\"")
            .replace("&gt;", ">")
            .replace("&lt;", "<")
            .replace("&amp;", "&");
        assert_eq!(back, s);
    }
}

#[test]
fn kinds_and_field_names_come_out_lowercase() {
    let e = one("@ARTICLE{x, Title = {T}, JOURNAL={J}}");
    assert_eq!(e.kind, "article");
    assert_eq!(e.field(&["title"]), Some("T"));
    assert_eq!(e.field(&["journal"]), Some("J"));
    assert_eq!(e.field(&["Title"]), None);
}
