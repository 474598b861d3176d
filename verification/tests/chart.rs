use mirzam::chart::{
    color_for, data_file, esc, is_float_text, parse_chart, parse_csv, split_row, stacking,
    warnings, ChartKind, ChartSpec, Stacking, KNOWN_KEYS,
};

fn keys(ks: &[&str]) -> Vec<String> {
    ks.iter().map(|k| k.to_string()).collect()
}

#[test]
fn an_unknown_key_is_named_in_a_warning() {
    let spec = ChartSpec::default();
    let w = warnings(&spec, &keys(&["type", "ylabel", "data"]));
    assert_eq!(w, vec!["chart: unknown key `ylabel`, ignored".to_string()]);
}

#[test]
fn every_key_the_spec_reads_counts_as_known() {
    let spec = ChartSpec::default();
    let all: Vec<String> = KNOWN_KEYS.iter().map(|k| k.to_string()).collect();
    assert!(warnings(&spec, &all).is_empty());
}

#[test]
fn stacking_a_chart_that_does_not_stack_warns_and_is_ignored() {
    let mut spec = ChartSpec::default();
    spec.kind = ChartKind::Line;
    spec.stacked = Stacking::Sum;
    spec.horizontal = true;
    let w = warnings(&spec, &Vec::new());
    assert_eq!(
        w,
        vec![
            "chart: `stacked` applies to bar charts, ignored".to_string(),
            "chart: `horizontal` applies to bar charts, ignored".to_string(),
        ]
    );
    assert_eq!(stacking(&spec), Stacking::Beside);
    spec.kind = ChartKind::Bar;
    assert_eq!(stacking(&spec), Stacking::Sum);
}

#[test]
fn a_stacking_mode_nobody_defined_is_refused() {
    assert_eq!(Stacking::from_name(" Percent "), Ok(Stacking::Percent));
    assert_eq!(Stacking::from_name("100%"), Ok(Stacking::Percent));
    assert_eq!(Stacking::from_name("yes"), Ok(Stacking::Sum));
    assert_eq!(Stacking::from_name("no"), Ok(Stacking::Beside));
    assert_eq!(
        Stacking::from_name("Sideways"),
        Err("`stacked: sideways` is not one of true, false or percent".to_string())
    );
    assert_eq!(Stacking::from_flag(true), Stacking::Sum);
    assert_eq!(Stacking::from_flag(false), Stacking::Beside);
    assert_eq!(ChartKind::from_name("scatter"), Some(ChartKind::Scatter));
    assert_eq!(ChartKind::from_name("donut"), None);
}

#[test]
fn a_quoted_cell_keeps_its_comma() {
    assert_eq!(split_row("Q1, \"1,200\", 3%"), vec!["Q1", "1,200", "3%"]);
    assert_eq!(split_row("a\tb, c\td"), vec!["a", "b, c", "d"]);
    assert_eq!(split_row(""), vec![""]);
}

#[test]
fn a_single_line_ending_in_csv_names_a_file() {
    assert_eq!(data_file("  sales.csv \n"), Some("sales.csv".to_string()));
    assert_eq!(data_file("k, v\na.csv"), None);
    assert_eq!(data_file("k, v"), None);
}

#[test]
fn text_in_the_drawing_is_escaped() {
    assert_eq!(esc("a<b & \"c\">"), "a&lt;b &amp; &quot;c&quot;&gt;");
}

#[test]
fn a_colour_is_a_theme_name_a_cleaned_value_or_the_palette() {
    let mut spec = ChartSpec::default();
    spec.colors = vec!["@accent2".to_string(), "#ff0000; evil".to_string()];
    assert_eq!(color_for(&spec, 0), "var(--mz-accent2)");
    assert_eq!(color_for(&spec, 1), "#ff0000 evil");
    assert_eq!(color_for(&spec, 2), "var(--mz-chart3)");
    assert_eq!(color_for(&spec, 6), "var(--mz-accent1)");
}

fn numbers(values: &[String]) -> Vec<f64> {
    values.iter().map(|v| v.parse::<f64>().expect("a number's text")).collect()
}

/// The spec a block of `type:` and `data:` (and whatever `more` sets) reads as.
fn spec(kind: ChartKind, data: &str) -> ChartSpec {
    let mut s = ChartSpec::default();
    s.kind = kind;
    s.data = data.to_string();
    s
}

#[test]
fn parses_inline_csv() {
    let mut s = spec(ChartKind::Bar, "quarter, 2024, 2025\nQ1, 10, 20\nQ2, 30, 40\n");
    s.title = Some("T".to_string());
    let doc = parse_chart(s, &keys(&["type", "title", "data"]), None);
    assert!(doc.errors.is_empty(), "{:?}", doc.errors);
    let t = doc.table.unwrap();
    assert_eq!(t.category_name, "quarter");
    assert_eq!(t.categories, vec!["Q1", "Q2"]);
    assert_eq!(t.series.len(), 2);
    assert_eq!(t.series[0].name, "2024");
    assert_eq!(numbers(&t.series[1].values), vec![20.0, 40.0]);
}

#[test]
fn resolves_csv_file() {
    let s = spec(ChartKind::Line, "results.csv");
    assert_eq!(data_file(&s.data).as_deref(), Some("results.csv"));
    let doc = parse_chart(s, &keys(&["type", "data"]), Some("x,y\na,1\nb,2\n".to_string()));
    assert!(doc.errors.is_empty());
    assert_eq!(doc.data_file.as_deref(), Some("results.csv"));
    assert_eq!(numbers(&doc.table.unwrap().series[0].values), vec![1.0, 2.0]);
}

#[test]
fn missing_file_reports_error() {
    let doc = parse_chart(spec(ChartKind::Bar, "nope.csv"), &keys(&["type", "data"]), None);
    assert!(doc.errors.iter().any(|e| e.contains("nope.csv")));
    assert_eq!(doc.errors[0], "chart: cannot read data file `nope.csv`");
    assert_eq!(doc.errors[1], "chart: empty data");
    assert!(doc.table.is_none());
}

#[test]
fn ragged_rows_rejected() {
    let err = parse_csv("a,b,c\n1,2\n", None).unwrap_err();
    assert!(err.contains("columns"), "{err}");
    assert_eq!(err, "row 2 has 2 columns, expected 3");
}

#[test]
fn strips_percent_and_thousands_separators() {
    let t = parse_csv("k,v\na,\"1,200\"\nb,45%\n", None).unwrap();
    assert_eq!(numbers(&t.series[0].values), vec![1200.0, 45.0]);
}

#[test]
fn x_names_the_column_the_categories_come_from() {
    let mut s = spec(ChartKind::Line, "value, year\n3, 2020\n7, 2024\n");
    s.x = Some("year".to_string());
    let doc = parse_chart(s, &keys(&["type", "x", "data"]), None);
    assert!(doc.errors.is_empty(), "{:?}", doc.errors);
    let t = doc.table.unwrap();
    assert_eq!(t.category_name, "year");
    assert_eq!(t.categories, vec!["2020", "2024"]);
    assert_eq!(t.series.len(), 1);
    assert_eq!(t.series[0].name, "value");
    assert_eq!(numbers(&t.series[0].values), vec![3.0, 7.0]);
    assert_eq!(t.x_values, Some(vec!["2020".to_string(), "2024".to_string()]));
}

#[test]
fn x_naming_no_column_reports_an_error() {
    let mut s = spec(ChartKind::Line, "k, v\na, 1\n");
    s.x = Some("nope".to_string());
    let doc = parse_chart(s, &keys(&["type", "x", "data"]), None);
    assert!(doc.errors.iter().any(|e| e.contains("nope")), "{:?}", doc.errors);
    assert_eq!(doc.errors, vec!["chart: no column named `nope`".to_string()]);
}

#[test]
fn an_unknown_key_warns_and_the_chart_still_draws() {
    let doc = parse_chart(spec(ChartKind::Bar, "k, v\na, 1\n"), &keys(&["type", "ylabel", "data"]), None);
    assert!(doc.errors.iter().any(|e| e.contains("ylabel")), "{:?}", doc.errors);
    assert!(doc.table.is_some(), "the chart still has its data to draw");
}

#[test]
fn every_key_the_spec_reads_is_a_known_key() {
    let mut s = spec(ChartKind::Bar, "k, v\n1, 2\n");
    s.id = Some("i".to_string());
    s.title = Some("t".to_string());
    s.x = Some("k".to_string());
    s.y_label = Some("y".to_string());
    s.stacked = Stacking::Sum;
    s.legend = Some(false);
    s.colors = vec!["@accent1".to_string()];
    s.highlight = Some("v".to_string());
    let written = keys(&[
        "type", "id", "title", "x", "y_label", "stacked", "legend", "colors", "highlight", "data",
    ]);
    let doc = parse_chart(s, &written, None);
    assert!(doc.errors.is_empty(), "{:?}", doc.errors);
}

#[test]
fn stacking_a_chart_that_does_not_stack_warns() {
    let mut s = spec(ChartKind::Line, "k, a\nx, 1\n");
    s.stacked = Stacking::Sum;
    let doc = parse_chart(s, &keys(&["type", "stacked", "data"]), None);
    assert!(doc.errors.iter().any(|e| e.contains("stacked")), "{:?}", doc.errors);
    assert!(doc.table.is_some(), "the line still has its data to draw");
}

#[test]
fn laying_a_chart_that_is_not_a_bar_chart_on_its_side_warns() {
    let mut s = spec(ChartKind::Line, "k, v\na, 1\n");
    s.horizontal = true;
    let doc = parse_chart(s, &keys(&["type", "horizontal", "data"]), None);
    assert!(doc.errors.iter().any(|e| e.contains("horizontal")), "{:?}", doc.errors);
    assert!(doc.table.is_some(), "the line still has its data to draw");
}

#[test]
fn a_table_refuses_what_is_not_a_table() {
    assert_eq!(parse_csv("", None).unwrap_err(), "empty data");
    assert_eq!(parse_csv("# only a comment\n\n", None).unwrap_err(), "empty data");
    assert_eq!(
        parse_csv("k\na\n", None).unwrap_err(),
        "expected a category column and at least one series column"
    );
    assert_eq!(parse_csv("k,v\na,1\nb,lots\n", None).unwrap_err(), "row 3: `lots` is not a number");
    let header_only = parse_chart(spec(ChartKind::Bar, "k,v\n"), &keys(&["data"]), None);
    assert_eq!(header_only.errors, vec!["chart: no data rows".to_string()]);
    assert!(header_only.table.is_none());
}

#[test]
fn text_categories_leave_the_axis_ordinal() {
    let t = parse_csv("k\tv\nMon\t1\nTue\t2\n", None).unwrap();
    assert_eq!(t.x_values, None);
    let t = parse_csv("h,v\n00,1\n1.5e1,2\n", None).unwrap();
    assert_eq!(t.x_values, Some(vec!["00".to_string(), "1.5e1".to_string()]));
    assert_eq!(t.categories, vec!["00", "1.5e1"], "the label stays as written");
}

#[test]
fn a_number_is_what_f64_reads() {
    for (text, reads) in [
        ("1", true),
        ("-1.5", true),
        ("+.5", true),
        ("5.", true),
        ("1e10", true),
        ("1E-3", true),
        ("inf", true),
        ("-Infinity", true),
        ("NaN", true),
        (".", false),
        ("e5", false),
        ("1e", false),
        ("1.2.3", false),
        ("", false),
        (" 1", false),
        ("1_000", false),
        ("0x10", false),
    ] {
        let cs: Vec<char> = text.chars().collect();
        assert_eq!(is_float_text(&cs), reads, "{text}");
        assert_eq!(text.parse::<f64>().is_ok(), reads, "{text}");
    }
}
