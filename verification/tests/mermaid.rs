use mirzam::mermaid::{first_line, Mmdc, MMDC_ENV};

/// The path this environment can actually take: nothing is installed, so
/// discovery answers `None` and every `mermaid` fence degrades.
#[test]
fn nothing_installed_is_no_renderer_rather_than_an_error() {
    let none = Mmdc::discover_with(|_| None, |_| false);
    assert!(none.is_none());
}

#[test]
fn the_environment_variable_wins_over_the_name_on_path() {
    let found = Mmdc::discover_with(
        |k| if k == MMDC_ENV { Some("/opt/mermaid/mmdc".to_string()) } else { None },
        |_| true,
    )
    .expect("a renderer");
    assert_eq!(found.program(), "/opt/mermaid/mmdc");
}

/// A variable pointing at something that is not there falls through to
/// `PATH` rather than failing the build.
#[test]
fn a_variable_naming_nothing_falls_through_to_the_name_on_path() {
    let found = Mmdc::discover_with(
        |k| if k == MMDC_ENV { Some("/nowhere/mmdc".to_string()) } else { None },
        |p| p == "mmdc",
    )
    .expect("a renderer");
    assert_eq!(found.program(), "mmdc");
}

#[test]
fn a_tool_that_fails_is_quoted_by_its_first_line_only() {
    assert_eq!(first_line(""), "");
    assert_eq!(
        first_line("\nError: Parse error on line 2\n    at Object.parse\n"),
        ": Error: Parse error on line 2"
    );
}

#[test]
fn blank_diagnostics_quote_nothing() {
    assert_eq!(first_line("  \n\t\r\n"), "");
    assert_eq!(first_line("  boom  \r\nmore"), ": boom");
}
