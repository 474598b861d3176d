use mirzam::cli::{edit_distance, handover_frontmatter, unknown_command, DeckArgs};

#[test]
fn suggests_the_nearest_command() {
    assert!(unknown_command("server").contains("did you mean `serve`?"));
    assert!(unknown_command("nwe").contains("did you mean `new`?"));
    assert!(unknown_command("buidl").contains("did you mean `build`?"));
    assert!(unknown_command("exprot").contains("did you mean `export`?"));
    assert!(unknown_command("chek").contains("did you mean `check`?"));
}

#[test]
fn does_not_guess_when_nothing_is_close() {
    let msg = unknown_command("render");
    assert!(msg.contains("unknown command `render`"));
    assert!(!msg.contains("did you mean"));
}

#[test]
fn edit_distance_handles_non_ascii() {
    assert_eq!(edit_distance("ビルド", "build"), 5);
    assert_eq!(edit_distance("serve", "serve"), 0);
}

#[test]
fn edit_distance_is_symmetric_and_counts_each_edit() {
    assert_eq!(edit_distance("kitten", "sitting"), 3);
    assert_eq!(edit_distance("sitting", "kitten"), 3);
    assert_eq!(edit_distance("", "abc"), 3);
    assert_eq!(edit_distance("abc", ""), 3);
}

#[test]
fn the_first_of_two_equally_near_commands_is_suggested() {
    // `seve` is one edit from `serve` only; `nex` is one from `new` only;
    // a tie goes to the earlier command in the list.
    assert_eq!(unknown_command("seve"), "unknown command `seve` - did you mean `serve`?");
    assert_eq!(unknown_command("bew"), "unknown command `bew` - did you mean `new`?");
    assert_eq!(unknown_command("xyzzy"), "unknown command `xyzzy`");
}

fn theme_path(p: &str) -> bool {
    p.ends_with(".css")
}

const THEMES: [&str; 3] = ["mirzam", "nord", "paper"];

#[test]
fn only_dot_md_is_a_valid_export_input() {
    assert!(mirzam::cli::is_markdown_path("deck.md"));
    assert!(mirzam::cli::is_markdown_path("deck.MD"));
    assert!(!mirzam::cli::is_markdown_path("out/index.html"));
    assert!(!mirzam::cli::is_markdown_path("deck"));
}

#[test]
fn parse_deck_flag_shares_split_theme_css_fit_mode() {
    let args: Vec<String> = [
        "--split", "h2", "--theme", "nord", "--css", "x.css", "--fit", "shrink", "--mode", "dark",
    ]
    .into_iter()
    .map(String::from)
    .collect();
    let mut opts = mirzam::cli::DeckArgs::default();
    let mut i = 0;
    while i < args.len() {
        assert!(matches!(
            mirzam::cli::parse_deck_flag(&args, &mut i, &mut opts, &THEMES, theme_path),
            Some(Ok(()))
        ));
        i += 1;
    }
    assert_eq!(opts.split, Some(2));
    assert_eq!(opts.theme, ["nord", "x.css"]);
    assert!(opts.css_alias);
    assert_eq!(opts.fit.as_deref(), Some("shrink"));
    assert_eq!(opts.mode.as_deref(), Some("dark"));
}

#[test]
fn parse_deck_flag_ignores_flags_it_does_not_own() {
    let args: Vec<String> = ["-o", "out"].into_iter().map(String::from).collect();
    let mut opts = mirzam::cli::DeckArgs::default();
    let mut i = 0;
    assert!(mirzam::cli::parse_deck_flag(&args, &mut i, &mut opts, &THEMES, theme_path).is_none());
}

#[test]
fn parse_deck_flag_reports_a_bad_value() {
    let args: Vec<String> = ["--split", "h9"].into_iter().map(String::from).collect();
    let mut opts = mirzam::cli::DeckArgs::default();
    let mut i = 0;
    let err = mirzam::cli::parse_deck_flag(&args, &mut i, &mut opts, &THEMES, theme_path);
    assert!(matches!(err, Some(Err(e)) if e.contains("--split takes")));
}

#[test]
fn an_unknown_theme_is_a_typo_to_report() {
    let args: Vec<String> = ["--theme", "nrod"].into_iter().map(String::from).collect();
    let mut opts = mirzam::cli::DeckArgs::default();
    let mut i = 0;
    let err = mirzam::cli::parse_deck_flag(&args, &mut i, &mut opts, &THEMES, theme_path);
    assert_eq!(
        err,
        Some(Err(
            "--theme takes a stylesheet path ending in .css, or one of: mirzam, nord, paper"
                .to_string()
        ))
    );
    assert!(opts.theme.is_empty());
    assert_eq!(i, 1);
    let args: Vec<String> = ["--css"].into_iter().map(String::from).collect();
    let mut i = 0;
    let err = mirzam::cli::parse_deck_flag(&args, &mut i, &mut opts, &THEMES, theme_path);
    assert_eq!(err, Some(Err("--css requires a stylesheet path".to_string())));
}

#[test]
fn a_handed_over_deck_says_what_it_was_built_in() {
    let fm = "title: T\ntheme:\n  - mirzam\n  - old.css\ncss: x.css\nmode: light\nauthor: A";
    // Nothing overridden: the file's own frontmatter, untouched.
    let plain = DeckArgs::default();
    assert_eq!(handover_frontmatter(Some(fm), &plain, &Vec::new(), None, None).as_deref(), Some(fm));
    assert_eq!(handover_frontmatter(None, &plain, &Vec::new(), None, None), None);

    let mut deck = DeckArgs::default();
    deck.theme = vec!["house.css".to_string()];
    deck.mode = Some("dark".to_string());
    deck.split = Some(2);
    let out = handover_frontmatter(
        Some(fm),
        &deck,
        &vec!["house.css".to_string()],
        Some("dark"),
        Some("shrink"),
    );
    assert_eq!(
        out.as_deref(),
        Some("title: T\nauthor: A\ntheme: [\"house.css\"]\nmode: dark\nsplit: h2")
    );

    // A deck with no frontmatter of its own still carries what it was built in.
    let mut split_only = DeckArgs::default();
    split_only.split = Some(1);
    assert_eq!(
        handover_frontmatter(None, &split_only, &Vec::new(), None, None).as_deref(),
        Some("split: h1")
    );
}
