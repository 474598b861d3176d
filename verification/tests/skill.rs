use mirzam::skill::{
    attr, drift_warning, edited_file, fnv1a, hex, install, join_path, parse_stamp, semver,
    stamp_line, stamped_by, writing_skill_files, Destination, Edited,
};

/// The point of hashing with the hash blanked: a card written by a version
/// whose template and card this binary has never seen still verifies as
/// pristine, so an unmodified older install is overwritten in silence
/// while an edited one is not.
#[test]
fn a_pristine_card_from_another_version_still_verifies() {
    let older = stamped_by(
        "0.1.0",
        "# An older template\n\nOther words.",
        "an older card",
    );
    let stamp = parse_stamp(&older).expect("a stamp");
    assert_eq!(stamp.version, "0.1.0");
    assert!(stamp.matches(&older), "pristine, by a binary long gone");
    assert!(
        !stamp.matches(&older.replace("Other words", "My words")),
        "and an edit to it is still an edit"
    );
}

#[test]
fn a_file_with_no_stamp_is_not_ours() {
    assert!(parse_stamp("# Somebody's own skill\n").is_none());
}

#[test]
fn versions_compare_by_number_not_by_text() {
    assert_eq!(semver("0.5.0"), Some((0, 5, 0)));
    assert!(semver("0.10.0") > semver("0.9.9"));
    assert_eq!(semver("0.5"), None);
    assert_eq!(semver("0.5.0-rc1"), None);
}

#[test]
fn the_hash_is_stable_across_builds() {
    // A literal, not a recomputation: if this number ever changes, every
    // installed card in the world stops verifying.
    assert_eq!(hex(fnv1a("mirzam")), "7b215ce1595c6939");
}

#[test]
fn the_stamp_names_its_version_and_the_card_it_came_with() {
    let text = stamped_by("1.2.3", "# Body\n\n\n", "card text");
    let stamp = parse_stamp(&text).expect("a stamp");
    assert_eq!(stamp.version, "1.2.3");
    assert_eq!(stamp.card, hex(fnv1a("card text")));
    assert!(text.starts_with("# Body\n\n## This skill's version\n\nWritten by **mirzam 1.2.3**"));
    assert!(text.ends_with(" -->\n"));
    assert_eq!(stamp.line, text.lines().last().unwrap());
}

#[test]
fn the_stamp_line_has_a_fixed_shape() {
    assert_eq!(
        stamp_line("0.1.0", "ab", "cd"),
        r#"<!-- mirzam-skill version="0.1.0" hash="ab" card="cd" -->"#
    );
    assert_eq!(attr(r#"x version="7" y"#, "version"), Some("7".into()));
    assert_eq!(attr(r#"x version="7"#, "version"), None);
    assert_eq!(attr("nothing", "version"), None);
}

#[test]
fn an_empty_input_hashes_to_the_offset_basis() {
    assert_eq!(fnv1a(""), 0xcbf2_9ce4_8422_2325);
    assert_eq!(hex(0), "0000000000000000");
    assert_eq!(hex(0xff), "00000000000000ff");
}

#[test]
fn drift_says_which_side_to_repair() {
    assert_eq!(drift_warning("a/SKILL.md", "0.5.0", "0.5.0"), None);
    assert_eq!(
        drift_warning("a/SKILL.md", "0.4.0", "0.5.0").unwrap(),
        "skill card a/SKILL.md was written by mirzam 0.4.0, but this binary is 0.5.0 - \
         run `mirzam skill install` to update it"
    );
    assert_eq!(
        drift_warning("a/SKILL.md", "0.10.0", "0.9.0").unwrap(),
        "skill card a/SKILL.md was written by mirzam 0.10.0, and this binary is only 0.9.0 - \
         this binary is older than the skill card; upgrade the binary"
    );
    assert!(drift_warning("a", "weird", "0.5.0")
        .unwrap()
        .contains("run `mirzam skill install`"));
}

#[test]
fn an_edit_is_found_in_whichever_file_has_it() {
    let card = "the card";
    let skill = stamped_by("0.3.0", "# Skill", card);
    assert_eq!(edited_file(None, Some(card)), None);
    assert_eq!(edited_file(Some(&skill), Some(card)), None);
    assert_eq!(edited_file(Some(&skill), None), None);
    assert_eq!(edited_file(Some(&skill), Some("another card")), Some(Edited::Card));
    assert_eq!(edited_file(Some(&skill.replace("Skill", "Skil")), Some(card)), Some(Edited::Skill));
    assert_eq!(edited_file(Some("# hand-written"), Some(card)), Some(Edited::Skill));
}

#[test]
fn a_first_install_writes_both_files() {
    let (installed, contents) =
        install("/repo/skills/mirzam", false, None, None, "# Skill\n", "card", "1.2.3")
            .expect("nothing is in the way");
    assert_eq!(installed.skill, "/repo/skills/mirzam/SKILL.md");
    assert_eq!(installed.card, "/repo/skills/mirzam/references/llms.md");
    assert_eq!(contents, stamped_by("1.2.3", "# Skill\n", "card"));
    assert!(contents.contains("mirzam 1.2.3"));
}

#[test]
fn a_pristine_older_install_is_replaced_in_silence() {
    let older = stamped_by("0.1.0", "# Old\n\nwords", "old card");
    let done = install("/r", false, Some(&older), Some("old card"), "# New", "new card", "0.2.0");
    let (_, contents) = done.expect("an unedited skill is not somebody's work");
    assert_eq!(parse_stamp(&contents).unwrap().version, "0.2.0");
}

#[test]
fn an_edited_skill_is_refused_without_force() {
    let older = stamped_by("0.1.0", "# Old\n\nwords", "old card").replace("words", "mine");
    let err = install("/r", false, Some(&older), Some("old card"), "# New", "c", "0.2.0")
        .err()
        .expect("refused");
    assert_eq!(
        err,
        "/r/SKILL.md has been edited since it was installed.\n       \
         `mirzam skill install --force` overwrites it (your edits are lost); \
         deleting /r first does the same thing more visibly."
    );
    assert!(install("/r", true, Some(&older), Some("old card"), "# New", "c", "0.2.0").is_ok());
}

#[test]
fn an_edited_card_is_refused_and_named() {
    let older = stamped_by("0.1.0", "# Old", "old card");
    let err = install("/r/", false, Some(&older), Some("my card"), "# New", "c", "0.2.0")
        .err()
        .expect("refused");
    assert!(err.starts_with("/r/references/llms.md has been edited"));
}

#[test]
fn a_path_joins_with_one_slash() {
    assert_eq!(join_path("a/b", "c.md"), "a/b/c.md");
    assert_eq!(join_path("a/b/", "c.md"), "a/b/c.md");
    assert_eq!(join_path("", "c.md"), "c.md");
    assert!(Destination::Project != Destination::User);
}

#[test]
fn the_writing_skill_is_one_folder_with_its_card() {
    let files = writing_skill_files("# Writing", "the card", "3.0.0");
    assert_eq!(files.len(), 2);
    assert_eq!(files[0].0, "mirzam-writing/SKILL.md");
    assert_eq!(files[0].1, stamped_by("3.0.0", "# Writing", "the card"));
    assert_eq!(files[1].0, "mirzam-writing/references/llms.md");
    assert_eq!(files[1].1, "the card");
}

#[test]
fn any_pristine_install_is_no_edit() {
    for (v, body) in [("0.1.0", "a"), ("10.20.30-rc1", "# T\n\n<b>x</b>\n"), ("", "")] {
        let text = stamped_by(v, body, "card text");
        assert_eq!(edited_file(Some(&text), Some("card text")), None);
        assert_eq!(parse_stamp(&text).unwrap().version, v);
    }
}

/// The project skill's opening, as a template reads before it is stamped.
const PROJECT_TEMPLATE: &str = "---\nname: mirzam\ndescription: Write Mirzam decks.\n---\n\n# Mirzam\n\nMirzam renders Markdown into slides. Run `mirzam check --format json` after every edit.\n";
/// The writing skill's opening, for surfaces with no binary.
const WRITING_TEMPLATE: &str = "---\nname: mirzam-writing\ndescription: Write Mirzam markdown.\n---\n\n# Mirzam writing\n\nYou cannot run the `mirzam` CLI here. Hand the `.md` back; the reader renders it at https://ayatough.github.io/Mirzam/try/.\n";
const CARD: &str = "# Mirzam syntax card\n\n`---` starts a slide.\n";
const VERSION: &str = "0.1.0";

#[test]
fn a_fresh_skill_carries_a_stamp_naming_this_binary() {
    let text = stamped_by(VERSION, PROJECT_TEMPLATE, CARD);
    let stamp = parse_stamp(&text).expect("a stamp");
    assert_eq!(stamp.version, VERSION);
    assert_eq!(stamp.card, hex(fnv1a(CARD)));
    assert!(
        text.contains(&format!("mirzam {VERSION}")),
        "a person reads the version too, not only the comment"
    );
    assert!(stamp.matches(&text), "it hashes to what it says it does");
}

#[test]
fn one_edited_character_stops_matching() {
    let text = stamped_by(VERSION, PROJECT_TEMPLATE, CARD).replace("Mirzam renders", "Mirzam renderz");
    let stamp = parse_stamp(&text).expect("a stamp");
    assert!(!stamp.matches(&text));
}

#[test]
fn the_writing_skill_names_the_browser_editor_and_refuses_the_cli() {
    let text = stamped_by(VERSION, WRITING_TEMPLATE, CARD);
    assert!(text.contains("ayatough.github.io/Mirzam/try/"));
    assert!(text.contains("cannot run the `mirzam` CLI"));
    assert!(text.contains("name: mirzam-writing"));
}
