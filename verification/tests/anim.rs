use mirzam::anim::{
    css_ease, parse, parse_autoplay, parse_dir, parse_effect_in, parse_ease, parse_ms, parse_split,
    parse_target, parse_transition, split_line, steps, Dialect, Direction, Ease, Split, Trigger,
    NAMED_EASES,
};

#[test]
fn line_without_a_trigger_bracket_errors() {
    let doc = parse(".title : chars fade-in 400ms stagger=30ms ease=out-cubic\n");
    assert_eq!(doc.errors.len(), 1);
    assert!(doc.errors[0].contains("[trigger]"));
}

#[test]
fn parses_the_docs_example() {
    let src = "\
[enter]   .title       : chars fade-in 400ms stagger=30ms ease=out-cubic
[click 1] #latency-0-2 : grow-y 500ms
[after #latency-0-2 +200ms] .caption : fade-in 300ms
[exit]    slide        : iris-out 500ms
";
    let doc = parse(src);
    assert!(doc.errors.is_empty(), "{:?}", doc.errors);
    assert_eq!(doc.tracks.len(), 4);

    let t0 = &doc.tracks[0];
    assert_eq!(t0.trigger, Trigger::Enter);
    assert_eq!(t0.target.sel, ".title");
    assert_eq!(t0.target.split, Some(Split::Chars));
    assert_eq!(t0.effect, "fade-in");
    assert_eq!(t0.dur_ms, 400);
    assert_eq!(t0.stagger_ms, 30);
    assert_eq!(t0.ease, Ease::Named("out-cubic".into()));

    let t1 = &doc.tracks[1];
    assert_eq!(t1.trigger, Trigger::Click(1));
    assert_eq!(t1.target.sel, "#latency-0-2");
    assert_eq!(t1.effect, "grow-y");
    assert_eq!(t1.dur_ms, 500);
    assert_eq!(t1.delay_ms, 0);

    let t2 = &doc.tracks[2];
    assert_eq!(
        t2.trigger,
        Trigger::After {
            id: "latency-0-2".into(),
            offset_ms: 200,
        }
    );
    assert_eq!(t2.target.sel, ".caption");

    let t3 = &doc.tracks[3];
    assert_eq!(t3.trigger, Trigger::Exit);
    assert_eq!(t3.target.sel, ":scope");
    assert_eq!(t3.effect, "iris-out");

    assert_eq!(steps(&doc), 1);
}

#[test]
fn negative_after_offset() {
    let doc = parse("[after #a -50ms] .b : fade-in 100ms\n");
    assert!(doc.errors.is_empty(), "{:?}", doc.errors);
    assert_eq!(
        doc.tracks[0].trigger,
        Trigger::After {
            id: "a".into(),
            offset_ms: -50,
        }
    );
}

#[test]
fn after_without_offset_defaults_to_zero() {
    let doc = parse("[after #a] .b : fade-in 100ms\n");
    assert!(doc.errors.is_empty(), "{:?}", doc.errors);
    assert_eq!(
        doc.tracks[0].trigger,
        Trigger::After {
            id: "a".into(),
            offset_ms: 0,
        }
    );
}

#[test]
fn steps_is_the_highest_click_number_not_the_track_count() {
    let doc = parse(
        "[click 2] .a : fade-in 100ms\n[click 2] .b : fade-in 100ms\n[click 1] .c : fade-in 100ms\n",
    );
    assert!(doc.errors.is_empty(), "{:?}", doc.errors);
    assert_eq!(steps(&doc), 2);
}

#[test]
fn steps_is_zero_without_click_triggers() {
    let doc = parse("[enter] .a : fade-in 100ms\n");
    assert_eq!(steps(&doc), 0);
}

#[test]
fn unknown_effect_is_reported_as_a_warning_line() {
    let doc = parse("[enter] .a : nonexistent 100ms\n");
    assert!(doc.tracks.is_empty());
    assert_eq!(doc.errors.len(), 1);
    assert!(doc.errors[0].contains("anim line 1"));
    assert!(doc.errors[0].contains("unknown effect"));
}

#[test]
fn missing_duration_errors() {
    let doc = parse("[enter] .a : fade-in\n");
    assert_eq!(doc.errors.len(), 1);
    assert!(doc.errors[0].contains("missing duration"));
}

#[test]
fn slide_in_without_direction_errors() {
    let doc = parse("[enter] .a : slide-in 300ms\n");
    assert_eq!(doc.errors.len(), 1);
    assert!(doc.errors[0].contains("needs a direction"));
}

#[test]
fn slide_in_with_direction_succeeds() {
    let doc = parse("[enter] .a : slide-in 300ms dir=left\n");
    assert!(doc.errors.is_empty(), "{:?}", doc.errors);
    assert_eq!(doc.tracks[0].dir, Some(Direction::Left));
}

#[test]
fn direction_on_non_slide_effect_errors() {
    let doc = parse("[enter] .a : fade-in 300ms dir=left\n");
    assert_eq!(doc.errors.len(), 1);
    assert!(doc.errors[0].contains("only applies to slide-in"));
}

#[test]
fn unknown_trigger_errors() {
    let doc = parse("[hover] .a : fade-in 100ms\n");
    assert_eq!(doc.errors.len(), 1);
    assert!(doc.errors[0].contains("unknown trigger"));
}

#[test]
fn click_zero_errors() {
    let doc = parse("[click 0] .a : fade-in 100ms\n");
    assert_eq!(doc.errors.len(), 1);
    assert!(doc.errors[0].contains("start at 1"));
}

#[test]
fn missing_colon_errors() {
    let doc = parse("[enter] .a fade-in 100ms\n");
    assert_eq!(doc.errors.len(), 1);
    assert!(doc.errors[0].contains("target : effect"));
}

#[test]
fn one_bad_line_does_not_hide_the_rest() {
    let doc = parse("[nope] .a : fade-in 100ms\n[enter] .b : fade-in 100ms\n");
    assert_eq!(doc.tracks.len(), 1);
    assert_eq!(doc.errors.len(), 1);
}

#[test]
fn blank_lines_are_skipped() {
    let doc = parse("\n[enter] .a : fade-in 100ms\n\n\n");
    assert_eq!(doc.tracks.len(), 1);
    assert!(doc.errors.is_empty());
}

#[test]
fn unknown_ease_errors() {
    let doc = parse("[enter] .a : fade-in 100ms ease=bounce\n");
    assert_eq!(doc.errors.len(), 1);
    assert!(doc.errors[0].contains("unknown ease"));
}

#[test]
fn malformed_spring_errors() {
    let doc = parse("[enter] .a : fade-in 100ms ease=spring(1,2)\n");
    assert_eq!(doc.errors.len(), 1);
    assert!(doc.errors[0].contains("3 arguments"));
}

#[test]
fn whole_slide_target_keyword() {
    let doc = parse("[exit] slide : iris-out 500ms\n");
    assert!(doc.errors.is_empty(), "{:?}", doc.errors);
    assert_eq!(doc.tracks[0].target.sel, ":scope");
}

#[test]
fn target_with_a_space_errors() {
    let doc = parse("[enter] .a .b : fade-in 100ms\n");
    assert_eq!(doc.errors.len(), 1);
}

/// The default dialect is exactly the slide grammar: `ms` only.
#[test]
fn the_default_dialect_rejects_beat_durations() {
    let e = parse_effect_in(&Dialect::default(), "fade-in 1b").unwrap_err();
    assert!(e.contains("unexpected token `1b`"), "{e}");
    let eff = parse_effect_in(&Dialect::default(), "fade-in 400ms").unwrap();
    assert_eq!(eff.dur_ms, 400);
}

/// `split_line` hands the trigger back verbatim for the caller to parse.
#[test]
fn split_line_does_not_interpret_the_trigger() {
    let (trig, target, effect) = split_line("[beat 3] #x : pop 1b").unwrap();
    assert_eq!(trig, "beat 3");
    assert_eq!(target, "#x");
    assert_eq!(effect, "pop 1b");
    assert!(split_line("no brackets").is_err());
    assert!(split_line("[enter] no colon").is_err());
}

#[test]
fn transition_name_alone_is_enough() {
    let t = parse_transition("fade").unwrap();
    assert_eq!(t.in_effect, "fade-in");
    assert_eq!(t.out_effect, "fade-out");
    assert_eq!(t.dur_ms, 300);
    assert_eq!(t.dir, None);
}

#[test]
fn sliding_transitions_carry_a_direction() {
    let t = parse_transition("slide-left 400ms").unwrap();
    assert_eq!(t.in_effect, "slide-in");
    assert_eq!(t.out_effect, "slide-out");
    assert_eq!(t.dir, Some(Direction::Left));
    assert_eq!(t.dur_ms, 400);
}

#[test]
fn every_named_ease_lowers_to_a_css_easing_function() {
    for (name, css) in NAMED_EASES {
        assert_eq!(css_ease(name), Some(css));
        assert!(
            css == "linear" || css.starts_with("ease") || css.starts_with("cubic-bezier("),
            "`{name}` lowers to `{css}`, which the Web Animations API will reject"
        );
    }
}

#[test]
fn transition_takes_an_ease_and_rejects_junk() {
    let t = parse_transition("iris 500ms ease=out-back").unwrap();
    assert_eq!(t.ease, Ease::Named("out-back".into()));
    assert!(parse_transition("swipe-left").is_err());
    assert!(parse_transition("fade sideways").is_err());
    assert!(parse_transition("fade stagger=10ms").is_err());
}

#[test]
fn a_spring_keeps_its_arguments_as_written() {
    assert_eq!(
        parse_ease("spring(1, 180 ,12)").unwrap(),
        Ease::Spring {
            mass: "1".into(),
            stiffness: "180".into(),
            damping: "12".into()
        }
    );
    assert!(parse_ease("spring(1,2,0)").is_ok());
}

#[test]
fn a_spring_refuses_what_is_not_a_number_or_out_of_range() {
    assert_eq!(parse_ease("spring(x,2,3)").unwrap_err(), "bad spring mass: `x`");
    assert_eq!(parse_ease("spring(1,1e,3)").unwrap_err(), "bad spring stiffness: `1e`");
    assert_eq!(parse_ease("spring(1,2,.)").unwrap_err(), "bad spring damping: `.`");
    assert!(parse_ease("spring(0,2,3)").unwrap_err().contains("must be positive"));
    assert!(parse_ease("spring(1,-2,3)").unwrap_err().contains("must be positive"));
    assert!(parse_ease("spring(1,2,-0.5)").unwrap_err().contains("must not be negative"));
    assert!(parse_ease("spring(1.5e2,INF,-0)").is_ok());
    assert!(parse_ease("spring(nan,2,3)").is_ok());
}

#[test]
fn small_parsers_say_what_they_expected() {
    assert_eq!(parse_ms("400ms"), Ok(400));
    assert_eq!(
        parse_ms("400").unwrap_err(),
        "expected a duration in ms, e.g. `400ms`, got `400`"
    );
    assert_eq!(parse_dir("up"), Ok(Direction::Up));
    assert_eq!(
        parse_dir("north").unwrap_err(),
        "unknown direction `north`; expected left, right, up or down"
    );
    assert_eq!(parse_split("words"), Some(Split::Words));
    assert_eq!(parse_split("word"), None);
    assert_eq!(Split::Lines.as_str(), "lines");
    assert_eq!(Direction::Down.as_str(), "down");
    assert_eq!(parse_target("slide").unwrap().sel, ":scope");
    assert!(parse_target("a\tb").is_err());
}

#[test]
fn errors_name_their_line_and_the_effects_there_are() {
    let doc = parse("\n\n[enter] .a : wobble 100ms\n");
    assert_eq!(
        doc.errors,
        vec!["anim line 3: unknown effect `wobble`; expected one of fade-in, fade-out, slide-in, \
              slide-out, wipe-in, wipe-out, zoom-in, zoom-out, blur-in, grow-x, grow-y, pop, \
              draw, iris-out"
            .to_string()]
    );
    let doc = parse("[enter] .a : fade-in 100ms dir=up\n");
    assert_eq!(
        doc.errors,
        vec!["anim line 1: `dir=` only applies to slide-in/slide-out/wipe-in/wipe-out, not `fade-in`"
            .to_string()]
    );
}

#[test]
fn an_after_trigger_is_checked_word_by_word() {
    assert!(parse("[after] .a : pop 1ms").errors[0].contains("needs a target"));
    assert!(parse("[after a] .a : pop 1ms").errors[0].contains("must be `#id`"));
    assert!(parse("[after #] .a : pop 1ms").errors[0].contains("empty `#id`"));
    assert!(parse("[after #a 5ms] .a : pop 1ms").errors[0].contains("signed offset"));
    assert!(parse("[after #a +5] .a : pop 1ms").errors[0].contains("offset in ms"));
    assert!(parse("[after #a +xms] .a : pop 1ms").errors[0].contains("not a number"));
    assert!(parse("[after #a +5ms x] .a : pop 1ms").errors[0].contains("extra text"));
}

#[test]
fn autoplay_refuses_nonsense() {
    // `loop` alone has no pace to play at.
    assert!(parse_autoplay("loop").is_err());
    assert!(parse_autoplay("").is_err());
    assert!(parse_autoplay("fast").is_err());
    // Zero, negative and sub-100ms intervals would spin the deck.
    assert!(parse_autoplay("0s").is_err());
    assert!(parse_autoplay("-5s").is_err());
    assert!(parse_autoplay("50ms").is_err());
}

#[test]
fn autoplay_reads_seconds_and_milliseconds() {
    let a = parse_autoplay("8s").unwrap();
    assert_eq!(a.interval_ms, 8000);
    assert!(!a.looped);

    let a = parse_autoplay("1.5s loop").unwrap();
    assert_eq!(a.interval_ms, 1500);
    assert!(a.looped);

    assert_eq!(parse_autoplay("loop 4").unwrap().interval_ms, 4000);
    assert_eq!(parse_autoplay("750ms").unwrap().interval_ms, 750);
    assert_eq!(parse_autoplay("1e1s").unwrap().interval_ms, 10000);
    assert_eq!(parse_autoplay("0.1006").unwrap().interval_ms, 101);
    assert_eq!(parse_autoplay("2s 3s").unwrap().interval_ms, 3000);
    assert_eq!(parse_autoplay("inf").unwrap().interval_ms, u32::MAX);
    assert_eq!(parse_autoplay("1e999999999999999999999999999999999").unwrap().interval_ms, u32::MAX);
    assert_eq!(
        parse_autoplay("fast").unwrap_err(),
        "unexpected token `fast`; write `autoplay: 8s` or `autoplay: 8s loop`"
    );
    assert_eq!(
        parse_autoplay(" 50ms ").unwrap_err(),
        "` 50ms ` is shorter than any page turn; 100ms is the floor"
    );
}

#[test]
fn a_duration_reads_back_and_needs_its_unit() {
    for n in [0u32, 7, 400, u32::MAX] {
        assert_eq!(parse_ms(&format!("{n}ms")), Ok(n));
    }
    for bad in ["400", "1b", "-5ms", "ms"] {
        assert!(parse_ms(bad).is_err(), "{bad}");
    }
}

#[test]
fn autoplay_loops_exactly_when_asked_and_never_too_fast() {
    let a = parse_autoplay("loop 8s").unwrap();
    assert!(a.looped && a.interval_ms == 8000);
    assert!(!parse_autoplay("8s").unwrap().looped);
    assert!(parse_autoplay("loop loop").is_err());
    assert!(parse_autoplay("").is_err());
    assert!(parse_autoplay("50ms").is_err());
}

#[test]
fn where_loop_stands_in_autoplay_changes_nothing() {
    let a = parse_autoplay("8s loop").unwrap();
    assert_eq!(parse_autoplay("loop 8s").unwrap(), a);
    assert_eq!(parse_autoplay("loop 8s loop").unwrap(), a);
    assert!(a.looped);
    assert_eq!(a.interval_ms, 8000);
    assert_eq!(parse_autoplay("loop 50ms").is_err(), parse_autoplay("50ms loop").is_err());
    assert!(parse_autoplay("loop fast").is_err());
}

#[test]
fn each_error_names_its_line_in_order() {
    let d = parse("[nope] .a : fade-in 100ms\n\n[enter] .b : fade-in 100ms\n[bad\n");
    assert_eq!(d.tracks.len(), 1);
    assert_eq!(d.errors.len(), 2);
    assert!(d.errors[0].starts_with("anim line 1: "), "{}", d.errors[0]);
    assert_eq!(d.errors[1], "anim line 4: unterminated `[trigger]`");
}

#[test]
fn a_line_splits_at_its_first_bracket_and_first_colon() {
    assert_eq!(
        split_line("[ click 2 ]  .a : fade-in 1s").unwrap(),
        ("click 2".to_string(), ".a".to_string(), "fade-in 1s".to_string())
    );
    assert_eq!(
        split_line("[x] a:b:c").unwrap(),
        ("x".to_string(), "a".to_string(), "b:c".to_string())
    );
    assert_eq!(
        split_line("[a]b] t : e").unwrap(),
        ("a".to_string(), "b] t".to_string(), "e".to_string())
    );
    assert_eq!(split_line("[x]  : e").unwrap_err(), "missing target before `:`");
    assert_eq!(split_line("[x] t :  ").unwrap_err(), "missing effect after `:`");
    assert!(split_line("x] t : e").is_err());
    assert!(split_line("[x t : e").is_err());
}

#[test]
fn an_effect_is_the_dialects_and_travels_with_a_direction_only() {
    let d = Dialect::default();
    let e = parse_effect_in(&d, "slide-in 300ms dir=left").unwrap();
    assert_eq!(e.effect, "slide-in");
    assert!(e.dir.is_some());
    assert!(parse_effect_in(&d, "fade-in 300ms").unwrap().dir.is_none());
    assert!(parse_effect_in(&d, "slide-in 300ms").unwrap_err().contains("needs a direction"));
    assert!(parse_effect_in(&d, "fade-in 300ms dir=up").unwrap_err().contains("only applies to"));
    assert!(parse_effect_in(&d, "fade-in delay=100ms").unwrap_err().contains("missing duration"));
    assert!(parse_effect_in(&d, "wobble 300ms").unwrap_err().contains("unknown effect"));
}
