use vector_benchmark_support::selector::{
    FIRST_DAY, LAST_DAY, Selection, TestMode, has_tests, parse_checkpoint_component,
    parse_command, parse_day_component, parse_legacy_day, parse_selection, plan_tests,
    skipped_days, usage,
};

fn arguments(words: &[&str]) -> Vec<String> {
    words.iter().map(|word| (*word).to_owned()).collect()
}

fn whole(day: u8) -> Selection {
    Selection {
        day,
        checkpoint: None,
    }
}

#[test]
fn parses_whole_day_and_test_bearing_checkpoint_selectors() {
    assert_eq!(
        parse_selection("day_02").unwrap(),
        Selection {
            day: 2,
            checkpoint: None,
        }
    );
    assert_eq!(
        parse_selection("day_02::checkpoint_1").unwrap(),
        Selection {
            day: 2,
            checkpoint: Some(1),
        }
    );
}

#[test]
fn rejects_invalid_or_empty_selectors() {
    for invalid in [
        "",
        "day_2",
        "day_00",
        "day_07",
        "day_02::checkpoint_0",
        "day_02::checkpoint_6",
        "day_01::checkpoint_2",
        "day_02::checkpoint_1::extra",
    ] {
        assert!(parse_selection(invalid).is_err(), "accepted {invalid}");
    }
}

#[test]
fn every_declared_checkpoint_has_a_namespace_filter() {
    for day in FIRST_DAY..=LAST_DAY {
        for checkpoint in 1..=6 {
            if has_tests(day, checkpoint) {
                let selection = Selection {
                    day,
                    checkpoint: Some(checkpoint),
                };
                assert_eq!(
                    selection.filter(),
                    format!("day_{day:02}::checkpoint_{checkpoint}::")
                );
            }
        }
    }
}

#[test]
fn cumulative_selection_skips_every_future_day() {
    let requested = 2;
    let skipped = skipped_days(TestMode::Through(requested))
        .into_iter()
        .map(|day| format!("day_{day:02}::"))
        .collect::<Vec<_>>();
    assert_eq!(skipped, ["day_03::", "day_04::", "day_05::", "day_06::"]);
}

#[test]
fn messages_name_what_is_wrong_with_a_selector() {
    let message = |selector: &str| parse_selection(selector).unwrap_err();
    assert_eq!(
        message("day_7::checkpoint_1"),
        "invalid day selector 'day_7'; expected day_01 through day_06"
    );
    assert_eq!(
        message(""),
        "invalid day selector ''; expected day_01 through day_06"
    );
    assert_eq!(
        message("day_01::checkpoint_2::more"),
        "checkpoint_2 has no supplied Rust tests on day_01"
    );
    assert_eq!(
        message("day_02::"),
        " has no supplied Rust tests on day_02"
    );
    assert_eq!(
        message("day_02:::checkpoint_1"),
        ":checkpoint_1 has no supplied Rust tests on day_02"
    );
    assert_eq!(
        message("day_02::checkpoint_1::extra"),
        "invalid test selector 'day_02::checkpoint_1::extra'"
    );
    assert_eq!(
        message("d\u{e4}y_02"),
        "invalid day selector 'd\u{e4}y_02'; expected day_01 through day_06"
    );
}

#[test]
fn components_read_numbers_as_the_standard_parser_does() {
    assert_eq!(parse_day_component("day_06"), Ok(6));
    assert_eq!(parse_day_component("day_+3"), Ok(3));
    assert!(parse_day_component("day_-3").is_err());
    assert!(parse_day_component("day_003").is_err());
    assert!(parse_day_component("day_\u{e4}").is_err());
    assert_eq!(parse_checkpoint_component(2, "checkpoint_5"), Ok(5));
    assert_eq!(parse_checkpoint_component(2, "checkpoint_005"), Ok(5));
    assert!(parse_checkpoint_component(2, "checkpoint_").is_err());
    assert!(parse_checkpoint_component(2, "checkpoint_+").is_err());
    assert!(parse_checkpoint_component(2, "checkpoint_261").is_err());
    assert!(parse_checkpoint_component(7, "checkpoint_1").is_err());
    assert_eq!(parse_legacy_day("4"), Ok(4));
    assert_eq!(parse_legacy_day("+4"), Ok(4));
    for wrong in ["0", "7", "256", "1000000000000", "", "four", "day_04"] {
        assert_eq!(
            parse_legacy_day(wrong),
            Err("day must be an integer from 1 through 6".to_owned())
        );
    }
}

#[test]
fn every_existing_selection_reads_back_from_its_selector() {
    for day in FIRST_DAY..=LAST_DAY {
        assert_eq!(parse_selection(&format!("day_{day:02}")), Ok(whole(day)));
        assert_eq!(whole(day).filter(), format!("day_{day:02}::"));
        for checkpoint in 0..=255 {
            let parsed = parse_selection(&format!("day_{day:02}::checkpoint_{checkpoint}"));
            if has_tests(day, checkpoint) {
                let selection = Selection {
                    day,
                    checkpoint: Some(checkpoint),
                };
                assert_eq!(parsed, Ok(selection));
            } else {
                assert!(parsed.is_err());
            }
        }
    }
}

#[test]
fn no_filter_starts_the_filter_of_another_checkpoint() {
    let mut selections = Vec::new();
    for day in FIRST_DAY..=LAST_DAY {
        for checkpoint in 1..=6 {
            if has_tests(day, checkpoint) {
                selections.push(Selection {
                    day,
                    checkpoint: Some(checkpoint),
                });
            }
        }
    }
    for one in &selections {
        for other in &selections {
            assert_eq!(other.filter().starts_with(&one.filter()), one == other);
        }
    }
}

#[test]
fn commands_decide_between_focused_and_cumulative_runs() {
    assert_eq!(
        parse_command(&arguments(&["test", "day_03::checkpoint_4"])),
        Ok(TestMode::Focused(Selection {
            day: 3,
            checkpoint: Some(4),
        }))
    );
    assert_eq!(
        parse_command(&arguments(&["test-through", "day_03"])),
        Ok(TestMode::Through(3))
    );
    assert_eq!(
        parse_command(&arguments(&["test-through", "3"])),
        Ok(TestMode::Through(3))
    );
    assert_eq!(
        parse_command(&arguments(&["test-day", "3"])),
        Ok(TestMode::Focused(whole(3)))
    );
    assert_eq!(
        parse_command(&arguments(&["test-through", "day_03::checkpoint_1"])),
        Err("test-through accepts a whole day, not a checkpoint".to_owned())
    );
    assert_eq!(
        parse_command(&arguments(&["test-through", "day_9"])),
        Err("invalid day selector 'day_9'; expected day_01 through day_06".to_owned())
    );
    assert_eq!(
        parse_command(&arguments(&["test-through", "9"])),
        Err("day must be an integer from 1 through 6".to_owned())
    );
    assert_eq!(
        parse_command(&arguments(&["test-day", "day_03"])),
        Err("day must be an integer from 1 through 6".to_owned())
    );
    for wrong in [
        vec![],
        vec!["test"],
        vec!["test", "day_01", "more"],
        vec!["tests", "day_01"],
    ] {
        assert_eq!(parse_command(&arguments(&wrong)), Err(usage()));
    }
    assert_eq!(
        usage(),
        "usage: cargo xtask test day_NN[::checkpoint_N] | cargo xtask test-through day_NN"
    );
}

#[test]
fn focused_plan_passes_the_filter_and_skips_nothing() {
    let selection = Selection {
        day: 6,
        checkpoint: Some(2),
    };
    let plan = plan_tests(TestMode::Focused(selection), false);
    assert_eq!(plan.label, "day_06::checkpoint_2::");
    assert_eq!(
        plan.arguments,
        [
            "test",
            "--locked",
            "-p",
            "vector-db-from-scratch-benchmark-support",
            "-p",
            "vector-db-from-scratch-core-starter",
            "-p",
            "vector-db-from-scratch-datafusion-starter",
            "--all-targets",
            "day_06::checkpoint_2::",
        ]
    );
    let listed = plan_tests(TestMode::Focused(selection), true);
    assert_eq!(listed.arguments[10..], ["--", "--list"]);
    assert!(skipped_days(TestMode::Focused(selection)).is_empty());
}

#[test]
fn cumulative_plan_skips_the_later_days_in_order() {
    let plan = plan_tests(TestMode::Through(4), false);
    assert_eq!(plan.label, "day_01 through day_04");
    assert_eq!(
        plan.arguments[9..],
        ["day_", "--", "--skip", "day_05::", "--skip", "day_06::"]
    );
    let listed = plan_tests(TestMode::Through(4), true);
    assert_eq!(
        listed.arguments[9..],
        [
            "day_", "--", "--list", "--skip", "day_05::", "--skip", "day_06::"
        ]
    );
    let last = plan_tests(TestMode::Through(LAST_DAY), false);
    assert_eq!(last.arguments[9..], ["day_"]);
}

#[test]
fn plans_announce_themselves_and_report_how_they_ended() {
    let plan = plan_tests(TestMode::Focused(whole(2)), false);
    assert_eq!(plan.heading(), "== Rust learner tests: day_02:: ==");
    assert_eq!(plan.conclude(Ok(true)), Ok(()));
    assert_eq!(
        plan.conclude(Ok(false)),
        Err("Rust learner tests failed: day_02::".to_owned())
    );
    assert_eq!(
        plan.conclude(Err("no such file".to_owned())),
        Err("failed to start Cargo for day_02::: no such file".to_owned())
    );
}
