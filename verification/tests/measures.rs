use std::cell::RefCell;
use std::time::{Duration, Instant};

use vector_benchmark_support::clock::{Stopwatch, SystemClock};
use vector_benchmark_support::io::{Sending, Sink, Write};
use vector_benchmark_support::runner::{record, run_sampled};
use vector_benchmark_support::text::{
    characters, parse_small, push_count, push_decimal, push_signed, push_two_digits, starts_with,
};
use vector_benchmark_support::{
    Cli, Mode, Progress, Search, Searching, SiftError, TimedRun, Truth, first_hit,
    overlap_at_100, parse_cli, percentile, run_balanced, run_balanced_with_progress,
};

fn written(progress: Progress<Vec<u8>>) -> String {
    String::from_utf8(progress.into_inner()).unwrap()
}

#[test]
fn numerals_match_the_standard_formatter() {
    for n in [0, 9, 10, 99, 100, 1_000_000, u64::MAX] {
        let mut text = "n".to_owned();
        push_decimal(&mut text, n);
        assert_eq!(text, format!("n{n}"));
    }
    for n in [0, 10, usize::MAX] {
        let mut text = String::new();
        push_count(&mut text, n);
        assert_eq!(text, n.to_string());
    }
    for n in [0, -1, 42, i32::MAX, i32::MIN] {
        let mut text = String::new();
        push_signed(&mut text, n);
        assert_eq!(text, n.to_string());
    }
    for n in 0..=255 {
        let mut text = String::new();
        push_two_digits(&mut text, n);
        assert_eq!(text, format!("{n:02}"));
        assert_eq!(parse_small(&text), Some(n));
        assert_eq!(parse_small(&n.to_string()), Some(n));
    }
    for text in ["", "+", "-1", "256", "1 ", " 1", "99999999999999999999", "++1", "1_0"] {
        assert_eq!(parse_small(text), text.parse::<u8>().ok());
    }
    assert!(starts_with("day_01", "day_"));
    assert!(starts_with("day_", ""));
    assert!(!starts_with("da", "day_"));
    assert!(!starts_with("dax_01", "day_"));
    assert_eq!(characters("a\u{e4}"), ['a', '\u{e4}']);
}

#[test]
fn labels_tell_modes_and_truths_apart() {
    assert_eq!(Mode::Full.mode_label(), "sift1m-full");
    assert_eq!(Mode::Smoke.mode_label(), "sift1m-smoke");
    assert_eq!(Truth::SuppliedSift1m.label(), "supplied-sift1m-top-100");
    assert_eq!(
        Truth::RecomputedFlatSelectedBase.label(),
        "recomputed-flat-selected-base-top-100"
    );
}

#[test]
fn the_directory_is_the_last_argument_and_never_an_option() {
    let parse = |words: &[&str]| {
        let args = words.iter().map(|word| (*word).to_owned()).collect::<Vec<_>>();
        parse_cli(&args)
    };
    assert_eq!(
        parse(&["--smoke", "data"]).unwrap(),
        Cli {
            mode: Mode::Smoke,
            data_dir: "data".to_owned(),
        }
    );
    assert_eq!(parse(&[""]).unwrap().data_dir, "");
    assert_eq!(parse(&["\u{2212}x"]).unwrap().mode, Mode::Full);
    for wrong in [
        &["--smoke"][..],
        &["-"],
        &["-x"],
        &["--smoke", "-x"],
        &["--smoke", "--smoke"],
        &["a", "b"],
        &["--smoke", "a", "b"],
    ] {
        let error = parse(wrong).unwrap_err();
        assert_eq!(error.message(), "usage: recall [--smoke] <sift1m-dir>");
        assert_eq!(error.exit_code(), 2);
    }
}

#[test]
fn messages_of_refused_files_name_them() {
    let io = SiftError::Io {
        file: "a".to_owned(),
        source: "b".to_owned(),
    };
    assert_eq!(io.message(), "sift1m: a: b");
    assert_eq!(io.exit_code(), 1);
    let size = SiftError::Size {
        file: "a".to_owned(),
        expected: 516_000_000,
        actual: u64::MAX,
    };
    assert_eq!(
        size.message(),
        "sift1m: a: expected 516000000 bytes, got 18446744073709551615"
    );
    assert_eq!(
        SiftError::Missing("/x/y".to_owned()).message(),
        "sift1m: missing /x/y"
    );
}

#[test]
fn steps_do_not_change_which_milestones_show() {
    let mut at_once = Progress::new(Vec::new(), false);
    at_once.begin("x", "rows", 7, None);
    at_once.advance(7);
    at_once.finish();
    let mut stepwise = Progress::new(Vec::new(), false);
    stepwise.begin("x", "rows", 7, None);
    for completed in [0, 1, 1, 2, 1, 3, 4, 0, 5, 6, 7, 7, 9] {
        stepwise.advance(completed);
    }
    stepwise.finish();
    let shown = written(stepwise);
    assert_eq!(shown, written(at_once));
    assert_eq!(
        shown,
        [
            "progress: x 0% (rows=0/7)\n",
            "progress: x 25% (rows=2/7)\n",
            "progress: x 50% (rows=4/7)\n",
            "progress: x 75% (rows=6/7)\n",
            "progress: x 100% (rows=7/7)\n",
        ]
        .concat()
    );
}

#[test]
fn without_a_stage_nothing_but_events_shows() {
    let mut progress = Progress::new(Vec::new(), true);
    progress.advance(3);
    progress.finish();
    progress.event("build flat", "start");
    progress.event("build flat", "done");
    progress.begin("a", "rows", 2, None);
    progress.begin("b", "rows", 1, None);
    progress.finish();
    progress.advance(1);
    progress.finish();
    assert!(!progress.failed());
    assert_eq!(
        written(progress),
        [
            "progress: build flat start\n",
            "progress: build flat done\n",
            "\rprogress: a 0% (rows=0/2)",
            "\rprogress: b 0% (rows=0/1)",
            "\rprogress: b 100% (rows=1/1)\n",
        ]
        .concat()
    );
}

#[test]
fn huge_counts_are_held_at_the_largest() {
    let most = usize::MAX;
    let mut progress = Progress::new(Vec::new(), false);
    progress.begin("x", "rounds", most, Some(2));
    progress.finish();
    let share = most / 100 + 1;
    assert_eq!(
        written(progress),
        format!(
            "progress: x 0% (rounds=0/{most}, searches=0/{most})\n\
             progress: x 100% (rounds={share}/{most}, searches={}/{most})\n",
            share * 2
        )
    );
}

#[test]
fn after_a_refusal_the_writer_is_left_alone() {
    let messages = RefCell::new(Vec::new());
    let flushes = RefCell::new(0);
    let write = |bytes: &[u8]| {
        messages.borrow_mut().push(String::from_utf8(bytes.to_vec()).unwrap());
        true
    };
    let flush = || {
        *flushes.borrow_mut() += 1;
        *flushes.borrow() < 2
    };
    let mut progress = Progress::new(Sending::new(write, flush), false);
    progress.event("a", "1");
    assert!(!progress.failed());
    progress.event("a", "2");
    assert!(progress.failed());
    progress.event("a", "3");
    progress.begin("x", "rows", 1, None);
    progress.finish();
    assert!(progress.failed());
    drop(progress);
    assert_eq!(
        messages.into_inner(),
        ["progress: a 1\n", "progress: a 2\n"]
    );
    assert_eq!(flushes.into_inner(), 2);
}

#[test]
fn writers_take_bytes_in_order() {
    let mut vector = vec![1];
    assert!(vector.write_all(&[2, 3]));
    assert!(vector.flush());
    assert_eq!(vector, [1, 2, 3]);
    let mut sink = Sink;
    assert!(sink.write_all(&[1, 2, 3]));
    assert!(sink.flush());
}

#[test]
fn a_run_with_few_queries_warms_up_no_more_than_there_are() {
    let queries = [10, 20];
    let trace = RefCell::new(Vec::new());
    let mut progress = Progress::new(Vec::new(), false);
    let runs = run_balanced_with_progress(
        &queries,
        3,
        5,
        &mut progress,
        &mut Searching::new(|index: usize, query: &i32| {
            trace.borrow_mut().push((index, *query));
            Ok::<_, ()>(index as i32 + query)
        }),
    )
    .unwrap();
    let round = [(0, 10), (1, 10), (2, 10), (1, 20), (2, 20), (0, 20)];
    assert_eq!(trace.into_inner(), [round, round].concat());
    let results = runs.iter().map(|run| run.results.clone()).collect::<Vec<_>>();
    assert_eq!(results, [vec![10, 20], vec![11, 21], vec![12, 22]]);
    assert_eq!(
        written(progress),
        [
            "progress: warm search 0% (rounds=0/5, searches=0/15)\n",
            "progress: warm search 25% (rounds=2/5, searches=6/15)\n",
            "progress: warm search 100% (rounds=5/5, searches=15/15)\n",
            "progress: timed search 0% (rounds=0/2, searches=0/6)\n",
            "progress: timed search 25% (rounds=1/2, searches=3/6)\n",
            "progress: timed search 50% (rounds=1/2, searches=3/6)\n",
            "progress: timed search 75% (rounds=2/2, searches=6/6)\n",
            "progress: timed search 100% (rounds=2/2, searches=6/6)\n",
        ]
        .concat()
    );
}

#[test]
fn a_run_without_queries_has_empty_runs() {
    let queries: [u8; 0] = [];
    let mut progress = Progress::new(Vec::new(), false);
    let runs = run_balanced_with_progress(
        &queries,
        2,
        0,
        &mut progress,
        &mut Searching::new(|_index: usize, _query: &u8| Err::<(), _>("never asked")),
    )
    .unwrap();
    assert_eq!(runs.len(), 2);
    assert!(runs.iter().all(|run| run.results.is_empty() && run.latencies.is_empty()));
    assert!(progress.into_inner().is_empty());
}

#[test]
fn an_error_ends_the_run_at_once_also_in_the_warm_up() {
    for (fatal, expected) in [(4, 5), (9, 10)] {
        let asked = RefCell::new(0);
        let mut progress = Progress::new(Vec::new(), false);
        let result = run_balanced_with_progress(
            &[1, 2, 3, 4],
            2,
            3,
            &mut progress,
            &mut Searching::new(|_index: usize, _query: &i32| {
                let number = *asked.borrow();
                *asked.borrow_mut() += 1;
                if number == fatal { Err(number) } else { Ok(()) }
            }),
        );
        assert_eq!(result.unwrap_err(), fatal);
        assert_eq!(asked.into_inner(), expected);
        let output = written(progress);
        assert_eq!(output.contains("timed search 25%"), fatal == 9);
        assert!(!output.contains("timed search 50%"));
    }
}

#[test]
fn latencies_cover_their_own_search_and_no_other() {
    let pause = Duration::from_millis(60);
    let slow = |index: usize, query: usize| (index + 2 * query) % 3 == 0;
    let runs = run_balanced(
        &[0, 1, 2, 3],
        2,
        4,
        &mut Searching::new(|index: usize, query: &usize| {
            let started = Instant::now();
            while slow(index, *query) && started.elapsed() < pause {}
            Ok::<_, ()>(slow(index, *query))
        }),
    )
    .unwrap();
    for (index, run) in runs.iter().enumerate() {
        assert_eq!(run.latencies.len(), 4);
        for query in 0..4 {
            assert_eq!(run.results[query], slow(index, query));
            assert_eq!(run.latencies[query] >= pause, slow(index, query));
        }
    }
}

#[test]
fn recording_stores_a_sample_with_its_index() {
    let empty = || TimedRun {
        latencies: Vec::new(),
        results: Vec::new(),
    };
    let mut runs = vec![empty(), empty()];
    record(&mut runs, 1, Duration::from_micros(7), "a");
    record(&mut runs, 1, Duration::from_micros(5), "b");
    record(&mut runs, 0, Duration::from_micros(9), "c");
    assert_eq!(runs[0].results, ["c"]);
    assert_eq!(runs[0].latencies, [Duration::from_micros(9)]);
    assert_eq!(runs[1].results, ["a", "b"]);
    assert_eq!(
        runs[1].latencies,
        [Duration::from_micros(7), Duration::from_micros(5)]
    );
}

#[test]
fn the_system_clock_measures_from_its_last_start() {
    let pause = Duration::from_millis(40);
    let wait = || {
        let started = Instant::now();
        while started.elapsed() < pause {}
    };
    let (subject, shown) = ((), ());
    let mut clock = SystemClock::new();
    wait();
    clock.start(&subject, &shown);
    let short = clock.stop(&subject, &shown);
    assert!(short < pause);
    clock.start(&subject, &shown);
    wait();
    let long = clock.stop(&subject, &shown);
    assert!(long >= pause);
    wait();
    clock.start(&subject, &shown);
    assert!(clock.stop(&subject, &shown) < pause);
}

#[test]
fn a_slow_progress_writer_is_in_no_sample() {
    let pause = Duration::from_millis(60);
    let lines = RefCell::new(0);
    let write = |_bytes: &[u8]| {
        let started = Instant::now();
        while started.elapsed() < pause {}
        *lines.borrow_mut() += 1;
        true
    };
    let mut progress = Progress::new(Sending::new(write, || true), false);
    let runs = run_balanced_with_progress(
        &[1, 2, 3, 4],
        2,
        1,
        &mut progress,
        &mut Searching::new(|index: usize, query: &usize| Ok::<usize, ()>(index + query)),
    )
    .unwrap();
    assert_eq!(*lines.borrow(), 10);
    for run in runs {
        assert_eq!(run.latencies.len(), 4);
        assert!(run.latencies.iter().all(|latency| *latency < pause));
    }
}

#[test]
fn a_failed_search_is_asked_once_and_ends_the_run() {
    let asked = RefCell::new(Vec::new());
    let mut searching = Searching::new(|index: usize, query: &u8| {
        asked.borrow_mut().push((index, *query));
        if *query == 9 { Err("nine") } else { Ok(*query) }
    });
    assert_eq!(searching.search(3, &4), Ok(4));
    let mut progress = Progress::silent();
    let mut clock = SystemClock::new();
    let result = run_sampled(&[5, 9, 6], 2, 0, &mut progress, &mut searching, &mut clock);
    assert_eq!(result.unwrap_err(), "nine");
    drop(searching);
    assert_eq!(asked.into_inner(), [(3, 4), (0, 5), (1, 5), (1, 9)]);
}

#[test]
fn messages_and_milestones_can_be_sent_on_their_own() {
    let mut progress = Progress::new(Vec::new(), false);
    progress.write_milestone(50);
    progress.write_message("note\n".to_owned());
    progress.begin("x", "rows", 3, None);
    progress.write_milestone(50);
    assert_eq!(
        written(progress),
        "note\nprogress: x 0% (rows=0/3)\nprogress: x 50% (rows=2/3)\n"
    );
}

#[test]
fn a_broken_progress_writer_changes_no_outcome() {
    for fatal in [usize::MAX, 0, 3, 7] {
        let run = |progress: &mut Progress<Sending<fn(&[u8]) -> bool, fn() -> bool>>| {
            let asked = RefCell::new(0);
            let result = run_balanced_with_progress(
                &[1, 2, 3],
                2,
                1,
                progress,
                &mut Searching::new(|index: usize, query: &usize| {
                    *asked.borrow_mut() += 1;
                    if *asked.borrow() - 1 == fatal {
                        Err(format!("{index}:{query}"))
                    } else {
                        Ok(index + query)
                    }
                }),
            );
            let outcome = match result {
                Ok(runs) => Ok(runs.into_iter().map(|run| run.results).collect::<Vec<_>>()),
                Err(error) => Err(error),
            };
            (outcome, asked.into_inner())
        };
        let takes: fn(&[u8]) -> bool = |_| true;
        let refuses: fn(&[u8]) -> bool = |_| false;
        let done: fn() -> bool = || true;
        let mut working = Progress::new(Sending::new(takes, done), false);
        let mut broken = Progress::new(Sending::new(refuses, done), true);
        let outcome = run(&mut working);
        assert_eq!(outcome, run(&mut broken));
        assert!(!working.failed());
        assert!(broken.failed());
        assert_eq!(outcome.0.is_ok(), fatal == usize::MAX);
        assert_eq!(outcome.1, if fatal == usize::MAX { 8 } else { fatal + 1 });
    }
}

#[test]
fn a_broken_writer_is_tried_once_and_never_flushed() {
    let writes = RefCell::new(0);
    let flushes = RefCell::new(0);
    let write = |_bytes: &[u8]| {
        *writes.borrow_mut() += 1;
        false
    };
    let flush = || {
        *flushes.borrow_mut() += 1;
        true
    };
    let mut progress = Progress::new(Sending::new(write, flush), false);
    progress.begin("load tiny", "rows", 4, None);
    progress.advance(4);
    progress.finish();
    progress.event("build flat", "start");
    assert!(progress.failed());
    drop(progress);
    assert_eq!((writes.into_inner(), flushes.into_inner()), (1, 0));
}

#[test]
fn hits_grow_with_the_rank() {
    let results = (0..150).collect::<Vec<_>>();
    for row in 0..160 {
        let hit = first_hit(&results, row);
        assert_eq!(hit.r1, row < 1);
        assert_eq!(hit.r10, row < 10);
        assert_eq!(hit.r100, row < 100);
    }
    assert!(!first_hit(&[], 0).r100);
}

#[test]
fn overlap_counts_exact_rows_and_ignores_order_and_repeats() {
    let exact = (0..100).collect::<Vec<_>>();
    assert_eq!(overlap_at_100(&exact, &exact), 100);
    assert_eq!(overlap_at_100(&[], &exact), 0);
    assert_eq!(overlap_at_100(&[7, 7, 7], &exact), 1);
    let mut reversed = exact.clone();
    reversed.reverse();
    assert_eq!(overlap_at_100(&reversed, &exact), 100);
    assert_eq!(overlap_at_100(&[150, 99, 3], &exact), 2);
    for count in 0..100 {
        let fewer = overlap_at_100(&reversed[..count], &exact);
        assert!(fewer <= overlap_at_100(&reversed[..count + 1], &exact));
    }
}

#[test]
fn percentiles_start_at_the_least_and_end_at_the_greatest() {
    let samples = (1..=7).map(Duration::from_micros).collect::<Vec<_>>();
    assert_eq!(percentile(&samples, 0), samples[0]);
    assert_eq!(percentile(&samples, 100), samples[6]);
    assert_eq!(percentile(&samples, 14), samples[0]);
    assert_eq!(percentile(&samples, 15), samples[1]);
    for percent in 0..100 {
        assert!(percentile(&samples, percent) <= percentile(&samples, percent + 1));
    }
}

#[test]
fn a_completed_run_shows_the_milestones_of_both_phases() {
    let mut progress = Progress::new(Vec::new(), false);
    run_balanced_with_progress(
        &[1, 2, 3, 4, 5],
        3,
        4,
        &mut progress,
        &mut Searching::new(|_index: usize, query: &i32| Ok::<_, ()>(*query)),
    )
    .unwrap();
    assert_eq!(
        written(progress),
        [
            "progress: warm search 0% (rounds=0/4, searches=0/12)\n",
            "progress: warm search 25% (rounds=1/4, searches=3/12)\n",
            "progress: warm search 50% (rounds=2/4, searches=6/12)\n",
            "progress: warm search 75% (rounds=3/4, searches=9/12)\n",
            "progress: warm search 100% (rounds=4/4, searches=12/12)\n",
            "progress: timed search 0% (rounds=0/5, searches=0/15)\n",
            "progress: timed search 25% (rounds=2/5, searches=6/15)\n",
            "progress: timed search 50% (rounds=3/5, searches=9/15)\n",
            "progress: timed search 75% (rounds=4/5, searches=12/15)\n",
            "progress: timed search 100% (rounds=5/5, searches=15/15)\n",
        ]
        .concat()
    );
}
