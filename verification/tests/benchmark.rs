use std::cell::RefCell;
use std::time::{Duration, Instant};

use vector_benchmark_support::corpus::open_checked;
use vector_benchmark_support::io::{Cursor, Sending};
use vector_benchmark_support::records::{
    read_fvecs, read_fvecs_with_progress, read_ivecs,
};
use vector_benchmark_support::{
    Cli, Mode, Opened, Progress, Searching, SiftError, first_hit, overlap_at_100, parse_cli,
    percentile, run_balanced, run_balanced_with_progress,
};

fn fvecs(records: &[&[f32]]) -> Vec<u8> {
    let mut bytes = Vec::new();
    for record in records {
        bytes.extend_from_slice(&i32::try_from(record.len()).unwrap().to_le_bytes());
        for value in *record {
            bytes.extend_from_slice(&value.to_bits().to_le_bytes());
        }
    }
    bytes
}

fn ivecs(records: &[&[i32]]) -> Vec<u8> {
    let mut bytes = Vec::new();
    for record in records {
        bytes.extend_from_slice(&i32::try_from(record.len()).unwrap().to_le_bytes());
        for value in *record {
            bytes.extend_from_slice(&value.to_le_bytes());
        }
    }
    bytes
}

fn floats(rows: &[Vec<u32>]) -> Vec<Vec<f32>> {
    rows.iter()
        .map(|row| row.iter().map(|bits| f32::from_bits(*bits)).collect())
        .collect()
}

fn share(hit: bool) -> f64 {
    f64::from(hit)
}

fn arguments(words: &[&str]) -> Vec<String> {
    words.iter().map(|word| (*word).to_owned()).collect()
}

#[test]
fn tiny_le_fixtures_decode_exact_values_and_ids() {
    let tiny_fvecs: [u8; 24] = [
        2, 0, 0, 0, 0, 0, 0x80, 0x3f, 0, 0, 0, 0x40, 2, 0, 0, 0, 0, 0, 0x60, 0x40, 0, 0, 0x80,
        0xc0,
    ];
    let mut vectors = Cursor::new(tiny_fvecs.to_vec());
    let parsed = read_fvecs(&mut vectors, "tiny.fvecs", 2, 2, 2).unwrap();
    assert_eq!(floats(&parsed), [vec![1.0, 2.0], vec![3.5, -4.0]]);

    let tiny_ivecs: [u8; 32] = [
        3, 0, 0, 0, 0, 0, 0, 0, 2, 0, 0, 0, 1, 0, 0, 0, 3, 0, 0, 0, 3, 0, 0, 0, 1, 0, 0, 0, 0, 0,
        0, 0,
    ];
    let mut ids = Cursor::new(tiny_ivecs.to_vec());
    let parsed = read_ivecs(&mut ids, "sift_groundtruth.ivecs", 2, 3, 2, 4).unwrap();
    assert_eq!(parsed, [vec![0, 2, 1], vec![3, 1, 0]]);
}

#[test]
fn cli_requires_an_explicit_full_or_fixed_smoke_run() {
    assert_eq!(
        parse_cli(&arguments(&["/data/sift1M"])).unwrap(),
        Cli {
            mode: Mode::Full,
            data_dir: "/data/sift1M".to_owned(),
        }
    );
    assert_eq!(
        parse_cli(&arguments(&["--smoke", "/data/sift1M"])).unwrap().mode,
        Mode::Smoke
    );
    for invalid in [vec![], vec!["--other"], vec!["/data", "--smoke"]] {
        assert!(matches!(
            parse_cli(&arguments(&invalid)),
            Err(SiftError::Usage)
        ));
    }
    assert_eq!(SiftError::Usage.exit_code(), 2);
}

#[test]
fn file_boundary_reports_missing_and_exact_size_errors_before_decoding() {
    let missing = "/data/missing.fvecs".to_owned();
    assert!(matches!(
        open_checked::<Cursor>("missing.fvecs", 12, Opened::Missing(missing.clone())),
        Err(SiftError::Missing(path)) if path == missing
    ));

    let short = Opened::Ready {
        reader: Cursor::new(vec![0_u8; 8]),
        size: Ok(8),
    };
    let error = match open_checked("short.fvecs", 12, short) {
        Ok(_) => panic!("accepted a short file"),
        Err(error) => error,
    };
    assert!(matches!(
        error,
        SiftError::Size {
            expected: 12,
            actual: 8,
            ..
        }
    ));
    assert_eq!(error.exit_code(), 1);
}

#[test]
fn decoder_rejects_each_structural_and_value_corruption() {
    let good = fvecs(&[&[1.0, 2.0], &[3.0, 4.0]]);

    let mut wrong_dimension = good.clone();
    wrong_dimension[..4].copy_from_slice(&3_i32.to_le_bytes());
    assert!(matches!(
        read_fvecs(&mut Cursor::new(wrong_dimension), "tiny.fvecs", 2, 2, 2),
        Err(SiftError::Dimension { record: 0, .. })
    ));

    assert!(matches!(
        read_fvecs(&mut Cursor::new(good[..1].to_vec()), "tiny.fvecs", 2, 2, 2),
        Err(SiftError::TruncatedHeader { record: 0, .. })
    ));
    assert!(matches!(
        read_fvecs(&mut Cursor::new(good[..10].to_vec()), "tiny.fvecs", 2, 2, 2),
        Err(SiftError::TruncatedPayload { record: 0, .. })
    ));

    let mut non_finite = good.clone();
    non_finite[4..8].copy_from_slice(&f32::NAN.to_bits().to_le_bytes());
    assert!(matches!(
        read_fvecs(&mut Cursor::new(non_finite), "tiny.fvecs", 2, 2, 2),
        Err(SiftError::NonFinite {
            record: 0,
            component: 0,
            ..
        })
    ));

    let mut trailing = good;
    trailing.push(1);
    assert!(matches!(
        read_fvecs(&mut Cursor::new(trailing), "tiny.fvecs", 2, 2, 2),
        Err(SiftError::Trailing { bytes: 1, .. })
    ));
}

#[test]
fn ground_truth_rejects_negative_out_of_range_and_duplicate_ids() {
    let cases = [
        (ivecs(&[&[-1, 0]]), "negative"),
        (ivecs(&[&[0, 4]]), "outside"),
        (ivecs(&[&[1, 1]]), "duplicate"),
    ];
    for (bytes, expected) in cases {
        let error = read_ivecs(
            &mut Cursor::new(bytes),
            "sift_groundtruth.ivecs",
            1,
            2,
            1,
            4,
        )
        .unwrap_err();
        assert!(error.message().contains(expected));
    }
}

#[test]
fn first_hit_uses_first_neighbor_prefixes() {
    let first = first_hit(&[7, 8, 9], 7);
    assert_eq!(
        (share(first.r1), share(first.r10), share(first.r100)),
        (1.0, 1.0, 1.0)
    );
    let at_six = first_hit(&[0, 1, 2, 3, 4, 7], 7);
    assert_eq!(
        (share(at_six.r1), share(at_six.r10), share(at_six.r100)),
        (0.0, 1.0, 1.0)
    );
    let at_fifty_one = first_hit(&(0..=50).collect::<Vec<_>>(), 50);
    assert_eq!(
        (
            share(at_fifty_one.r1),
            share(at_fifty_one.r10),
            share(at_fifty_one.r100)
        ),
        (0.0, 0.0, 1.0)
    );
    assert_eq!(share(first_hit(&[0, 1, 2], 9).r100), 0.0);
}

fn overlap(results: &[usize], exact: &[usize]) -> f64 {
    overlap_at_100(results, exact) as f64 / 100.0
}

#[test]
fn overlap_uses_the_fixed_top_100_denominator_and_ignores_truth_order() {
    let exact = (0..100).collect::<Vec<_>>();
    let one_overlap = std::iter::once(0).chain(100..199).collect::<Vec<_>>();
    let hit = first_hit(&one_overlap, 0);
    assert_eq!(
        (share(hit.r1), share(hit.r10), share(hit.r100)),
        (1.0, 1.0, 1.0)
    );
    assert_eq!(overlap(&one_overlap, &exact), 0.01);

    let fifty = (0..50).collect::<Vec<_>>();
    assert_eq!(overlap(&fifty, &exact), 0.5);

    let mut permuted = exact.clone();
    permuted.rotate_left(37);
    assert_eq!(overlap(&one_overlap, &permuted), 0.01);
}

#[test]
fn balanced_runner_warms_twenty_then_times_every_query_cyclically() {
    let queries = (0..23).map(|query| vec![query as f32]).collect::<Vec<_>>();
    let trace = RefCell::new(Vec::new());
    let mut search = Searching::new(|index: usize, query: &Vec<f32>| {
        trace.borrow_mut().push((index, query[0] as usize));
        Ok::<_, ()>((index, query[0] as usize))
    });
    let runs = run_balanced(&queries, 5, 20, &mut search).unwrap();
    let trace = trace.into_inner();
    assert_eq!(trace.len(), (20 + 23) * 5);
    for (phase_queries, phase) in [(20, &trace[..100]), (23, &trace[100..])] {
        for (query, calls) in phase.chunks_exact(5).enumerate() {
            assert!(query < phase_queries);
            for (offset, (index, observed)) in calls.iter().enumerate() {
                assert_eq!(*index, (query + offset) % 5);
                assert_eq!(*observed, query);
            }
        }
    }
    assert!(
        runs.iter()
            .all(|run| run.results.len() == 23 && run.latencies.len() == 23)
    );
}

#[test]
fn balanced_runner_propagates_search_errors() {
    let queries = vec![vec![0.0_f32], vec![1.0]];
    let mut search = Searching::new(|index: usize, query: &Vec<f32>| {
        if index == 1 && query[0] == 0.0 {
            Err("search failed")
        } else {
            Ok(())
        }
    });
    let result = run_balanced(&queries, 2, 0, &mut search);
    assert_eq!(result.unwrap_err(), "search failed");
}

#[test]
fn non_terminal_and_terminal_progress_have_exact_bounded_milestones() {
    let mut non_terminal = Progress::new(Vec::new(), false);
    non_terminal.begin("timed search", "rounds", 4, Some(5));
    for completed in 1..=4 {
        non_terminal.advance(completed);
    }
    non_terminal.finish();
    assert_eq!(
        String::from_utf8(non_terminal.into_inner()).unwrap(),
        [
            "progress: timed search 0% (rounds=0/4, searches=0/20)\n",
            "progress: timed search 25% (rounds=1/4, searches=5/20)\n",
            "progress: timed search 50% (rounds=2/4, searches=10/20)\n",
            "progress: timed search 75% (rounds=3/4, searches=15/20)\n",
            "progress: timed search 100% (rounds=4/4, searches=20/20)\n",
        ]
        .concat()
    );

    let mut terminal = Progress::new(Vec::new(), true);
    terminal.begin("timed search", "rounds", 4, Some(5));
    for completed in 1..=4 {
        terminal.advance(completed);
    }
    terminal.finish();
    assert_eq!(
        String::from_utf8(terminal.into_inner()).unwrap(),
        [
            "\rprogress: timed search 0% (rounds=0/4, searches=0/20)",
            "\rprogress: timed search 25% (rounds=1/4, searches=5/20)",
            "\rprogress: timed search 50% (rounds=2/4, searches=10/20)",
            "\rprogress: timed search 75% (rounds=3/4, searches=15/20)",
            "\rprogress: timed search 100% (rounds=4/4, searches=20/20)\n",
        ]
        .concat()
    );
}

#[test]
fn sift_progress_uses_physical_and_balanced_search_denominators() {
    let mut progress = Progress::new(Vec::new(), false);
    for (label, unit, total, searches_per_unit) in [
        ("load sift_base.fvecs", "rows", 1_000_000, None),
        ("load sift_query.fvecs", "rows", 10_000, None),
        ("load sift_groundtruth.ivecs", "rows", 10_000, None),
        ("recompute smoke truth", "queries", 100, None),
        ("warm search", "rounds", 20, Some(5)),
        ("timed smoke search", "rounds", 100, Some(5)),
        ("timed full search", "rounds", 10_000, Some(5)),
    ] {
        progress.begin(label, unit, total, searches_per_unit);
        progress.advance(total / 4);
        progress.advance(total / 2);
        progress.advance(total * 3 / 4);
        progress.advance(total);
        progress.finish();
    }
    let output = String::from_utf8(progress.into_inner()).unwrap();
    assert!(output.contains("load sift_base.fvecs 100% (rows=1000000/1000000)"));
    assert!(output.contains("load sift_query.fvecs 100% (rows=10000/10000)"));
    assert!(output.contains("load sift_groundtruth.ivecs 100% (rows=10000/10000)"));
    assert!(output.contains("recompute smoke truth 100% (queries=100/100)"));
    assert!(output.contains("warm search 100% (rounds=20/20, searches=100/100)"));
    assert!(output.contains("timed smoke search 100% (rounds=100/100, searches=500/500)"));
    assert!(output.contains("timed full search 100% (rounds=10000/10000, searches=50000/50000)"));
    assert_eq!(output.lines().count(), 35);
}

#[test]
fn file_progress_counts_physical_rows_while_retaining_a_subset() {
    let bytes = fvecs(&[&[1.0, 2.0], &[3.0, 4.0], &[5.0, 6.0], &[7.0, 8.0]]);
    let mut progress = Progress::new(Vec::new(), false);
    let retained = read_fvecs_with_progress(
        &mut Cursor::new(bytes),
        "tiny.fvecs",
        4,
        2,
        1,
        &mut progress,
    )
    .unwrap();
    assert_eq!(floats(&retained), [vec![1.0, 2.0]]);
    let output = String::from_utf8(progress.into_inner()).unwrap();
    assert_eq!(output.lines().count(), 5);
    assert!(output.contains("0% (rows=0/4)"));
    assert!(output.contains("100% (rows=4/4)"));
}

#[test]
fn silent_and_progress_aware_runners_preserve_results_and_report_output() {
    let queries = (0..4).map(|query| vec![query as f32]).collect::<Vec<_>>();
    let silent = run_balanced(
        &queries,
        2,
        2,
        &mut Searching::new(|index: usize, query: &Vec<f32>| {
            Ok::<_, ()>((index, query[0] as usize))
        }),
    )
    .unwrap();
    let report_stdout = vec!["workload: unchanged".to_owned()];
    let mut progress = Progress::new(Vec::new(), false);
    let visible = run_balanced_with_progress(
        &queries,
        2,
        2,
        &mut progress,
        &mut Searching::new(|index: usize, query: &Vec<f32>| {
            Ok::<_, ()>((index, query[0] as usize))
        }),
    )
    .unwrap();
    assert_eq!(
        silent.iter().map(|run| &run.results).collect::<Vec<_>>(),
        visible.iter().map(|run| &run.results).collect::<Vec<_>>()
    );
    assert_eq!(report_stdout, ["workload: unchanged"]);
    assert!(!progress.into_inner().is_empty());
}

#[test]
fn failed_progress_writer_is_nonfatal_and_progress_time_is_not_sampled() {
    let mut failed = Progress::new(Sending::new(|_bytes: &[u8]| false, || true), false);
    failed.begin("load tiny", "rows", 4, None);
    failed.advance(4);
    failed.finish();
    failed.event("build flat", "start");
    assert!(failed.failed());

    let queries = (0..4).map(|query| vec![query as f32]).collect::<Vec<_>>();
    let delay = Duration::from_millis(40);
    let slow_write = |_bytes: &[u8]| {
        let started = Instant::now();
        while started.elapsed() < delay {}
        true
    };
    let mut slow = Progress::new(Sending::new(slow_write, || true), false);
    let runs = run_balanced_with_progress(
        &queries,
        1,
        0,
        &mut slow,
        &mut Searching::new(|_index: usize, query: &Vec<f32>| Ok::<_, ()>(query[0])),
    )
    .unwrap();
    assert_eq!(runs[0].latencies.len(), 4);
    assert!(
        runs[0]
            .latencies
            .iter()
            .all(|latency| *latency < Duration::from_millis(20))
    );
}

#[test]
fn nearest_rank_percentile_covers_round_and_non_round_counts() {
    let one = [Duration::from_micros(9)];
    let two = [Duration::from_micros(2), Duration::from_micros(5)];
    let hundred = (1..=100).map(Duration::from_micros).collect::<Vec<_>>();
    let six = (1..=6).map(Duration::from_micros).collect::<Vec<_>>();
    assert_eq!(percentile(&one, 99), one[0]);
    assert_eq!(percentile(&two, 50), two[0]);
    assert_eq!(percentile(&hundred, 99), Duration::from_micros(99));
    assert_eq!(percentile(&six, 34), Duration::from_micros(3));
}

#[test]
fn mode_labels_and_fixed_counts_cannot_claim_smoke_parity() {
    assert_eq!(Mode::Full.base_rows(), 1_000_000);
    assert_eq!(Mode::Full.query_rows(), 10_000);
    assert_eq!(Mode::Full.parity_label(), "bustub-sift1m");
    assert_eq!(Mode::Smoke.base_rows(), 10_000);
    assert_eq!(Mode::Smoke.query_rows(), 100);
    assert_eq!(Mode::Smoke.parity_label(), "non-parity");
}
