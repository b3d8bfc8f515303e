use std::cell::{Cell, RefCell};

use vector_benchmark_support::corpus::{load_fvecs, load_ivecs, open_checked};
use vector_benchmark_support::io::{Cursor, Demand, Fetching, Read};
use vector_benchmark_support::records::{
    check_dimension, check_trailing, fill, read_fvecs, read_header, read_ivecs,
    read_ivecs_with_progress,
};
use vector_benchmark_support::{
    Cli, Mode, Opened, Opening, Progress, SiftError, load_sift1m, load_sift1m_with_progress,
};

fn record(words: &[u32]) -> Vec<u8> {
    let mut bytes = (words.len() as i32).to_le_bytes().to_vec();
    for word in words {
        bytes.extend_from_slice(&word.to_le_bytes());
    }
    bytes
}

/// Delivers `bytes`, at most `step` at a time, and then ends or fails.
fn pieces<'a>(
    bytes: &'a [u8],
    step: usize,
    fault: Option<&'a str>,
) -> impl Fn(Demand) -> Result<Vec<u8>, String> + 'a {
    let position = Cell::new(0);
    move |demand| {
        let rest = &bytes[position.get()..];
        let count = match demand {
            Demand::UpTo(limit) => rest.len().min(limit).min(step),
            Demand::Everything => rest.len(),
        };
        if let Some(message) = fault {
            if count == rest.len() && (count == 0 || demand == Demand::Everything) {
                return Err(message.to_owned());
            }
        }
        position.set(position.get() + count);
        Ok(rest[..count].to_vec())
    }
}

#[test]
fn short_reads_do_not_change_what_is_decoded() {
    let bytes = [record(&[1, 2, 3]), record(&[4, 5, 6])].concat();
    let whole = read_fvecs(&mut Cursor::new(bytes.clone()), "x", 2, 3, 2).unwrap();
    for step in 1..=17 {
        let mut reader = Fetching::new(pieces(&bytes, step, None));
        assert_eq!(read_fvecs(&mut reader, "x", 2, 3, 2).unwrap(), whole);
    }
    assert_eq!(whole, [vec![1, 2, 3], vec![4, 5, 6]]);
}

#[test]
fn a_failing_source_is_reported_wherever_it_fails() {
    let bytes = [record(&[1, 2]), record(&[3, 4])].concat();
    for cut in 0..=bytes.len() {
        let mut reader = Fetching::new(pieces(&bytes[..cut], 5, Some("disk on fire")));
        let error = read_fvecs(&mut reader, "x.fvecs", 2, 2, 2).unwrap_err();
        assert_eq!(error.message(), "sift1m: x.fvecs: disk on fire");
        assert_eq!(error.exit_code(), 1);
    }
}

#[test]
fn a_short_source_is_reported_by_where_it_ends() {
    let bytes = [record(&[1, 2]), record(&[3, 4])].concat();
    for cut in 0..bytes.len() {
        let mut reader = Fetching::new(pieces(&bytes[..cut], 5, None));
        let message = read_fvecs(&mut reader, "x", 2, 2, 2).unwrap_err().message();
        let (record, inside) = (cut / 12, cut % 12);
        if inside < 4 {
            assert_eq!(
                message,
                format!("sift1m: x record {record}: truncated dimension header")
            );
        } else {
            let got = inside - 4;
            assert_eq!(
                message,
                format!(
                    "sift1m: x record {record}: truncated payload: expected 8 bytes, got {got}"
                )
            );
        }
    }
}

#[test]
fn every_rejection_names_its_place() {
    let header = |width: i32| width.to_le_bytes().to_vec();
    for (bytes, message) in [
        (
            header(-2),
            "sift1m: x record 0: expected dimension 2, got -2",
        ),
        (header(0), "sift1m: x record 0: expected dimension 2, got 0"),
        (
            header(i32::MIN),
            "sift1m: x record 0: expected dimension 2, got -2147483648",
        ),
        (
            [record(&[1, 2]), record(&[3])].concat(),
            "sift1m: x record 1: expected dimension 2, got 1",
        ),
        (
            [record(&[1, 2]), record(&[3, 0x7f80_0000])].concat(),
            "sift1m: x record 1 component 1: non-finite value",
        ),
        (
            [record(&[1, 2]), record(&[0xff80_0001, 0x7f80_0000])].concat(),
            "sift1m: x record 1 component 0: non-finite value",
        ),
        (
            [record(&[1, 2]), record(&[3, 4]), vec![9; 5]].concat(),
            "sift1m: x: trailing 5 bytes after 2 records",
        ),
    ] {
        let error = read_fvecs(&mut Cursor::new(bytes), "x", 2, 2, 2).unwrap_err();
        assert_eq!(error.message(), message);
    }
    for (ids, message) in [
        (
            [1, 0x8000_0000],
            "sift1m: sift_groundtruth.ivecs record 0 id 1: negative row id -2147483648",
        ),
        (
            [7, 2],
            "sift1m: sift_groundtruth.ivecs record 0 id 0: row id 7 is outside 0..7",
        ),
        (
            [5, 5],
            "sift1m: sift_groundtruth.ivecs record 0 id 1: duplicate row id 5",
        ),
    ] {
        let error = read_ivecs(&mut Cursor::new(record(&ids)), "y", 1, 2, 1, 7).unwrap_err();
        assert_eq!(error.message(), message);
    }
}

#[test]
fn the_largest_and_smallest_finite_components_are_kept() {
    let bits = [
        f32::MAX.to_bits(),
        f32::MIN.to_bits(),
        f32::MIN_POSITIVE.to_bits(),
        1,
        0x8000_0000,
        0,
    ];
    let rows = read_fvecs(&mut Cursor::new(record(&bits)), "x", 1, 6, 1).unwrap();
    assert_eq!(rows, [bits.to_vec()]);
}

#[test]
fn ids_may_repeat_in_another_record() {
    let bytes = [record(&[0, 1]), record(&[1, 0])].concat();
    let mut progress = Progress::new(Vec::new(), false);
    let rows = read_ivecs_with_progress(
        &mut Cursor::new(bytes),
        "sift_groundtruth.ivecs",
        2,
        2,
        1,
        2,
        &mut progress,
    )
    .unwrap();
    assert_eq!(rows, [vec![0, 1]]);
    assert_eq!(
        String::from_utf8(progress.into_inner()).unwrap(),
        [
            "progress: load sift_groundtruth.ivecs 0% (rows=0/2)\n",
            "progress: load sift_groundtruth.ivecs 25% (rows=1/2)\n",
            "progress: load sift_groundtruth.ivecs 50% (rows=1/2)\n",
            "progress: load sift_groundtruth.ivecs 75% (rows=2/2)\n",
            "progress: load sift_groundtruth.ivecs 100% (rows=2/2)\n",
        ]
        .concat()
    );
}

#[test]
fn rows_that_are_not_kept_are_checked_and_counted_too() {
    let good = [record(&[1]), record(&[2])].concat();
    let bad = [record(&[1]), record(&[0x7fc0_0000])].concat();
    for retain in 0..=2 {
        let rows = read_fvecs(&mut Cursor::new(good.clone()), "x", 2, 1, retain).unwrap();
        assert_eq!(rows.len(), retain);
        let error = read_fvecs(&mut Cursor::new(bad.clone()), "x", 2, 1, retain).unwrap_err();
        assert_eq!(
            error.message(),
            "sift1m: x record 1 component 0: non-finite value"
        );
    }
}

#[test]
fn a_bad_record_leaves_the_milestones_of_the_good_ones() {
    let bytes = [record(&[1]), record(&[2]), record(&[0x7f80_0000])].concat();
    let mut progress = Progress::new(Vec::new(), false);
    let opened = Opened::Ready {
        reader: Cursor::new(bytes),
        size: Ok(32),
    };
    let error = load_fvecs(opened, "x", 32, 4, 1, 4, &mut progress).unwrap_err();
    assert!(matches!(error, SiftError::NonFinite { record: 2, .. }));
    assert_eq!(
        String::from_utf8(progress.into_inner()).unwrap(),
        [
            "progress: load x 0% (rows=0/4)\n",
            "progress: load x 25% (rows=1/4)\n",
            "progress: load x 50% (rows=2/4)\n",
        ]
        .concat()
    );
}

#[test]
fn reading_helpers_deliver_and_check_one_thing_each() {
    let mut reader = Cursor::new(vec![0xfe, 0xff, 0xff, 0xff, 7, 8, 9]);
    assert_eq!(read_header(&mut reader, "x", 0).unwrap(), -2);
    let mut buffer = vec![1, 2, 3];
    assert_eq!(fill(&mut reader, "x", &mut buffer, 2).unwrap(), 2);
    assert_eq!(buffer, [7, 8]);
    assert_eq!(
        check_trailing(&mut reader, "x", 3).unwrap_err().message(),
        "sift1m: x: trailing 1 bytes after 3 records"
    );
    let mut short = Cursor::new(vec![7]);
    assert_eq!(fill(&mut short, "x", &mut buffer, 2).unwrap(), 1);
    assert_eq!(buffer, [7]);
    assert!(check_trailing(&mut Cursor::new(vec![]), "x", 3).is_ok());
    assert!(check_dimension("x", 0, 128, 128).is_ok());
    assert_eq!(
        check_dimension("x", 4, 128, 100).unwrap_err().message(),
        "sift1m: x record 4: expected dimension 128, got 100"
    );
}

#[test]
fn a_cursor_delivers_its_bytes_in_order() {
    let mut cursor = Cursor::new(vec![1, 2, 3, 4, 5]);
    let mut buffer = Vec::new();
    assert_eq!(cursor.read(&mut buffer, 2), Ok(2));
    assert_eq!(cursor.read(&mut buffer, 1), Ok(1));
    assert_eq!(cursor.read_to_end(&mut buffer), Ok(()));
    assert_eq!(buffer, [1, 2, 3, 4, 5]);
    let mut cursor = Cursor::new(vec![1]);
    assert_eq!(cursor.read(&mut buffer, 9), Ok(1));
    assert_eq!(cursor.read(&mut buffer, 9), Ok(0));
}

#[test]
fn files_that_cannot_be_opened_are_refused_and_show_nothing() {
    let mut progress = Progress::new(Vec::new(), false);
    let unreadable: Opened<Cursor> = Opened::Failed("permission denied".to_owned());
    let error = load_fvecs(unreadable, "a.fvecs", 8, 1, 1, 1, &mut progress).unwrap_err();
    assert_eq!(error.message(), "sift1m: a.fvecs: permission denied");

    let unsized_file = Opened::Ready {
        reader: Cursor::new(record(&[1])),
        size: Err("no metadata".to_owned()),
    };
    let error = load_fvecs(unsized_file, "a.fvecs", 8, 1, 1, 1, &mut progress).unwrap_err();
    assert_eq!(error.message(), "sift1m: a.fvecs: no metadata");

    let missing: Opened<Cursor> = Opened::Missing("/d/sift_groundtruth.ivecs".to_owned());
    let error = load_ivecs(missing, 8, 1, 1, 1, 9, &mut progress).unwrap_err();
    assert_eq!(error.message(), "sift1m: missing /d/sift_groundtruth.ivecs");

    let long = Opened::Ready {
        reader: Cursor::new(record(&[1])),
        size: Ok(9),
    };
    let error = load_ivecs(long, 8, 1, 1, 1, 9, &mut progress).unwrap_err();
    assert_eq!(
        error.message(),
        "sift1m: sift_groundtruth.ivecs: expected 8 bytes, got 9"
    );
    assert!(progress.into_inner().is_empty());
}

#[test]
fn a_file_of_the_right_size_is_handed_on_and_read() {
    let opened = Opened::Ready {
        reader: Cursor::new(record(&[3, 1])),
        size: Ok(12),
    };
    let mut reader = open_checked("y", 12, opened).unwrap_or_else(|_| panic!("refused"));
    assert_eq!(
        read_ivecs(&mut reader, "y", 1, 2, 1, 4).unwrap(),
        [vec![3, 1]]
    );
    let opened = Opened::Ready {
        reader: Cursor::new(record(&[3, 1])),
        size: Ok(12),
    };
    let rows = load_ivecs(opened, 12, 1, 2, 1, 4, &mut Progress::silent()).unwrap();
    assert_eq!(rows, [vec![3, 1]]);
}

/// Delivers `template` over and over, `records` times.
fn repeated(
    template: Vec<u8>,
    records: usize,
) -> impl Fn(Demand) -> Result<Vec<u8>, String> {
    let position = Cell::new(0);
    let total = template.len() * records;
    move |demand| {
        let start = position.get() % template.len();
        let count = match demand {
            Demand::UpTo(limit) => limit
                .min(template.len() - start)
                .min(total - position.get()),
            Demand::Everything => total - position.get(),
        };
        position.set(position.get() + count);
        Ok(template[start..start + count].to_vec())
    }
}

fn smoke() -> Cli {
    Cli {
        mode: Mode::Smoke,
        data_dir: "/data".to_owned(),
    }
}

#[test]
fn a_smoke_run_checks_the_whole_corpus_and_keeps_its_start() {
    let asked = RefCell::new(Vec::new());
    let vector = (0..128).map(|i| (i as f32).to_bits()).collect::<Vec<_>>();
    let neighbours = (0..100).map(|i| 999_999 - i).collect::<Vec<_>>();
    let open = |directory: &String, file: &'static str| {
        asked.borrow_mut().push(format!("{directory}/{file}"));
        let (template, records) = match file {
            "sift_base.fvecs" => (record(&vector), 1_000_000),
            "sift_query.fvecs" => (record(&vector), 10_000),
            _ => (record(&neighbours), 10_000),
        };
        let size = template.len() as u64 * records as u64;
        Opened::Ready {
            reader: Fetching::new(repeated(template, records)),
            size: Ok(size),
        }
    };
    let mut progress = Progress::new(Vec::new(), false);
    let mut opener = Opening::new(open);
    let workload = load_sift1m_with_progress(&smoke(), &mut opener, &mut progress).unwrap();
    assert_eq!(workload.mode, Mode::Smoke);
    assert_eq!(workload.base.len(), 10_000);
    assert_eq!(workload.queries.len(), 100);
    assert_eq!(workload.supplied_ground_truth.len(), 100);
    assert_eq!(workload.base[9_999], vector);
    assert_eq!(workload.queries[99], vector);
    let ids = neighbours.iter().map(|id| *id as usize).collect::<Vec<_>>();
    assert_eq!(workload.supplied_ground_truth[99], ids);
    assert_eq!(
        asked.into_inner(),
        [
            "/data/sift_base.fvecs",
            "/data/sift_query.fvecs",
            "/data/sift_groundtruth.ivecs",
        ]
    );
    let output = String::from_utf8(progress.into_inner()).unwrap();
    assert_eq!(output.lines().count(), 15);
    assert!(output.contains("load sift_base.fvecs 75% (rows=750000/1000000)\n"));
    assert!(output.ends_with("load sift_groundtruth.ivecs 100% (rows=10000/10000)\n"));
}

#[test]
fn no_file_is_opened_after_a_bad_one() {
    let asked = RefCell::new(Vec::new());
    let open = |_directory: &String, file: &'static str| -> Opened<Cursor> {
        asked.borrow_mut().push(file);
        Opened::Missing(format!("/data/{file}"))
    };
    let error = load_sift1m(&smoke(), &mut Opening::new(open)).unwrap_err();
    assert_eq!(error.message(), "sift1m: missing /data/sift_base.fvecs");
    assert_eq!(asked.into_inner(), ["sift_base.fvecs"]);

    let bad_record = |_directory: &String, _file: &'static str| Opened::Ready {
        reader: Cursor::new(vec![127, 0, 0, 0]),
        size: Ok(516_000_000),
    };
    let error = load_sift1m(&smoke(), &mut Opening::new(bad_record)).unwrap_err();
    assert_eq!(
        error.message(),
        "sift1m: sift_base.fvecs record 0: expected dimension 128, got 127"
    );

    let mut asked = Vec::new();
    let vector = record(&[0; 128]);
    let no_queries = |_directory: &String, file: &'static str| {
        asked.push(file);
        match file {
            "sift_base.fvecs" => Opened::Ready {
                reader: Fetching::new(repeated(vector.clone(), 1_000_000)),
                size: Ok(516_000_000),
            },
            _ => Opened::Failed("no access".to_owned()),
        }
    };
    let error = load_sift1m(&smoke(), &mut Opening::new(no_queries)).unwrap_err();
    assert_eq!(error.message(), "sift1m: sift_query.fvecs: no access");
    assert_eq!(asked, ["sift_base.fvecs", "sift_query.fvecs"]);
}

#[test]
fn a_source_that_has_ended_can_be_read_again_with_nothing_new() {
    let mut cursor = Cursor::new(vec![1, 2]);
    let mut buffer = Vec::new();
    cursor.read_to_end(&mut buffer).unwrap();
    assert_eq!(cursor.read(&mut buffer, 5), Ok(0));
    assert_eq!(fill(&mut cursor, "x", &mut buffer, 3).unwrap(), 0);
    assert!(buffer.is_empty());
    assert!(check_trailing(&mut cursor, "x", 1).is_ok());
    assert!(matches!(
        read_header(&mut cursor, "x", 2),
        Err(SiftError::TruncatedHeader { record: 2, .. })
    ));
    assert!(matches!(
        read_fvecs(&mut cursor, "x", 1, 1, 1),
        Err(SiftError::TruncatedHeader { record: 0, .. })
    ));
}

#[test]
fn a_source_that_has_ended_or_failed_asks_its_function_no_more() {
    for (fault, outcome) in [(None, Ok(0)), (Some("torn"), Err("torn".to_owned()))] {
        let asked = Cell::new(0);
        let answer = pieces(&[7], 1, fault);
        let mut reader = Fetching::new(|demand| {
            asked.set(asked.get() + 1);
            answer(demand)
        });
        let mut buffer = Vec::new();
        assert_eq!(reader.read(&mut buffer, 4), Ok(1));
        assert_eq!(reader.read(&mut buffer, 4), outcome);
        assert_eq!(asked.get(), 2);
        assert_eq!(reader.read(&mut buffer, 4), outcome);
        assert_eq!(reader.read_to_end(&mut buffer).is_ok(), fault.is_none());
        assert_eq!(asked.get(), 2);
        assert_eq!(buffer, [7]);
    }
}
