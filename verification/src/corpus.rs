//! The three files of the corpus, from opening to the finished workload.

use vstd::prelude::*;
use vstd::string::*;

use crate::cli::Cli;
use crate::encoding::{
    encode_file, id_words, law_accepted_ids_are_encoded, law_accepted_size,
    law_accepted_vectors_are_encoded, law_ids_round_trip, law_keeping_fewer_rows,
    law_vectors_round_trip, valid_ids, valid_vector, vector_words,
};
use crate::error::{SiftError, SiftErrorModel};
use crate::io::{Read, Sink, Write, follows, reads_as, since};
use crate::mode::{
    BASE_BYTES, BASE_ROWS, DIMENSIONS, GROUND_TRUTH_BYTES, GROUND_TRUTH_WIDTH, Mode, QUERY_BYTES,
    QUERY_ROWS, kept_base, kept_queries,
};
use crate::opener::Open;
use crate::progress::{
    Progress, StageModel, fresh_stage, law_five_milestones, lemma_relayed_concat,
    lemma_relayed_nothing, milestone_line, phase_lines, phase_stage,
};
use crate::records::{
    Layout, RowIds, RowRule, Rows, Vectors, good_records, id_rule, outcome, read_rows, row_seqs,
    scan, vector_rule,
};
use crate::verdict::{
    holds_ids, holds_vector, law_accepted_id_files, law_accepted_vector_files, law_id_rows,
    law_vector_rows, place_of, start_of, value_at,
};

verus! {

/// What came of opening a file.
#[derive(Debug)]
pub enum Opened<R> {
    /// Nothing is there, at the path given.
    Missing(String),
    /// The file could not be opened; the message tells why.
    Failed(String),
    /// The file is open. Asking for its size may still have failed.
    Ready { reader: R, size: Result<u64, String> },
}

impl<R: Read> Opened<R> {
    /// The open file, if it has the expected size.
    pub open spec fn checked(self, file: Seq<char>, expected: nat) -> Result<R, SiftErrorModel> {
        match self {
            Opened::Missing(path) => Err(SiftErrorModel::Missing(path@)),
            Opened::Failed(source) => Err(SiftErrorModel::Io { file, source: source@ }),
            Opened::Ready { reader, size } => match size {
                Err(source) => Err(SiftErrorModel::Io { file, source: source@ }),
                Ok(actual) => if actual == expected {
                    Ok(reader)
                } else {
                    Err(SiftErrorModel::Size { file, expected, actual: actual as nat })
                },
            },
        }
    }

    /// Whether `after` can be what is left of an open file.
    pub open spec fn leaves(self, after: R) -> bool {
        self matches Opened::Ready { reader, .. } ==> follows(&reader, &after)
    }

    /// Whether, as far as `after` tells, the file can be `model`.
    pub open spec fn can_be(self, after: R, model: FileModel) -> bool {
        match self {
            Opened::Missing(path) => model == FileModel::Missing(path@),
            Opened::Failed(source) => model == FileModel::Failed(source@),
            Opened::Ready { reader, size } => {
                &&& model is Ready
                &&& model->size == match size {
                    Ok(actual) => Ok::<nat, Seq<char>>(actual as nat),
                    Err(source) => Err(source@),
                }
                &&& reads_as(&reader, &after, model->bytes, model->fault)
            },
        }
    }
}

/// A file of the corpus as a whole: what opening it gives, and what it delivers before it
/// fails or just ends.
pub enum FileModel {
    Missing(Seq<char>),
    Failed(Seq<char>),
    Ready { size: Result<nat, Seq<char>>, bytes: Seq<u8>, fault: Option<Seq<char>> },
}

impl FileModel {
    /// What is wrong with the file before it is read.
    pub open spec fn refusal(self, file: Seq<char>, expected: nat) -> Option<SiftErrorModel> {
        match self {
            FileModel::Missing(path) => Some(SiftErrorModel::Missing(path)),
            FileModel::Failed(source) => Some(SiftErrorModel::Io { file, source }),
            FileModel::Ready { size, .. } => match size {
                Err(source) => Some(SiftErrorModel::Io { file, source }),
                Ok(actual) => if actual == expected {
                    None
                } else {
                    Some(SiftErrorModel::Size { file, expected, actual })
                },
            },
        }
    }
}

/// The rows of a file after its size and all its records were checked.
pub open spec fn loaded<T>(
    model: FileModel,
    expected: nat,
    layout: Layout,
    rule: RowRule<T>,
) -> Result<Seq<Seq<T>>, SiftErrorModel> {
    match model.refusal(layout.file, expected) {
        Some(error) => Err(error),
        None => scan(layout, model->bytes, model->fault, rule),
    }
}

/// The lines shown while a file is loaded: none unless it has the expected size.
pub open spec fn loading_lines<T>(
    terminal: bool,
    model: FileModel,
    expected: nat,
    layout: Layout,
    rule: RowRule<T>,
) -> Seq<Seq<char>> {
    match model.refusal(layout.file, expected) {
        Some(error) => seq![],
        None => phase_lines(
            terminal,
            layout.stage(),
            good_records(layout, model->bytes, model->fault, rule, layout.records),
            scan(layout, model->bytes, model->fault, rule) is Ok,
        ),
    }
}

/// What is under way after a file was loaded, where `before` was under way.
pub open spec fn loading_stage<T>(
    before: Option<StageModel>,
    model: FileModel,
    expected: nat,
    layout: Layout,
    rule: RowRule<T>,
) -> Option<StageModel> {
    match model.refusal(layout.file, expected) {
        Some(error) => before,
        None => phase_stage(
            layout.stage(),
            good_records(layout, model->bytes, model->fault, rule, layout.records),
            scan(layout, model->bytes, model->fault, rule) is Ok,
        ),
    }
}

/// What loading a file gives and shows, where the file is `model`.
pub open spec fn file_told<T, W: Write>(
    result: Result<Vec<Vec<T>>, SiftError>,
    before: &Progress<W>,
    after: &Progress<W>,
    model: FileModel,
    expected: nat,
    layout: Layout,
    rule: RowRule<T>,
) -> bool {
    &&& outcome(result) == loaded(model, expected, layout, rule)
    &&& after.current() == loading_stage(before.current(), model, expected, layout, rule)
    &&& after.sent_since(
        before,
        loading_lines(before.on_terminal(), model, expected, layout, rule),
    )
}

/// Whether a file was loaded as it should be: what it gave and showed is what any file
/// gives and shows that this one can be, as far as it was read.
pub open spec fn file_loaded<T, R: Read, W: Write>(
    opened: Opened<R>,
    end: R,
    result: Result<Vec<Vec<T>>, SiftError>,
    before: &Progress<W>,
    after: &Progress<W>,
    expected: nat,
    layout: Layout,
    rule: RowRule<T>,
) -> bool {
    &&& opened.leaves(end)
    &&& forall|model: FileModel| #[trigger]
        opened.can_be(end, model) ==> file_told(
            result,
            before,
            after,
            model,
            expected,
            layout,
            rule,
        )
}

/// Takes a file that was opened, if it is there and has the expected size.
pub fn open_checked<R: Read>(file: &str, expected_size: u64, opened: Opened<R>) -> (result: Result<
    R,
    SiftError,
>)
    ensures
        match result {
            Ok(reader) => opened.checked(file@, expected_size as nat) == Ok::<R, SiftErrorModel>(
                reader,
            ),
            Err(error) => opened.checked(file@, expected_size as nat) == Err::<R, SiftErrorModel>(
                error@,
            ),
        },
{
    match opened {
        Opened::Missing(path) => Err(SiftError::Missing(path)),
        Opened::Failed(source) => Err(SiftError::Io { file: file.to_owned(), source }),
        Opened::Ready { reader, size } => match size {
            Err(source) => Err(SiftError::Io { file: file.to_owned(), source }),
            Ok(actual) => {
                if actual != expected_size {
                    return Err(
                        SiftError::Size {
                            file: file.to_owned(),
                            expected: expected_size,
                            actual,
                        },
                    );
                }
                Ok(reader)
            },
        },
    }
}

/// Loads a file of rows.
fn load_rows<T, K: Rows<T>, R: Read, W: Write>(
    rows_of: &K,
    opened: Opened<R>,
    file: &str,
    expected_size: u64,
    records: usize,
    dimensions: usize,
    retain: usize,
    progress: &mut Progress<W>,
) -> (result: Result<Vec<Vec<T>>, SiftError>)
    requires
        0 < records,
        retain <= records,
        4 * dimensions <= usize::MAX,
    ensures
        old(progress).wf() ==> final(progress).wf(),
        ({
            let layout = Layout {
                file: file@,
                records: records as nat,
                dimensions: dimensions as nat,
                retain: retain as nat,
            };
            exists|end: R| #[trigger]
                file_loaded(
                    opened,
                    end,
                    result,
                    old(progress),
                    final(progress),
                    expected_size as nat,
                    layout,
                    rows_of.rule(layout),
                )
        }),
{
    let ghost layout = Layout {
        file: file@,
        records: records as nat,
        dimensions: dimensions as nat,
        retain: retain as nat,
    };
    let ghost expected = expected_size as nat;
    let ghost rule = rows_of.rule(layout);
    let ghost given = opened;
    proof {
        lemma_relayed_nothing(progress.output(), progress.has_failed());
    }
    let mut reader = match open_checked(file, expected_size, opened) {
        Ok(reader) => reader,
        Err(error) => {
            proof {
                let end = match given {
                    Opened::Ready { reader, .. } => reader,
                    _ => arbitrary(),
                };
                assert(file_loaded(
                    given,
                    end,
                    Err::<Vec<Vec<T>>, SiftError>(error),
                    old(progress),
                    progress,
                    expected,
                    layout,
                    rule,
                ));
            }
            return Err(error);
        },
    };
    let result = read_rows(
        rows_of,
        &mut reader,
        file,
        records,
        dimensions,
        retain,
        progress,
    );
    proof {
        let start = given->reader;
        assert forall|model: FileModel| #[trigger] given.can_be(reader, model) implies file_told(
            result,
            old(progress),
            progress,
            model,
            expected,
            layout,
            rule,
        ) by {
            assert(reads_as(&start, &reader, model->bytes, model->fault));
        }
        assert(file_loaded(
            given,
            reader,
            result,
            old(progress),
            progress,
            expected,
            layout,
            rule,
        ));
    }
    result
}

/// Loads a file of vectors.
pub fn load_fvecs<R: Read, W: Write>(
    opened: Opened<R>,
    file: &str,
    expected_size: u64,
    records: usize,
    dimensions: usize,
    retain: usize,
    progress: &mut Progress<W>,
) -> (result: Result<Vec<Vec<u32>>, SiftError>)
    requires
        0 < records,
        retain <= records,
        4 * dimensions <= usize::MAX,
    ensures
        old(progress).wf() ==> final(progress).wf(),
        ({
            let layout = Layout {
                file: file@,
                records: records as nat,
                dimensions: dimensions as nat,
                retain: retain as nat,
            };
            exists|end: R| #[trigger]
                file_loaded(
                    opened,
                    end,
                    result,
                    old(progress),
                    final(progress),
                    expected_size as nat,
                    layout,
                    vector_rule(layout),
                )
        }),
{
    load_rows(
        &Vectors,
        opened,
        file,
        expected_size,
        records,
        dimensions,
        retain,
        progress,
    )
}

/// Loads the file of ground truth, whose row ids are all below `upper_bound`.
pub fn load_ivecs<R: Read, W: Write>(
    opened: Opened<R>,
    expected_size: u64,
    records: usize,
    dimensions: usize,
    retain: usize,
    upper_bound: usize,
    progress: &mut Progress<W>,
) -> (result: Result<Vec<Vec<usize>>, SiftError>)
    requires
        0 < records,
        retain <= records,
        4 * dimensions <= usize::MAX,
    ensures
        old(progress).wf() ==> final(progress).wf(),
        ({
            let layout = Layout {
                file: "sift_groundtruth.ivecs"@,
                records: records as nat,
                dimensions: dimensions as nat,
                retain: retain as nat,
            };
            exists|end: R| #[trigger]
                file_loaded(
                    opened,
                    end,
                    result,
                    old(progress),
                    final(progress),
                    expected_size as nat,
                    layout,
                    id_rule(layout, upper_bound as nat),
                )
        }),
{
    load_rows(
        &RowIds { upper_bound },
        opened,
        "sift_groundtruth.ivecs",
        expected_size,
        records,
        dimensions,
        retain,
        progress,
    )
}

/// Everything that a run needs of the corpus. A vector component stands by its bit
/// pattern.
#[derive(Debug)]
pub struct SiftWorkload {
    pub mode: Mode,
    pub base: Vec<Vec<u32>>,
    pub queries: Vec<Vec<u32>>,
    pub supplied_ground_truth: Vec<Vec<usize>>,
}

/// A [`SiftWorkload`] with its tables as sequences.
pub struct WorkloadModel {
    pub mode: Mode,
    pub base: Seq<Seq<u32>>,
    pub queries: Seq<Seq<u32>>,
    pub supplied_ground_truth: Seq<Seq<usize>>,
}

impl View for SiftWorkload {
    type V = WorkloadModel;

    open spec fn view(&self) -> WorkloadModel {
        WorkloadModel {
            mode: self.mode,
            base: row_seqs(self.base@),
            queries: row_seqs(self.queries@),
            supplied_ground_truth: row_seqs(self.supplied_ground_truth@),
        }
    }
}

/// The file of base vectors.
pub open spec fn base_layout(mode: Mode) -> Layout {
    Layout {
        file: "sift_base.fvecs"@,
        records: BASE_ROWS as nat,
        dimensions: DIMENSIONS as nat,
        retain: kept_base(mode),
    }
}

/// The file of query vectors.
pub open spec fn query_layout(mode: Mode) -> Layout {
    Layout {
        file: "sift_query.fvecs"@,
        records: QUERY_ROWS as nat,
        dimensions: DIMENSIONS as nat,
        retain: kept_queries(mode),
    }
}

/// The file of ground truth.
pub open spec fn truth_layout(mode: Mode) -> Layout {
    Layout {
        file: "sift_groundtruth.ivecs"@,
        records: QUERY_ROWS as nat,
        dimensions: GROUND_TRUTH_WIDTH as nat,
        retain: kept_queries(mode),
    }
}

/// The base vectors that a run keeps.
pub open spec fn base_of(mode: Mode, model: FileModel) -> Result<
    Seq<Seq<u32>>,
    SiftErrorModel,
> {
    loaded(model, BASE_BYTES as nat, base_layout(mode), vector_rule(base_layout(mode)))
}

/// The query vectors that a run keeps.
pub open spec fn queries_of(mode: Mode, model: FileModel) -> Result<
    Seq<Seq<u32>>,
    SiftErrorModel,
> {
    loaded(model, QUERY_BYTES as nat, query_layout(mode), vector_rule(query_layout(mode)))
}

/// The rows of the ground truth that a run keeps.
pub open spec fn truth_of(mode: Mode, model: FileModel) -> Result<
    Seq<Seq<usize>>,
    SiftErrorModel,
> {
    loaded(
        model,
        GROUND_TRUTH_BYTES as nat,
        truth_layout(mode),
        id_rule(truth_layout(mode), BASE_ROWS as nat),
    )
}

/// The workload that three files hold, or what is wrong with the first bad one.
pub open spec fn corpus_of(
    mode: Mode,
    base: FileModel,
    queries: FileModel,
    truth: FileModel,
) -> Result<WorkloadModel, SiftErrorModel> {
    match base_of(mode, base) {
        Err(error) => Err(error),
        Ok(base) => match queries_of(mode, queries) {
            Err(error) => Err(error),
            Ok(queries) => match truth_of(mode, truth) {
                Err(error) => Err(error),
                Ok(supplied_ground_truth) => Ok(
                    WorkloadModel { mode, base, queries, supplied_ground_truth },
                ),
            },
        },
    }
}

/// The lines shown while the base vectors are loaded.
pub open spec fn base_lines(terminal: bool, mode: Mode, model: FileModel) -> Seq<
    Seq<char>,
> {
    loading_lines(
        terminal,
        model,
        BASE_BYTES as nat,
        base_layout(mode),
        vector_rule(base_layout(mode)),
    )
}

/// The lines shown while the query vectors are loaded.
pub open spec fn query_lines(terminal: bool, mode: Mode, model: FileModel) -> Seq<
    Seq<char>,
> {
    loading_lines(
        terminal,
        model,
        QUERY_BYTES as nat,
        query_layout(mode),
        vector_rule(query_layout(mode)),
    )
}

/// The lines shown while the ground truth is loaded.
pub open spec fn truth_lines(terminal: bool, mode: Mode, model: FileModel) -> Seq<
    Seq<char>,
> {
    loading_lines(
        terminal,
        model,
        GROUND_TRUTH_BYTES as nat,
        truth_layout(mode),
        id_rule(truth_layout(mode), BASE_ROWS as nat),
    )
}

/// The lines shown while the files are loaded, up to the first bad one.
pub open spec fn corpus_lines(
    terminal: bool,
    mode: Mode,
    base: FileModel,
    queries: FileModel,
    truth: FileModel,
) -> Seq<Seq<char>> {
    base_lines(terminal, mode, base) + (if base_of(mode, base) is Err {
        seq![]
    } else {
        query_lines(terminal, mode, queries) + (if queries_of(mode, queries) is Err {
            seq![]
        } else {
            truth_lines(terminal, mode, truth)
        })
    })
}

/// What is under way after the files were loaded, up to the first bad one.
pub open spec fn corpus_stage(
    before: Option<StageModel>,
    mode: Mode,
    base: FileModel,
    queries: FileModel,
    truth: FileModel,
) -> Option<StageModel> {
    let first = loading_stage(
        before,
        base,
        BASE_BYTES as nat,
        base_layout(mode),
        vector_rule(base_layout(mode)),
    );
    let second = loading_stage(
        first,
        queries,
        QUERY_BYTES as nat,
        query_layout(mode),
        vector_rule(query_layout(mode)),
    );
    if base_of(mode, base) is Err {
        first
    } else if queries_of(mode, queries) is Err {
        second
    } else {
        loading_stage(
            second,
            truth,
            GROUND_TRUTH_BYTES as nat,
            truth_layout(mode),
            id_rule(truth_layout(mode), BASE_ROWS as nat),
        )
    }
}

/// Whether a file belongs to the corpus.
pub open spec fn is_corpus_file(file: Seq<char>) -> bool {
    file == "sift_base.fvecs"@ || file == "sift_query.fvecs"@ || file == "sift_groundtruth.ivecs"@
}

/// Whether every file that `opened` can be, as far as `end` tells, has good base vectors.
pub open spec fn good_base<R: Read>(mode: Mode, opened: Opened<R>, end: R) -> bool {
    forall|model: FileModel| #[trigger] opened.can_be(end, model) ==> base_of(mode, model) is Ok
}

/// Whether every file that `opened` can be, as far as `end` tells, has good query vectors.
pub open spec fn good_queries<R: Read>(mode: Mode, opened: Opened<R>, end: R) -> bool {
    forall|model: FileModel| #[trigger] opened.can_be(end, model) ==> queries_of(mode, model) is Ok
}

/// Whether an opener may have been taken from `before` to `after` by opening the files of the
/// corpus in turn, each after the one before it was read so far. No file is opened after a
/// bad one.
pub open spec fn opened_in_turn<R: Read, O: Open<R>>(
    before: O,
    directory: String,
    mode: Mode,
    base: (Opened<R>, R),
    queries: (Opened<R>, R),
    truth: (Opened<R>, R),
    after: O,
) -> bool {
    &&& base.0.leaves(base.1)
    &&& queries.0.leaves(queries.1)
    &&& truth.0.leaves(truth.1)
    &&& exists|second: O|
        {
            &&& #[trigger] O::gave(before, directory, "sift_base.fvecs", second, base.0)
            &&& if good_base(mode, base.0, base.1) {
                opened_rest(second, directory, mode, queries, truth, after)
            } else {
                after == second
            }
        }
}

/// Whether an opener may have been taken from `before` to `after` by opening the files that
/// come after the base vectors.
pub open spec fn opened_rest<R: Read, O: Open<R>>(
    before: O,
    directory: String,
    mode: Mode,
    queries: (Opened<R>, R),
    truth: (Opened<R>, R),
    after: O,
) -> bool {
    exists|third: O|
        {
            &&& #[trigger] O::gave(before, directory, "sift_query.fvecs", third, queries.0)
            &&& if good_queries(mode, queries.0, queries.1) {
                O::gave(third, directory, "sift_groundtruth.ivecs", after, truth.0)
            } else {
                after == third
            }
        }
}

/// Whether `trace` tells of an opener all that it was ever asked for.
pub open spec fn records_openings<R: Read, O: Open<R>>(
    trace: spec_fn(O) -> Seq<(String, &'static str)>,
) -> bool {
    forall|before: O, directory: String, file: &'static str, after: O, opened: Opened<R>|
        #[trigger] O::gave(before, directory, file, after, opened) ==> trace(after) == trace(
            before,
        ).push((directory, file))
}

/// An opener that records what it is asked for sees exactly the files up to the first bad
/// one, in the order base vectors, query vectors, ground truth, and no file twice.
pub proof fn law_no_file_is_opened_after_a_bad_one<R: Read, O: Open<R>>(
    trace: spec_fn(O) -> Seq<(String, &'static str)>,
    before: O,
    directory: String,
    mode: Mode,
    base: (Opened<R>, R),
    queries: (Opened<R>, R),
    truth: (Opened<R>, R),
    after: O,
)
    requires
        records_openings::<R, O>(trace),
        opened_in_turn(before, directory, mode, base, queries, truth, after),
    ensures
        trace(after) == trace(before) + (if !good_base(mode, base.0, base.1) {
            seq![(directory, "sift_base.fvecs")]
        } else if !good_queries(mode, queries.0, queries.1) {
            seq![(directory, "sift_base.fvecs"), (directory, "sift_query.fvecs")]
        } else {
            seq![
                (directory, "sift_base.fvecs"),
                (directory, "sift_query.fvecs"),
                (directory, "sift_groundtruth.ivecs"),
            ]
        }),
{
    let asked = trace(before);
    assert(trace(after) =~= asked + trace(after).skip(asked.len() as int));
}

/// Whether three files, as far as they were read, can be these.
pub open spec fn can_be_corpus<R: Read>(
    base: (Opened<R>, R),
    queries: (Opened<R>, R),
    truth: (Opened<R>, R),
    base_model: FileModel,
    query_model: FileModel,
    truth_model: FileModel,
) -> bool {
    &&& base.0.can_be(base.1, base_model)
    &&& queries.0.can_be(queries.1, query_model)
    &&& truth.0.can_be(truth.1, truth_model)
}

/// A result of loading with its workload and its error as models.
pub open spec fn workload_outcome(result: Result<SiftWorkload, SiftError>) -> Result<
    WorkloadModel,
    SiftErrorModel,
> {
    match result {
        Ok(workload) => Ok(workload@),
        Err(error) => Err(error@),
    }
}

/// What loading these three files gives and shows.
pub open spec fn corpus_told<W: Write>(
    result: Result<SiftWorkload, SiftError>,
    before: &Progress<W>,
    after: &Progress<W>,
    mode: Mode,
    base: FileModel,
    queries: FileModel,
    truth: FileModel,
) -> bool {
    &&& workload_outcome(result) == corpus_of(mode, base, queries, truth)
    &&& after.current() == corpus_stage(before.current(), mode, base, queries, truth)
    &&& after.sent_since(
        before,
        corpus_lines(before.on_terminal(), mode, base, queries, truth),
    )
}

/// Whether a corpus was loaded as it should be: what it gave and showed is what any three
/// files give and show that these can be, as far as they were read.
pub open spec fn corpus_loaded<R: Read, W: Write>(
    base: (Opened<R>, R),
    queries: (Opened<R>, R),
    truth: (Opened<R>, R),
    result: Result<SiftWorkload, SiftError>,
    before: &Progress<W>,
    after: &Progress<W>,
    mode: Mode,
) -> bool {
    forall|base_model: FileModel, query_model: FileModel, truth_model: FileModel| #[trigger]
        can_be_corpus(base, queries, truth, base_model, query_model, truth_model) ==> corpus_told(
            result,
            before,
            after,
            mode,
            base_model,
            query_model,
            truth_model,
        )
}

/// Whether a corpus was loaded as it should be, apart from what it showed.
pub open spec fn corpus_given<R: Read>(
    base: (Opened<R>, R),
    queries: (Opened<R>, R),
    truth: (Opened<R>, R),
    result: Result<SiftWorkload, SiftError>,
    mode: Mode,
) -> bool {
    forall|base_model: FileModel, query_model: FileModel, truth_model: FileModel| #[trigger]
        can_be_corpus(base, queries, truth, base_model, query_model, truth_model)
            ==> workload_outcome(result) == corpus_of(mode, base_model, query_model, truth_model)
}

proof fn lemma_sent_on<W: Write>(
    start: &Progress<W>,
    middle: &Progress<W>,
    after: &Progress<W>,
    first: Seq<Seq<char>>,
    second: Seq<Seq<char>>,
)
    requires
        middle.sent_since(start, first),
        after.sent_since(middle, second),
    ensures
        after.sent_since(start, first + second),
{
    lemma_relayed_concat(
        start.output(),
        start.has_failed(),
        first,
        middle.output(),
        middle.has_failed(),
        second,
        after.output(),
        after.has_failed(),
    );
}

/// There is always something that a file can be.
pub proof fn lemma_can_be_something<R: Read>(opened: Opened<R>, end: R) -> (model: FileModel)
    requires
        opened.leaves(end),
    ensures
        opened.can_be(end, model),
{
    match opened {
        Opened::Missing(path) => FileModel::Missing(path@),
        Opened::Failed(source) => FileModel::Failed(source@),
        Opened::Ready { reader, size } => {
            let bytes = since(&reader, &end);
            assert(bytes =~= bytes.subrange(0, bytes.len() as int));
            FileModel::Ready {
                size: match size {
                    Ok(actual) => Ok(actual as nat),
                    Err(source) => Err(source@),
                },
                bytes,
                fault: match end.ended() {
                    Some(fault) => fault,
                    None => None,
                },
            }
        },
    }
}

/// Loads the corpus: the base vectors, the query vectors, and the ground truth. `opener`
/// opens the files.
pub fn load_sift1m_with_progress<R: Read, W: Write, O: Open<R>>(
    cli: &Cli,
    opener: &mut O,
    progress: &mut Progress<W>,
) -> (result: Result<SiftWorkload, SiftError>)
    requires
        forall|file: &'static str|
            is_corpus_file(file@) ==> #[trigger] old(opener).ready(cli.data_dir, file),
    ensures
        old(progress).wf() ==> final(progress).wf(),
        exists|base: (Opened<R>, R), queries: (Opened<R>, R), truth: (Opened<R>, R)|
            {
                &&& opened_in_turn(
                    *old(opener),
                    cli.data_dir,
                    cli.mode,
                    base,
                    queries,
                    truth,
                    *final(opener),
                )
                &&& #[trigger] corpus_loaded(
                    base,
                    queries,
                    truth,
                    result,
                    old(progress),
                    final(progress),
                    cli.mode,
                )
            },
{
    let ghost terminal = progress.on_terminal();
    let ghost mode = cli.mode;
    let ghost directory = cli.data_dir;
    let opened = opener.open(&cli.data_dir, "sift_base.fvecs");
    let ghost second_opener = *opener;
    let ghost base_opened = opened;
    let base_outcome = load_fvecs(
        opened,
        "sift_base.fvecs",
        BASE_BYTES,
        BASE_ROWS,
        DIMENSIONS,
        cli.mode.base_rows(),
        progress,
    );
    let ghost after_base = *progress;
    let ghost base_end = choose|end: R| #[trigger]
        file_loaded(
            base_opened,
            end,
            base_outcome,
            old(progress),
            progress,
            BASE_BYTES as nat,
            base_layout(mode),
            vector_rule(base_layout(mode)),
        );
    let ghost first = (base_opened, base_end);
    let base = match base_outcome {
        Ok(base) => base,
        Err(error) => {
            proof {
                let some = lemma_can_be_something(base_opened, base_end);
                assert(base_of(mode, some) is Err);
                let result = Err::<SiftWorkload, SiftError>(error);
                assert forall|b: FileModel, q: FileModel, t: FileModel| #[trigger]
                    can_be_corpus(first, first, first, b, q, t) implies corpus_told(
                    result,
                    old(progress),
                    progress,
                    mode,
                    b,
                    q,
                    t,
                ) by {
                    let lines = base_lines(terminal, mode, b);
                    assert(lines + seq![] =~= lines);
                }
                assert(O::gave(
                    *old(opener),
                    directory,
                    "sift_base.fvecs",
                    *opener,
                    base_opened,
                ));
                assert(opened_in_turn(
                    *old(opener),
                    directory,
                    mode,
                    first,
                    first,
                    first,
                    *opener,
                ));
                assert(corpus_loaded(first, first, first, result, old(progress), progress, mode));
            }
            return Err(error);
        },
    };
    let opened = opener.open(&cli.data_dir, "sift_query.fvecs");
    let ghost third_opener = *opener;
    let ghost query_opened = opened;
    let query_outcome = load_fvecs(
        opened,
        "sift_query.fvecs",
        QUERY_BYTES,
        QUERY_ROWS,
        DIMENSIONS,
        cli.mode.query_rows(),
        progress,
    );
    let ghost after_queries = *progress;
    let ghost query_end = choose|end: R| #[trigger]
        file_loaded(
            query_opened,
            end,
            query_outcome,
            &after_base,
            progress,
            QUERY_BYTES as nat,
            query_layout(mode),
            vector_rule(query_layout(mode)),
        );
    let ghost second = (query_opened, query_end);
    let queries = match query_outcome {
        Ok(queries) => queries,
        Err(error) => {
            proof {
                let some = lemma_can_be_something(query_opened, query_end);
                assert(queries_of(mode, some) is Err);
                let result = Err::<SiftWorkload, SiftError>(error);
                assert forall|b: FileModel, q: FileModel, t: FileModel| #[trigger]
                    can_be_corpus(first, second, second, b, q, t) implies corpus_told(
                    result,
                    old(progress),
                    progress,
                    mode,
                    b,
                    q,
                    t,
                ) by {
                    let lines = query_lines(terminal, mode, q);
                    lemma_sent_on(
                        old(progress),
                        &after_base,
                        progress,
                        base_lines(terminal, mode, b),
                        lines,
                    );
                    assert(lines + seq![] =~= lines);
                }
                assert(opened_rest(second_opener, directory, mode, second, second, *opener));
                assert(opened_in_turn(
                    *old(opener),
                    directory,
                    mode,
                    first,
                    second,
                    second,
                    *opener,
                ));
                assert(corpus_loaded(first, second, second, result, old(progress), progress, mode));
            }
            return Err(error);
        },
    };
    let opened = opener.open(&cli.data_dir, "sift_groundtruth.ivecs");
    let ghost truth_opened = opened;
    let truth_outcome = load_ivecs(
        opened,
        GROUND_TRUTH_BYTES,
        QUERY_ROWS,
        GROUND_TRUTH_WIDTH,
        cli.mode.query_rows(),
        BASE_ROWS,
        progress,
    );
    let ghost truth_end = choose|end: R| #[trigger]
        file_loaded(
            truth_opened,
            end,
            truth_outcome,
            &after_queries,
            progress,
            GROUND_TRUTH_BYTES as nat,
            truth_layout(mode),
            id_rule(truth_layout(mode), BASE_ROWS as nat),
        );
    let ghost third = (truth_opened, truth_end);
    let result = match truth_outcome {
        Ok(supplied_ground_truth) => Ok(
            SiftWorkload { mode: cli.mode, base, queries, supplied_ground_truth },
        ),
        Err(error) => Err(error),
    };
    proof {
        assert forall|b: FileModel, q: FileModel, t: FileModel| #[trigger]
            can_be_corpus(first, second, third, b, q, t) implies corpus_told(
            result,
            old(progress),
            progress,
            mode,
            b,
            q,
            t,
        ) by {
            lemma_sent_on(
                &after_base,
                &after_queries,
                progress,
                query_lines(terminal, mode, q),
                truth_lines(terminal, mode, t),
            );
            lemma_sent_on(
                old(progress),
                &after_base,
                progress,
                base_lines(terminal, mode, b),
                query_lines(terminal, mode, q) + truth_lines(terminal, mode, t),
            );
        }
        assert(opened_rest(second_opener, directory, mode, second, third, *opener));
        assert(opened_in_turn(
            *old(opener),
            directory,
            mode,
            first,
            second,
            third,
            *opener,
        ));
        assert(corpus_loaded(first, second, third, result, old(progress), progress, mode));
    }
    result
}

/// Loads the corpus without showing progress.
pub fn load_sift1m<R: Read, O: Open<R>>(cli: &Cli, opener: &mut O) -> (result: Result<
    SiftWorkload,
    SiftError,
>)
    requires
        forall|file: &'static str|
            is_corpus_file(file@) ==> #[trigger] old(opener).ready(cli.data_dir, file),
    ensures
        exists|base: (Opened<R>, R), queries: (Opened<R>, R), truth: (Opened<R>, R)|
            {
                &&& opened_in_turn(
                    *old(opener),
                    cli.data_dir,
                    cli.mode,
                    base,
                    queries,
                    truth,
                    *final(opener),
                )
                &&& #[trigger] corpus_given(base, queries, truth, result, cli.mode)
            },
{
    let mut progress: Progress<Sink> = Progress::silent();
    let ghost before = progress;
    let result = load_sift1m_with_progress(cli, opener, &mut progress);
    proof {
        let (base, queries, truth) = choose|
            base: (Opened<R>, R),
            queries: (Opened<R>, R),
            truth: (Opened<R>, R),
        |
            {
                &&& opened_in_turn(
                    *old(opener),
                    cli.data_dir,
                    cli.mode,
                    base,
                    queries,
                    truth,
                    *opener,
                )
                &&& #[trigger] corpus_loaded(
                    base,
                    queries,
                    truth,
                    result,
                    &before,
                    &progress,
                    cli.mode,
                )
            };
        assert(corpus_given(base, queries, truth, result, cli.mode));
    }
    result
}

/// The fixed sizes are those of the fixed records.
pub proof fn law_sizes_fit_the_records(mode: Mode)
    ensures
        BASE_BYTES == base_layout(mode).records * base_layout(mode).stride(),
        QUERY_BYTES == query_layout(mode).records * query_layout(mode).stride(),
        GROUND_TRUTH_BYTES == truth_layout(mode).records * truth_layout(mode).stride(),
{
    let (records, stride) = (truth_layout(mode).records, truth_layout(mode).stride());
    assert(records * stride == 4_040_000) by (nonlinear_arith)
        requires
            records == 10_000,
            stride == 404,
    ;
}

/// A file that is missing, cannot be opened, or has another size is refused before any
/// of it is decoded: nothing is shown, and what was under way still is.
pub proof fn law_size_comes_first<T>(
    terminal: bool,
    before: Option<StageModel>,
    model: FileModel,
    expected: nat,
    layout: Layout,
    rule: RowRule<T>,
)
    requires
        model.refusal(layout.file, expected) is Some,
    ensures
        loaded(model, expected, layout, rule) == Err::<Seq<Seq<T>>, SiftErrorModel>(
            model.refusal(layout.file, expected)->0,
        ),
        loading_lines(terminal, model, expected, layout, rule).len() == 0,
        loading_stage(before, model, expected, layout, rule) == before,
{
}

/// A file that is loaded shows the five milestones of its records and nothing is under
/// way after it.
pub proof fn law_loading_shows_five_milestones<T>(
    terminal: bool,
    before: Option<StageModel>,
    model: FileModel,
    expected: nat,
    layout: Layout,
    rule: RowRule<T>,
)
    requires
        layout.records > 0,
        loaded(model, expected, layout, rule) is Ok,
    ensures
        loading_stage(before, model, expected, layout, rule) is None,
        loading_lines(terminal, model, expected, layout, rule) == seq![
            milestone_line(terminal, layout.stage(), 0),
            milestone_line(terminal, layout.stage(), 25),
            milestone_line(terminal, layout.stage(), 50),
            milestone_line(terminal, layout.stage(), 75),
            milestone_line(terminal, layout.stage(), 100),
        ],
{
    law_five_milestones(
        terminal,
        "load "@ + layout.file,
        "rows"@,
        layout.records,
        None,
        layout.records,
    );
}

/// A loaded workload has the shape that its mode fixes: as many vectors and rows of
/// ground truth as the mode keeps, every vector finite and of full width, and every row
/// of ground truth made of distinct ids of base vectors of the whole corpus.
pub proof fn law_workload_shape(
    mode: Mode,
    base: FileModel,
    queries: FileModel,
    truth: FileModel,
)
    requires
        corpus_of(mode, base, queries, truth) is Ok,
    ensures
        ({
            let workload = corpus_of(mode, base, queries, truth)->Ok_0;
            &&& workload.mode == mode
            &&& workload.base.len() == kept_base(mode)
            &&& workload.queries.len() == kept_queries(mode)
            &&& workload.supplied_ground_truth.len() == kept_queries(mode)
            &&& forall|r: int|
                0 <= r < workload.base.len() ==> valid_vector(
                    #[trigger] workload.base[r],
                    DIMENSIONS as nat,
                )
            &&& forall|r: int|
                0 <= r < workload.queries.len() ==> valid_vector(
                    #[trigger] workload.queries[r],
                    DIMENSIONS as nat,
                )
            &&& forall|r: int|
                0 <= r < workload.supplied_ground_truth.len() ==> valid_ids(
                    #[trigger] workload.supplied_ground_truth[r],
                    GROUND_TRUTH_WIDTH as nat,
                    BASE_ROWS as nat,
                )
        }),
{
    lemma_kept_vectors(base_layout(mode), base->bytes, base->fault);
    lemma_kept_vectors(query_layout(mode), queries->bytes, queries->fault);
    lemma_kept_ids(truth_layout(mode), BASE_ROWS as nat, truth->bytes, truth->fault);
}

proof fn lemma_kept_vectors(layout: Layout, bytes: Seq<u8>, fault: Option<Seq<char>>)
    requires
        layout.retain <= layout.records,
        scan(layout, bytes, fault, vector_rule(layout)) is Ok,
    ensures
        ({
            let rows = scan(layout, bytes, fault, vector_rule(layout))->Ok_0;
            &&& rows.len() == layout.retain
            &&& forall|r: int|
                0 <= r < rows.len() ==> valid_vector(#[trigger] rows[r], layout.dimensions)
        }),
{
    let whole = Layout { retain: layout.records, ..layout };
    assert(vector_rule(whole) =~= vector_rule(layout));
    law_keeping_fewer_rows(whole, layout.retain, bytes, fault, vector_rule(layout));
    law_accepted_vectors_are_encoded(whole, bytes);
}

proof fn lemma_kept_ids(
    layout: Layout,
    upper_bound: nat,
    bytes: Seq<u8>,
    fault: Option<Seq<char>>,
)
    requires
        layout.retain <= layout.records,
        scan(layout, bytes, fault, id_rule(layout, upper_bound)) is Ok,
    ensures
        ({
            let rows = scan(layout, bytes, fault, id_rule(layout, upper_bound))->Ok_0;
            &&& rows.len() == layout.retain
            &&& forall|r: int|
                0 <= r < rows.len() ==> valid_ids(
                    #[trigger] rows[r],
                    layout.dimensions,
                    upper_bound,
                )
        }),
{
    let whole = Layout { retain: layout.records, ..layout };
    assert(id_rule(whole, upper_bound) =~= id_rule(layout, upper_bound));
    law_keeping_fewer_rows(whole, layout.retain, bytes, fault, id_rule(layout, upper_bound));
    law_accepted_ids_are_encoded(whole, upper_bound, bytes);
}

/// A run of either mode checks the whole corpus: it is refused exactly where a full run
/// is, with the same error, and otherwise has the leading rows of the full run.
pub proof fn law_modes_check_alike(
    mode: Mode,
    base: FileModel,
    queries: FileModel,
    truth: FileModel,
)
    ensures
        match corpus_of(Mode::Full, base, queries, truth) {
            Err(error) => corpus_of(mode, base, queries, truth) == Err::<
                WorkloadModel,
                SiftErrorModel,
            >(error),
            Ok(full) => corpus_of(mode, base, queries, truth) == Ok::<
                WorkloadModel,
                SiftErrorModel,
            >(
                WorkloadModel {
                    mode,
                    base: full.base.take(kept_base(mode) as int),
                    queries: full.queries.take(kept_queries(mode) as int),
                    supplied_ground_truth: full.supplied_ground_truth.take(
                        kept_queries(mode) as int,
                    ),
                },
            ),
        },
{
    let full = Mode::Full;
    assert(vector_rule(base_layout(full)) =~= vector_rule(base_layout(mode)));
    assert(vector_rule(query_layout(full)) =~= vector_rule(query_layout(mode)));
    assert(id_rule(truth_layout(full), BASE_ROWS as nat) =~= id_rule(
        truth_layout(mode),
        BASE_ROWS as nat,
    ));
    law_keeping_fewer_rows(
        base_layout(full),
        kept_base(mode),
        base->bytes,
        base->fault,
        vector_rule(base_layout(mode)),
    );
    law_keeping_fewer_rows(
        query_layout(full),
        kept_queries(mode),
        queries->bytes,
        queries->fault,
        vector_rule(query_layout(mode)),
    );
    law_keeping_fewer_rows(
        truth_layout(full),
        kept_queries(mode),
        truth->bytes,
        truth->fault,
        id_rule(truth_layout(mode), BASE_ROWS as nat),
    );
}

/// A file of good size that delivers exactly `bytes`.
pub open spec fn written_file(bytes: Seq<u8>) -> FileModel {
    FileModel::Ready { size: Ok(bytes.len()), bytes, fault: None }
}

/// A corpus that was written out loads again: from the files of given base vectors,
/// query vectors and ground truth, each as long as the corpus fixes, a run has those
/// rows, up to the number that its mode keeps.
pub proof fn law_written_corpus_loads(
    mode: Mode,
    base_rows: Seq<Seq<u32>>,
    query_rows: Seq<Seq<u32>>,
    truth_rows: Seq<Seq<usize>>,
)
    requires
        base_rows.len() == BASE_ROWS,
        query_rows.len() == QUERY_ROWS,
        truth_rows.len() == QUERY_ROWS,
        forall|r: int|
            0 <= r < base_rows.len() ==> valid_vector(#[trigger] base_rows[r], DIMENSIONS as nat),
        forall|r: int|
            0 <= r < query_rows.len() ==> valid_vector(
                #[trigger] query_rows[r],
                DIMENSIONS as nat,
            ),
        forall|r: int|
            0 <= r < truth_rows.len() ==> valid_ids(
                #[trigger] truth_rows[r],
                GROUND_TRUTH_WIDTH as nat,
                BASE_ROWS as nat,
            ),
    ensures
        corpus_of(
            mode,
            written_file(encode_file(vector_words(base_rows))),
            written_file(encode_file(vector_words(query_rows))),
            written_file(encode_file(id_words(truth_rows))),
        ) == Ok::<WorkloadModel, SiftErrorModel>(
            WorkloadModel {
                mode,
                base: base_rows.take(kept_base(mode) as int),
                queries: query_rows.take(kept_queries(mode) as int),
                supplied_ground_truth: truth_rows.take(kept_queries(mode) as int),
            },
        ),
{
    law_vectors_round_trip(base_layout(mode), base_rows);
    law_vectors_round_trip(query_layout(mode), query_rows);
    law_ids_round_trip(truth_layout(mode), BASE_ROWS as nat, truth_rows);
    law_accepted_size(
        base_layout(mode),
        encode_file(vector_words(base_rows)),
        vector_rule(base_layout(mode)),
    );
    law_accepted_size(
        query_layout(mode),
        encode_file(vector_words(query_rows)),
        vector_rule(query_layout(mode)),
    );
    law_accepted_size(
        truth_layout(mode),
        encode_file(id_words(truth_rows)),
        id_rule(truth_layout(mode), BASE_ROWS as nat),
    );
    law_sizes_fit_the_records(mode);
}

/// A file is taken exactly when it is there, could be opened, and has the expected size;
/// else the error says which of these it is. Nothing is read for that.
pub proof fn law_what_is_refused_unread(model: FileModel, file: Seq<char>, expected: nat)
    ensures
        match model {
            FileModel::Missing(path) => model.refusal(file, expected) == Some(
                SiftErrorModel::Missing(path),
            ),
            FileModel::Failed(source) => model.refusal(file, expected) == Some(
                SiftErrorModel::Io { file, source },
            ),
            FileModel::Ready { size: Err(source), .. } => model.refusal(file, expected) == Some(
                SiftErrorModel::Io { file, source },
            ),
            FileModel::Ready { size: Ok(actual), .. } => {
                &&& model.refusal(file, expected) is None <==> actual == expected
                &&& actual != expected ==> model.refusal(file, expected) == Some(
                    SiftErrorModel::Size { file, expected, actual },
                )
            },
        },
{
}

/// A file that was opened is handed on exactly when it has the expected size, and is refused
/// for just what any file is that it can be.
pub proof fn law_open_files_are_checked<R: Read>(
    opened: Opened<R>,
    end: R,
    model: FileModel,
    file: Seq<char>,
    expected: nat,
)
    requires
        opened.can_be(end, model),
    ensures
        match opened.checked(file, expected) {
            Ok(reader) => {
                &&& model.refusal(file, expected) is None
                &&& opened matches Opened::Ready { reader: same, size: Ok(actual) } && same
                    == reader && actual == expected
            },
            Err(error) => model.refusal(file, expected) == Some(error),
        },
{
}

/// What came of opening a file tells what the file can be: a missing one, or one that could
/// not be opened, only itself; an open one any of its size that delivers what was read.
pub proof fn law_what_a_file_can_be<R: Read>(opened: Opened<R>, end: R, model: FileModel)
    ensures
        match opened {
            Opened::Missing(path) => opened.can_be(end, model) <==> model == FileModel::Missing(
                path@,
            ),
            Opened::Failed(source) => opened.can_be(end, model) <==> model == FileModel::Failed(
                source@,
            ),
            Opened::Ready { reader, size } => match model {
                FileModel::Ready { size: told, bytes, fault } => opened.can_be(end, model)
                    <==> reads_as(&reader, &end, bytes, fault) && match (size, told) {
                    (Ok(actual), Ok(same)) => same == actual,
                    (Err(source), Err(same)) => same == source@,
                    _ => false,
                },
                _ => !opened.can_be(end, model),
            },
        },
        opened matches Opened::Ready { reader, .. } ==> (opened.leaves(end) <==> follows(
            &reader,
            &end,
        )),
{
}

/// A file of the expected size is read: its rows, or what is wrong with it, are those of its
/// bytes; it shows how many records are good, and is finished exactly when it is accepted.
pub proof fn law_files_of_the_right_size_are_read<T>(
    terminal: bool,
    before: Option<StageModel>,
    expected: nat,
    bytes: Seq<u8>,
    fault: Option<Seq<char>>,
    layout: Layout,
    rule: RowRule<T>,
)
    ensures
        ({
            let model = FileModel::Ready { size: Ok(expected), bytes, fault };
            let stage = fresh_stage("load "@ + layout.file, "rows"@, layout.records, None);
            let good = good_records(layout, bytes, fault, rule, layout.records);
            let done = scan(layout, bytes, fault, rule) is Ok;
            &&& loaded(model, expected, layout, rule) == scan(layout, bytes, fault, rule)
            &&& loading_lines(terminal, model, expected, layout, rule) == phase_lines(
                terminal,
                stage,
                good,
                done,
            )
            &&& loading_stage(before, model, expected, layout, rule) == phase_stage(
                stage,
                good,
                done,
            )
        }),
{
}

/// The first bad file decides: a corpus is refused for what is wrong with its base vectors,
/// else its query vectors, else its ground truth, and shows the files up to there. A corpus
/// without a bad file is made of what the files give.
pub proof fn law_first_bad_file_decides(
    terminal: bool,
    mode: Mode,
    base: FileModel,
    queries: FileModel,
    truth: FileModel,
)
    ensures
        ({
            let corpus = corpus_of(mode, base, queries, truth);
            let lines = corpus_lines(terminal, mode, base, queries, truth);
            match (base_of(mode, base), queries_of(mode, queries), truth_of(mode, truth)) {
                (Err(error), _, _) => {
                    &&& corpus == Err::<WorkloadModel, SiftErrorModel>(error)
                    &&& lines == base_lines(terminal, mode, base)
                },
                (_, Err(error), _) => {
                    &&& corpus == Err::<WorkloadModel, SiftErrorModel>(error)
                    &&& lines == base_lines(terminal, mode, base) + query_lines(
                        terminal,
                        mode,
                        queries,
                    )
                },
                (Ok(vectors), Ok(asked), told) => {
                    &&& lines == base_lines(terminal, mode, base) + query_lines(
                        terminal,
                        mode,
                        queries,
                    ) + truth_lines(terminal, mode, truth)
                    &&& match told {
                        Err(error) => corpus == Err::<WorkloadModel, SiftErrorModel>(error),
                        Ok(rows) => corpus matches Ok(workload) && workload.mode == mode
                            && workload.base == vectors && workload.queries == asked
                            && workload.supplied_ground_truth == rows,
                    }
                },
            }
        }),
{
    let first = base_lines(terminal, mode, base);
    let second = query_lines(terminal, mode, queries);
    let third = truth_lines(terminal, mode, truth);
    assert(first + seq![] =~= first);
    assert(second + seq![] =~= second);
    assert(first + (second + third) =~= first + second + third);
}

/// What is under way after loading is what the last file leaves that was loaded.
pub proof fn law_last_file_is_under_way(
    before: Option<StageModel>,
    mode: Mode,
    base: FileModel,
    queries: FileModel,
    truth: FileModel,
)
    ensures
        ({
            let after = corpus_stage(before, mode, base, queries, truth);
            let vectors = base_layout(mode);
            let asked = query_layout(mode);
            let told = truth_layout(mode);
            if corpus_of(mode, base, queries, truth) is Ok {
                after is None
            } else if base_of(mode, base) is Err {
                after == loading_stage(
                    before,
                    base,
                    BASE_BYTES as nat,
                    vectors,
                    vector_rule(vectors),
                )
            } else if queries_of(mode, queries) is Err {
                after == loading_stage(
                    None,
                    queries,
                    QUERY_BYTES as nat,
                    asked,
                    vector_rule(asked),
                )
            } else {
                after == loading_stage(
                    None,
                    truth,
                    GROUND_TRUTH_BYTES as nat,
                    told,
                    id_rule(told, BASE_ROWS as nat),
                )
            }
        }),
{
}

/// The three files: their names, how many records each has and how wide these are, and how
/// many of them a run keeps.
pub proof fn law_corpus_files(mode: Mode)
    ensures
        base_layout(mode).file == "sift_base.fvecs"@,
        base_layout(mode).records == 1_000_000,
        base_layout(mode).dimensions == 128,
        base_layout(mode).retain == kept_base(mode),
        query_layout(mode).file == "sift_query.fvecs"@,
        query_layout(mode).records == 10_000,
        query_layout(mode).dimensions == 128,
        query_layout(mode).retain == kept_queries(mode),
        truth_layout(mode).file == "sift_groundtruth.ivecs"@,
        truth_layout(mode).records == 10_000,
        truth_layout(mode).dimensions == 100,
        truth_layout(mode).retain == kept_queries(mode),
{
}

/// Whether a file has the size of so many vectors and is made of them.
pub open spec fn is_vector_file(model: FileModel, records: nat, dimensions: nat) -> bool {
    model matches FileModel::Ready { size, bytes, fault } && size == Ok::<nat, Seq<char>>(
        bytes.len(),
    ) && fault is None && bytes.len() == start_of(dimensions, records as int) && forall|r: int|
        0 <= r < records ==> #[trigger] holds_vector(bytes, dimensions, r)
}

/// Whether a file has the size of so many rows of row ids and is made of them.
pub open spec fn is_id_file(
    model: FileModel,
    records: nat,
    dimensions: nat,
    upper_bound: nat,
) -> bool {
    model matches FileModel::Ready { size, bytes, fault } && size == Ok::<nat, Seq<char>>(
        bytes.len(),
    ) && fault is None && bytes.len() == start_of(dimensions, records as int) && forall|r: int|
        0 <= r < records ==> #[trigger] holds_ids(bytes, dimensions, upper_bound, r)
}

/// A corpus loads exactly when its files hold a million base vectors, ten thousand query
/// vectors, and a hundred distinct ids of base vectors for each query, and nothing else. The
/// mode has no part in it.
pub proof fn law_what_corpus_loads(
    mode: Mode,
    base: FileModel,
    queries: FileModel,
    truth: FileModel,
)
    ensures
        corpus_of(mode, base, queries, truth) is Ok <==> {
            &&& is_vector_file(base, 1_000_000, 128)
            &&& is_vector_file(queries, 10_000, 128)
            &&& is_id_file(truth, 10_000, 100, 1_000_000)
        },
{
    law_accepted_vector_files(base_layout(mode), base->bytes);
    law_accepted_vector_files(query_layout(mode), queries->bytes);
    law_accepted_id_files(truth_layout(mode), BASE_ROWS as nat, truth->bytes);
    assert(start_of(128, 1_000_000) == 516_000_000);
    assert(start_of(128, 10_000) == 5_160_000);
    assert(start_of(100, 10_000) == 4_040_000);
}

/// The vectors and the ids of a workload are those that stand in the files, from the first
/// record on.
pub proof fn law_workload_stands_in_the_files(
    mode: Mode,
    base: FileModel,
    queries: FileModel,
    truth: FileModel,
    record: int,
    index: int,
)
    requires
        corpus_of(mode, base, queries, truth) is Ok,
        0 <= index,
    ensures
        ({
            let workload = corpus_of(mode, base, queries, truth)->Ok_0;
            &&& 0 <= record < kept_base(mode) && index < 128 ==> workload.base[record][index]
                == value_at(base->bytes, place_of(128, record, index))
            &&& 0 <= record < kept_queries(mode) && index < 128
                ==> workload.queries[record][index] == value_at(
                queries->bytes,
                place_of(128, record, index),
            )
            &&& 0 <= record < kept_queries(mode) && index < 100
                ==> workload.supplied_ground_truth[record][index] == value_at(
                truth->bytes,
                place_of(100, record, index),
            )
        }),
{
    law_what_corpus_loads(mode, base, queries, truth);
    law_vector_rows(base_layout(mode), base->bytes, record, index);
    law_vector_rows(query_layout(mode), queries->bytes, record, index);
    law_id_rows(truth_layout(mode), BASE_ROWS as nat, truth->bytes, record, index);
}

/// A workload is taken as it is, and an error too.
pub proof fn law_workloads_are_taken_as_they_are(workload: SiftWorkload, error: SiftError)
    ensures
        workload@.mode == workload.mode,
        workload@.base == row_seqs(workload.base@),
        workload@.queries == row_seqs(workload.queries@),
        workload@.supplied_ground_truth == row_seqs(workload.supplied_ground_truth@),
        workload_outcome(Ok(workload)) == Ok::<WorkloadModel, SiftErrorModel>(workload@),
        workload_outcome(Err(error)) == Err::<WorkloadModel, SiftErrorModel>(error@),
{
}

/// What was opened under the name of a file is read as that file.
pub proof fn law_files_are_opened_by_their_names<R: Read, O: Open<R>>(
    before: O,
    directory: String,
    mode: Mode,
    base: (Opened<R>, R),
    queries: (Opened<R>, R),
    truth: (Opened<R>, R),
    after: O,
) -> (between: (O, O))
    requires
        opened_in_turn(before, directory, mode, base, queries, truth, after),
    ensures
        O::gave(before, directory, "sift_base.fvecs", between.0, base.0),
        good_base(mode, base.0, base.1) ==> O::gave(
            between.0,
            directory,
            "sift_query.fvecs",
            between.1,
            queries.0,
        ),
        good_base(mode, base.0, base.1) && good_queries(mode, queries.0, queries.1) ==> O::gave(
            between.1,
            directory,
            "sift_groundtruth.ivecs",
            after,
            truth.0,
        ),
{
    let second = choose|second: O|
        {
            &&& #[trigger] O::gave(before, directory, "sift_base.fvecs", second, base.0)
            &&& if good_base(mode, base.0, base.1) {
                opened_rest(second, directory, mode, queries, truth, after)
            } else {
                after == second
            }
        };
    if good_base(mode, base.0, base.1) {
        let third = choose|third: O|
            {
                &&& #[trigger] O::gave(second, directory, "sift_query.fvecs", third, queries.0)
                &&& if good_queries(mode, queries.0, queries.1) {
                    O::gave(third, directory, "sift_groundtruth.ivecs", after, truth.0)
                } else {
                    after == third
                }
            };
        (second, third)
    } else {
        (second, second)
    }
}

/// What loading a file gives and shows is what any file gives and shows that it can be.
pub proof fn law_loading_tells_of_the_file<T, R: Read, W: Write>(
    opened: Opened<R>,
    end: R,
    result: Result<Vec<Vec<T>>, SiftError>,
    before: &Progress<W>,
    after: &Progress<W>,
    expected: nat,
    layout: Layout,
    rule: RowRule<T>,
    model: FileModel,
)
    requires
        file_loaded(opened, end, result, before, after, expected, layout, rule),
        opened.can_be(end, model),
    ensures
        opened.leaves(end),
        outcome(result) == loaded(model, expected, layout, rule),
        after.current() == loading_stage(before.current(), model, expected, layout, rule),
        after.sent_since(
            before,
            loading_lines(before.on_terminal(), model, expected, layout, rule),
        ),
{
}

/// What loading a corpus gives and shows is what any three files give and show that these
/// can be.
pub proof fn law_loading_tells_of_the_corpus<R: Read, W: Write>(
    base: (Opened<R>, R),
    queries: (Opened<R>, R),
    truth: (Opened<R>, R),
    result: Result<SiftWorkload, SiftError>,
    before: &Progress<W>,
    after: &Progress<W>,
    mode: Mode,
    base_model: FileModel,
    query_model: FileModel,
    truth_model: FileModel,
)
    requires
        base.0.can_be(base.1, base_model),
        queries.0.can_be(queries.1, query_model),
        truth.0.can_be(truth.1, truth_model),
    ensures
        corpus_given(base, queries, truth, result, mode) ==> workload_outcome(result)
            == corpus_of(mode, base_model, query_model, truth_model),
        corpus_loaded(base, queries, truth, result, before, after, mode) ==> {
            &&& workload_outcome(result) == corpus_of(mode, base_model, query_model, truth_model)
            &&& after.current() == corpus_stage(
                before.current(),
                mode,
                base_model,
                query_model,
                truth_model,
            )
            &&& after.sent_since(
                before,
                corpus_lines(
                    before.on_terminal(),
                    mode,
                    base_model,
                    query_model,
                    truth_model,
                ),
            )
        },
{
    assert(can_be_corpus(base, queries, truth, base_model, query_model, truth_model));
}

} // verus!
