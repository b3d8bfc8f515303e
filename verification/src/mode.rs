//! The fixed shape of the SIFT1M corpus, and how much of it a run takes.

use vstd::prelude::*;
use vstd::string::*;

verus! {

/// The components of a vector.
pub const DIMENSIONS: usize = 128;

/// The base vectors of the corpus.
pub const BASE_ROWS: usize = 1_000_000;

/// The query vectors of the corpus, and the rows of its ground truth.
pub const QUERY_ROWS: usize = 10_000;

/// The row ids in a row of the ground truth, and the denominator of every overlap.
pub const GROUND_TRUTH_WIDTH: usize = 100;

/// The size of the file of base vectors.
pub const BASE_BYTES: u64 = 516_000_000;

/// The size of the file of query vectors.
pub const QUERY_BYTES: u64 = 5_160_000;

/// The size of the file of ground truth.
pub const GROUND_TRUTH_BYTES: u64 = 4_040_000;

/// The base vectors that a smoke run keeps.
pub const SMOKE_BASE_ROWS: usize = 10_000;

/// The query vectors that a smoke run keeps.
pub const SMOKE_QUERY_ROWS: usize = 100;

/// Whether a run takes the whole corpus or a fixed small part of it.
#[derive(Debug, Clone, Copy, PartialEq, Eq, Structural)]
pub enum Mode {
    Full,
    Smoke,
}

/// How many base vectors a run keeps.
pub open spec fn kept_base(mode: Mode) -> nat {
    match mode {
        Mode::Full => BASE_ROWS as nat,
        Mode::Smoke => SMOKE_BASE_ROWS as nat,
    }
}

/// How many query vectors, and rows of the ground truth, a run keeps.
pub open spec fn kept_queries(mode: Mode) -> nat {
    match mode {
        Mode::Full => QUERY_ROWS as nat,
        Mode::Smoke => SMOKE_QUERY_ROWS as nat,
    }
}

/// What a run may be compared with.
pub open spec fn parity(mode: Mode) -> Seq<char> {
    match mode {
        Mode::Full => "bustub-sift1m"@,
        Mode::Smoke => "non-parity"@,
    }
}

impl Mode {
    /// How many base vectors the run keeps.
    pub fn base_rows(self) -> (rows: usize)
        ensures
            rows == kept_base(self),
    {
        match self {
            Mode::Full => BASE_ROWS,
            Mode::Smoke => SMOKE_BASE_ROWS,
        }
    }

    /// How many query vectors the run keeps.
    pub fn query_rows(self) -> (rows: usize)
        ensures
            rows == kept_queries(self),
    {
        match self {
            Mode::Full => QUERY_ROWS,
            Mode::Smoke => SMOKE_QUERY_ROWS,
        }
    }

    /// What the report calls the run.
    pub fn mode_label(self) -> (label: &'static str)
        ensures
            label@ == (match self {
                Mode::Full => "sift1m-full"@,
                Mode::Smoke => "sift1m-smoke"@,
            }),
    {
        match self {
            Mode::Full => "sift1m-full",
            Mode::Smoke => "sift1m-smoke",
        }
    }

    /// What the run may be compared with.
    pub fn parity_label(self) -> (label: &'static str)
        ensures
            label@ == parity(self),
    {
        match self {
            Mode::Full => "bustub-sift1m",
            Mode::Smoke => "non-parity",
        }
    }
}

/// Where the exact neighbours come from.
#[derive(Debug, Clone, Copy, PartialEq, Eq, Structural)]
pub enum Truth {
    SuppliedSift1m,
    RecomputedFlatSelectedBase,
}

impl Truth {
    /// What the report calls the exact neighbours.
    pub fn label(self) -> (label: &'static str)
        ensures
            label@ == (match self {
                Truth::SuppliedSift1m => "supplied-sift1m-top-100"@,
                Truth::RecomputedFlatSelectedBase => "recomputed-flat-selected-base-top-100"@,
            }),
    {
        match self {
            Truth::SuppliedSift1m => "supplied-sift1m-top-100",
            Truth::RecomputedFlatSelectedBase => "recomputed-flat-selected-base-top-100",
        }
    }
}

/// No run but a full one claims to be comparable.
pub proof fn law_only_full_runs_claim_parity(mode: Mode)
    ensures
        parity(mode) == parity(Mode::Full) <==> mode == Mode::Full,
{
    reveal_strlit("bustub-sift1m");
    reveal_strlit("non-parity");
    assert("bustub-sift1m"@.len() != "non-parity"@.len());
}

/// Every run keeps something, no run keeps more than there is, and only a full run keeps
/// everything.
pub proof fn law_kept_rows(mode: Mode)
    ensures
        0 < kept_base(mode) <= BASE_ROWS,
        0 < kept_queries(mode) <= QUERY_ROWS,
        kept_base(mode) == BASE_ROWS <==> mode == Mode::Full,
        kept_queries(mode) == QUERY_ROWS <==> mode == Mode::Full,
{
}

/// The corpus has a million base vectors and ten thousand query vectors of 128 components,
/// and a hundred exact neighbours for each query. A full run keeps all of it, and a smoke run
/// a hundredth.
pub proof fn law_corpus_numbers(mode: Mode)
    ensures
        DIMENSIONS == 128,
        GROUND_TRUTH_WIDTH == 100,
        kept_base(Mode::Full) == 1_000_000,
        kept_queries(Mode::Full) == 10_000,
        100 * kept_base(Mode::Smoke) == kept_base(Mode::Full),
        100 * kept_queries(Mode::Smoke) == kept_queries(Mode::Full),
        mode != Mode::Full ==> kept_base(mode) == kept_base(Mode::Smoke),
        mode != Mode::Full ==> kept_queries(mode) == kept_queries(Mode::Smoke),
        BASE_BYTES == kept_base(Mode::Full) * (4 + 4 * DIMENSIONS),
        QUERY_BYTES == kept_queries(Mode::Full) * (4 + 4 * DIMENSIONS),
        GROUND_TRUTH_BYTES == kept_queries(Mode::Full) * (4 + 4 * GROUND_TRUTH_WIDTH),
{
}

/// A full run may be compared with its model by name; any other run says that it may not.
pub proof fn law_parity_names(mode: Mode)
    ensures
        parity(Mode::Full) == "bustub-sift1m"@,
        mode != Mode::Full ==> parity(mode) == "non-parity"@,
{
}

} // verus!
