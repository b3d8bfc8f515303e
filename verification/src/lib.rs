//! Support code for a nearest-neighbour benchmark over the SIFT1M corpus: its command
//! line, the checked loading of the corpus, best-effort progress, a balanced measurement
//! loop, and the quality measures. Beside it stands the selection of the course's tests.

pub mod cli;
pub mod clock;
pub mod corpus;
pub mod encoding;
pub mod error;
pub mod io;
pub mod mode;
pub mod opener;
pub mod progress;
pub mod quality;
pub mod records;
pub mod runner;
pub mod search;
pub mod selector;
pub mod text;
pub mod verdict;

pub use crate::cli::{Cli, parse_cli};
pub use crate::corpus::{Opened, SiftWorkload, load_sift1m, load_sift1m_with_progress};
pub use crate::error::SiftError;
pub use crate::mode::{Mode, Truth};
pub use crate::opener::{Open, Opening};
pub use crate::progress::Progress;
pub use crate::quality::{FirstHit, first_hit, overlap_at_100, percentile};
pub use crate::runner::{TimedRun, run_balanced, run_balanced_with_progress};
pub use crate::search::{Search, Searching};
