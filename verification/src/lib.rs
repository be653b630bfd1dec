//! Search for prime shift sequences that keep as many columns uncovered as possible.

pub mod accept;
pub mod bitmask;
pub mod bits;
pub mod checkpoint;
pub mod config;
pub mod gather;
pub mod guarantees;
pub mod nodes;
pub mod output;
pub mod parallel;
pub mod plan;
pub mod primes;
pub mod progress;
pub mod results;
pub mod resume;
pub mod search;
pub mod setup;
pub mod shift_table;
pub mod split;
pub mod text;
pub mod tree;
pub mod walk;

pub use bitmask::BitMask;
pub use checkpoint::{Checkpoint, Frame, ParallelInProgress, SearchError, SearchMode};
pub use config::Cli;
pub use output::{timestamped_name, with_timestamp};
pub use parallel::{ActiveJob, ParallelJob, ParallelSearchCtx, ParallelShared};
pub use plan::JobOutcome;
pub use primes::generate_primes;
pub use progress::ParallelProgress;
pub use results::SharedResults;
pub use search::State;
pub use shift_table::build_shift_table;
pub use split::WorkItem;
pub use text::append_decimal;
pub use walk::Walk;
