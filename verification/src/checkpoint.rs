//! Positions of a search and the checkpoints that record them.

use vstd::prelude::*;
use vstd::string::StringExecFns;

use crate::results::{copy_path, paths};
use crate::text::{append_decimal, decimal};
use crate::tree::Tally;

verus! {

/// How the tree is searched.
#[derive(Copy, Clone, Debug, PartialEq, Eq, Structural)]
pub enum SearchMode {
    Sequential,
    Parallel,
}

impl Default for SearchMode {
    fn default() -> (mode: Self)
        ensures
            mode == SearchMode::Parallel,
    {
        SearchMode::Parallel
    }
}

/// The children of a node that are still to be visited: those below `next_idx`.
#[derive(Copy, Clone, Debug, PartialEq, Eq, Structural)]
pub struct Frame {
    pub level: usize,
    pub next_idx: usize,
}

/// The position of a job of a parallel search.
#[derive(Debug)]
pub struct ParallelInProgress {
    pub work_index: usize,
    pub stack: Vec<Frame>,
    pub key: Vec<usize>,
}

impl Clone for ParallelInProgress {
    fn clone(&self) -> (copy: Self)
        ensures
            copy.work_index == self.work_index,
            copy.stack@ == self.stack@,
            copy.key@ == self.key@,
    {
        ParallelInProgress {
            work_index: self.work_index,
            stack: copy_stack(&self.stack),
            key: copy_path(&self.key),
        }
    }
}

/// All that is needed to continue a search.
#[derive(Debug)]
pub struct Checkpoint {
    pub mode: SearchMode,
    pub depth: usize,
    pub primes: Vec<usize>,
    pub cols: usize,
    pub stack: Vec<Frame>,
    pub key: Vec<usize>,
    pub max_count: usize,
    pub results: usize,
    pub shifts: Vec<Vec<usize>>,
    pub target_results: usize,
    pub target_shifts: Vec<Vec<usize>>,
    pub node_count: u64,
    pub split_depth: usize,
    pub completed: Vec<usize>,
    pub in_progress: Vec<ParallelInProgress>,
}

impl Checkpoint {
    /// What had been found.
    pub open spec fn tally(&self) -> Tally {
        Tally {
            max: self.max_count as nat,
            shifts: paths(self.shifts@),
            target_shifts: paths(self.target_shifts@),
        }
    }

    /// Both counters say how long their lists are.
    pub open spec fn counters_fit(&self) -> bool {
        &&& self.results == self.shifts@.len()
        &&& self.target_results == self.target_shifts@.len()
    }
}

/// Why a search cannot continue from a checkpoint.
#[derive(Copy, Clone, Debug, PartialEq, Eq, Structural)]
pub enum SearchError {
    /// A sequential search was given a checkpoint of a parallel one.
    ParallelCheckpoint,
    /// A parallel search was given a checkpoint of a sequential one.
    SequentialCheckpoint,
    /// The checkpoint, whose depth and columns are given, belongs to another search.
    ConfigMismatch { depth: usize, cols: usize },
    /// A stack frame lies below the last level.
    InvalidFrameLevel,
    /// The tree was split below the depth of the search.
    SplitBelowDepth,
    /// A job in progress does not exist.
    WorkIndexOutOfRange,
    /// A job is both completed and in progress.
    WorkIndexOverlap,
}

impl SearchError {
    /// What the user is told.
    pub open spec fn text(self) -> Seq<char> {
        match self {
            SearchError::ParallelCheckpoint =>
                "並列モードのチェックポイントは --mode parallel でのみ再開できます"@,
            SearchError::SequentialCheckpoint =>
                "逐次モードのチェックポイントは --mode sequential でのみ再開できます"@,
            SearchError::ConfigMismatch { depth, cols } =>
                "チェックポイントの探索設定が現在の設定と一致しません (depth="@
                + decimal(depth as nat) + ", cols="@ + decimal(cols as nat) + ")"@,
            SearchError::InvalidFrameLevel => "Invalid stack frame level"@,
            SearchError::SplitBelowDepth =>
                "チェックポイントの split_depth が depth を超えています"@,
            SearchError::WorkIndexOutOfRange =>
                "チェックポイントの work_index が範囲外です"@,
            SearchError::WorkIndexOverlap =>
                "チェックポイントで完了済みと実行中の work_index が重複しています"@,
        }
    }

    /// What the user is told.
    pub fn message(&self) -> (text: String)
        ensures
            text@ == self.text(),
            text@ == match *self {
                SearchError::ParallelCheckpoint =>
                    "並列モードのチェックポイントは --mode parallel でのみ再開できます"@,
                SearchError::SequentialCheckpoint =>
                    "逐次モードのチェックポイントは --mode sequential でのみ再開できます"@,
                SearchError::ConfigMismatch { depth, cols } =>
                    "チェックポイントの探索設定が現在の設定と一致しません (depth="@
                    + decimal(depth as nat) + ", cols="@ + decimal(cols as nat) + ")"@,
                SearchError::InvalidFrameLevel => "Invalid stack frame level"@,
                SearchError::SplitBelowDepth =>
                    "チェックポイントの split_depth が depth を超えています"@,
                SearchError::WorkIndexOutOfRange =>
                    "チェックポイントの work_index が範囲外です"@,
                SearchError::WorkIndexOverlap =>
                    "チェックポイントで完了済みと実行中の work_index が重複しています"@,
            },
    {
        match self {
            SearchError::ParallelCheckpoint => String::from_str(
                "並列モードのチェックポイントは --mode parallel でのみ再開できます",
            ),
            SearchError::SequentialCheckpoint => String::from_str(
                "逐次モードのチェックポイントは --mode sequential でのみ再開できます",
            ),
            SearchError::ConfigMismatch { depth, cols } => {
                let mut text = String::from_str(
                    "チェックポイントの探索設定が現在の設定と一致しません (depth=",
                );
                append_decimal(&mut text, *depth);
                text.append(", cols=");
                append_decimal(&mut text, *cols);
                text.append(")");
                text
            },
            SearchError::InvalidFrameLevel => String::from_str("Invalid stack frame level"),
            SearchError::SplitBelowDepth => String::from_str(
                "チェックポイントの split_depth が depth を超えています",
            ),
            SearchError::WorkIndexOutOfRange => String::from_str(
                "チェックポイントの work_index が範囲外です",
            ),
            SearchError::WorkIndexOverlap => String::from_str(
                "チェックポイントで完了済みと実行中の work_index が重複しています",
            ),
        }
    }
}

/// A copy of a stack.
pub fn copy_stack(stack: &Vec<Frame>) -> (copy: Vec<Frame>)
    ensures
        copy@ == stack@,
{
    let mut copy: Vec<Frame> = Vec::new();
    let mut i: usize = 0;
    while i < stack.len()
        invariant
            0 <= i <= stack@.len(),
            copy@ == stack@.take(i as int),
        decreases stack@.len() - i,
    {
        copy.push(stack[i]);
        i = i + 1;
    }
    assert(stack@.take(i as int) =~= stack@);
    copy
}

} // verus!
