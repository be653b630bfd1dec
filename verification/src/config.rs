//! Settings of a run.

use std::path::PathBuf;
use vstd::prelude::*;
use vstd::string::StringExecFns;

use crate::checkpoint::SearchMode;
use crate::text::{append_decimal, decimal};

verus! {

/// The path type of std. It is only carried along.
#[verifier::external_type_specification]
#[verifier::external_body]
pub struct ExPathBuf(PathBuf);

/// What the user asks for.
#[derive(Debug)]
pub struct Cli {
    pub depth: usize,
    pub mode: SearchMode,
    pub cols: usize,
    pub output: PathBuf,
    pub checkpoint_interval: u64,
    pub parallel_tasks_per_thread: usize,
    /// The depth at which leaves that hit the target are recorded.
    pub max_depth: usize,
    pub target: Option<usize>,
}

impl Cli {
    /// What is wrong with the settings, if anything is: the first of several faults.
    pub open spec fn fault(&self, available_primes: usize) -> Option<Seq<char>> {
        if self.depth == 0 {
            Some("depth must be at least 1"@)
        } else if self.cols == 0 {
            Some("cols must be at least 1"@)
        } else if self.checkpoint_interval == 0 {
            Some("checkpoint-interval must be at least 1"@)
        } else if self.target matches Some(target) && target > self.cols {
            Some(
                "target ("@ + decimal(self.target.unwrap() as nat) + ") cannot exceed cols ("@
                    + decimal(self.cols as nat) + ")"@,
            )
        } else if self.depth > available_primes {
            Some(
                "depth ("@ + decimal(self.depth as nat) + ") cannot exceed available primes ("@
                    + decimal(available_primes as nat) + ")"@,
            )
        } else {
            None
        }
    }

    /// Refuses settings that cannot be searched.
    pub fn validate(&self, available_primes: usize) -> (valid: Result<(), String>)
        ensures
            match valid {
                Ok(_) => self.fault(available_primes) is None,
                Err(message) => self.fault(available_primes) == Some(message@),
            },
            valid is Ok <==> {
                &&& self.depth >= 1
                &&& self.cols >= 1
                &&& self.checkpoint_interval >= 1
                &&& self.target matches Some(target) ==> target <= self.cols
                &&& self.depth <= available_primes
            },
            valid matches Err(message) ==> message@ == if self.depth == 0 {
                "depth must be at least 1"@
            } else if self.cols == 0 {
                "cols must be at least 1"@
            } else if self.checkpoint_interval == 0 {
                "checkpoint-interval must be at least 1"@
            } else if self.target is Some && self.target.unwrap() > self.cols {
                "target ("@ + decimal(self.target.unwrap() as nat) + ") cannot exceed cols ("@
                    + decimal(self.cols as nat) + ")"@
            } else {
                "depth ("@ + decimal(self.depth as nat) + ") cannot exceed available primes ("@
                    + decimal(available_primes as nat) + ")"@
            },
    {
        if self.depth == 0 {
            return Err(String::from_str("depth must be at least 1"));
        }
        if self.cols == 0 {
            return Err(String::from_str("cols must be at least 1"));
        }
        if self.checkpoint_interval == 0 {
            return Err(String::from_str("checkpoint-interval must be at least 1"));
        }
        if let Some(target) = self.target {
            if target > self.cols {
                let mut message = String::from_str("target (");
                append_decimal(&mut message, target);
                message.append(") cannot exceed cols (");
                append_decimal(&mut message, self.cols);
                message.append(")");
                return Err(message);
            }
        }
        if self.depth > available_primes {
            let mut message = String::from_str("depth (");
            append_decimal(&mut message, self.depth);
            message.append(") cannot exceed available primes (");
            append_decimal(&mut message, available_primes);
            message.append(")");
            return Err(message);
        }
        Ok(())
    }

    /// The count whose leaves are to be recorded: the target, in a search down to its depth.
    pub fn recorded_target(&self) -> (target: Option<usize>)
        ensures
            target == if self.depth == self.max_depth {
                self.target
            } else {
                None
            },
    {
        if self.depth == self.max_depth {
            self.target
        } else {
            None
        }
    }
}

/// Settings are refused exactly where depth, columns or interval are zero, the target lies above the
/// number of columns, or there are too few primes for the depth.
pub proof fn law_settings_within_bounds_are_valid(cli: Cli, available_primes: usize)
    ensures
        cli.fault(available_primes) is None <==> {
            &&& cli.depth >= 1
            &&& cli.cols >= 1
            &&& cli.checkpoint_interval >= 1
            &&& cli.target matches Some(target) ==> target <= cli.cols
            &&& cli.depth <= available_primes
        },
{
}

} // verus!
