//! The decisions of a batch of timed runs: which outcome ends the batch, and
//! what the finished batch reports.
use vstd::prelude::*;

use crate::stats::{is_floor_sqrt, mean_of, statistics, variance_of};

verus! {

/// What one run of the target program gave.
#[derive(Debug)]
pub enum RunOutcome {
    /// The program could not be started; holds the reason.
    SpawnFailed(String),
    /// The program ran for `elapsed` nanoseconds and exited, successfully or
    /// not; `status` describes how it exited.
    Exited { success: bool, status: String, elapsed: u64 },
}

/// Why a batch failed. The timings of the batch are lost.
#[derive(Debug)]
pub enum ExecError {
    /// The program could not be started; holds the reason.
    Spawn(String),
    /// The program failed and failures are not tolerated; holds how it exited.
    Failed(String),
}

/// A batch of repetitions in progress: the timings so far.
pub struct Batch {
    count: usize,
    ignore_failure: bool,
    durations: Vec<u64>,
}

impl Batch {
    pub closed spec fn count(&self) -> nat {
        self.count as nat
    }

    pub closed spec fn ignores_failure(&self) -> bool {
        self.ignore_failure
    }

    /// The timings recorded so far, in nanoseconds.
    pub closed spec fn durations(&self) -> Seq<u64> {
        self.durations@
    }

    /// A batch of `count` runs, none made yet.
    pub fn new(count: usize, ignore_failure: bool) -> (r: Batch)
        ensures
            r.count() == count,
            r.ignores_failure() == ignore_failure,
            r.durations() == Seq::<u64>::empty(),
    {
        Batch { count, ignore_failure, durations: Vec::new() }
    }

    /// Whether every run of the batch has been made.
    pub fn is_done(&self) -> (r: bool)
        ensures
            r == (self.durations().len() >= self.count()),
    {
        self.durations.len() >= self.count
    }

    /// Takes the outcome of the next run. A program that could not start ends
    /// the batch; so does one that failed, unless failures are tolerated;
    /// otherwise its time is kept.
    pub fn record(self, outcome: RunOutcome) -> (r: Result<Batch, ExecError>)
        ensures
            match outcome {
                RunOutcome::SpawnFailed(m) => r matches Err(ExecError::Spawn(x)) && x == m,
                RunOutcome::Exited { success, status, elapsed } => if !success
                    && !self.ignores_failure() {
                    r matches Err(ExecError::Failed(x)) && x == status
                } else {
                    r matches Ok(b) && b.count() == self.count() && b.ignores_failure()
                        == self.ignores_failure() && b.durations() == self.durations().push(
                        elapsed,
                    )
                },
            },
    {
        match outcome {
            RunOutcome::SpawnFailed(m) => Err(ExecError::Spawn(m)),
            RunOutcome::Exited { success, status, elapsed } => {
                if !success && !self.ignore_failure {
                    Err(ExecError::Failed(status))
                } else {
                    let mut b = self;
                    b.durations.push(elapsed);
                    Ok(b)
                }
            },
        }
    }

    /// The mean and population standard deviation of the batch's timings, in
    /// nanoseconds; both zero for a batch of no runs.
    pub fn finish(&self) -> (r: (u64, u64))
        ensures
            r.0 == mean_of(self.durations()),
            is_floor_sqrt(r.1 as int, variance_of(self.durations())),
    {
        statistics(&self.durations)
    }
}

} // verus!
