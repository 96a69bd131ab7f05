use vstd::prelude::*;

use crate::job::Job;
use crate::time::Timestamp;

verus! {

/// An inclusive time range. A degenerate window, whose start lies after its
/// end, contains no instant at all, so every membership test on it fails
/// silently.
pub struct ExecutionWindow {
    pub start: Timestamp,
    pub end: Timestamp,
}

impl ExecutionWindow {
    /// Instant `t` lies in the inclusive range `[start, end]`.
    pub open spec fn spec_contains(self, t: int) -> bool {
        self.start.secs <= t && t <= self.end.secs
    }

    /// Strict containment of the job's whole feasible span: both the derived
    /// start date and the deadline lie inside the window. Partial overlap is
    /// not enough.
    pub open spec fn spec_is_within(self, job: Job) -> bool {
        self.spec_contains(job.spec_start_date()) && self.spec_contains(
            job.max_end_date.secs as int,
        )
    }

    fn check_date(&self, date: &Timestamp) -> (r: bool)
        ensures
            r == self.spec_contains(date.secs as int),
    {
        self.start.secs <= date.secs && date.secs <= self.end.secs
    }

    /// Whether the job is eligible for this window: true exactly when its
    /// derived start date and its deadline both lie in `[start, end]`.
    pub fn is_within(&self, job: &Job) -> (r: bool)
        requires
            job.start_date_representable(),
        ensures
            r == self.spec_is_within(*job),
    {
        let start_date = job.get_start_date();
        self.check_date(&start_date) && self.check_date(&job.max_end_date)
    }
}

} // verus!
