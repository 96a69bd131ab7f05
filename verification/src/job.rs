use vstd::prelude::*;

use crate::time::Timestamp;

verus! {

/// Seconds in one hour; estimated durations are given in whole hours.
pub const SECS_PER_HOUR: i64 = 3600;

/// An immutable description of one piece of work: an identity, a label, the
/// latest moment it may finish, and how many hours it is expected to take.
pub struct Job {
    pub id: u64,
    pub description: String,
    pub max_end_date: Timestamp,
    pub estimated_time: u32,
}

impl Job {
    /// The derived earliest feasible start: the deadline minus the estimated
    /// duration, as exact instant arithmetic.
    pub open spec fn spec_start_date(self) -> int {
        self.max_end_date.secs - self.estimated_time * SECS_PER_HOUR
    }

    /// The derived start date fits the machine representation of a
    /// timestamp. It never lies above the deadline, so only the lower bound
    /// can fail.
    pub open spec fn start_date_representable(self) -> bool {
        i64::MIN <= self.spec_start_date()
    }

    /// The earliest moment this job can begin and still finish by its
    /// deadline.
    pub fn get_start_date(&self) -> (r: Timestamp)
        requires
            self.start_date_representable(),
        ensures
            r.secs == self.spec_start_date(),
    {
        let duration_secs: i64 = (self.estimated_time as i64) * SECS_PER_HOUR;
        Timestamp { secs: self.max_end_date.secs - duration_secs }
    }
}

impl Clone for Job {
    fn clone(&self) -> (r: Self)
        ensures
            r == *self,
    {
        Job {
            id: self.id,
            description: self.description.clone(),
            max_end_date: self.max_end_date,
            estimated_time: self.estimated_time,
        }
    }
}

} // verus!
