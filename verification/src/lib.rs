//! Deterministic batching of time-bounded jobs inside a fixed scheduling
//! window: jobs carry a deadline and an estimated duration, a window admits a
//! job when its derived start date and its deadline both fall inside the
//! range, and the scheduler filters, sorts by deadline, and packs the result
//! into groups bounded by a cumulative-duration capacity.

pub mod job;
pub mod laws;
pub mod schedule;
pub mod sort;
pub mod time;
pub mod window;

pub use job::Job;
pub use schedule::Schedule;
pub use time::Timestamp;
pub use window::ExecutionWindow;
