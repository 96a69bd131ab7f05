use vstd::prelude::*;

verus! {

/// An absolute point in time, counted in whole seconds from a fixed epoch.
///
/// Arithmetic and comparison on this representation act on the instant
/// itself, so subtracting a duration or comparing two timestamps is immune to
/// civil-time artifacts such as daylight-saving transitions or offset
/// changes.
#[derive(Clone, Copy, PartialEq, Eq, Structural, Debug)]
pub struct Timestamp {
    pub secs: i64,
}

} // verus!
