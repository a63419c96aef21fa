//! The fast optimal-clock computation's outcomes; it needs the latch graph
//! and the network clock, which this library does not model, so its entry
//! point reports that.

use vstd::prelude::*;
use crate::text::push_str;

verus! {

#[derive(Clone, Copy, Debug, Eq, PartialEq, Structural)]
pub enum TimingFastCompStatus {
    Feasible,
    Solve,
}

#[derive(Clone, Copy, Debug, Eq, PartialEq, Structural)]
pub enum ExteriorPathStatus {
    NegativeCycle,
    Infeasible,
    AllPositiveCycles,
}

#[derive(Clone, Copy, Debug, Eq, PartialEq, Structural)]
pub enum TimingFastCompError {
    MissingTimingGraph,
    MissingTimingUtilities,
    MissingNetworkClock,
}

/// The message of an error.
pub open spec fn error_text(e: TimingFastCompError) -> Seq<char> {
    match e {
        TimingFastCompError::MissingTimingGraph => "timing graph types are not available"@,
        TimingFastCompError::MissingTimingUtilities => "timing utility routines are not available"@,
        TimingFastCompError::MissingNetworkClock => "network clock update routines are not available"@,
    }
}

impl TimingFastCompError {
    /// The message describing the error.
    pub fn message(&self) -> (r: String)
        ensures
            r@ == error_text(*self),
    {
        let mut s = String::new();
        match self {
            TimingFastCompError::MissingTimingGraph => push_str(&mut s, "timing graph types are not available"),
            TimingFastCompError::MissingTimingUtilities => push_str(&mut s, "timing utility routines are not available"),
            TimingFastCompError::MissingNetworkClock => push_str(&mut s, "network clock update routines are not available"),
        }
        assert(s@ =~= error_text(*self));
        s
    }
}

/// Writing solved clock positions back into a network needs the network
/// clock, which is not modelled: always that error.
pub fn update_circuit_clock() -> (r: Result<(), TimingFastCompError>)
    ensures
        r == Err::<(), TimingFastCompError>(TimingFastCompError::MissingNetworkClock),
{
    Err(TimingFastCompError::MissingNetworkClock)
}

} // verus!
