//! Resource-usage statistics: none are available, and the report says so.

use vstd::prelude::*;

verus! {

/// The report printed when no statistics are available.
pub const CPU_STATS_UNAVAILABLE_MESSAGE: &'static str = "Usage statistics not available\n";

/// The statistics report: always the "not available" message.
pub fn cpu_stats_report() -> (r: &'static str)
    ensures
        r == CPU_STATS_UNAVAILABLE_MESSAGE,
{
    CPU_STATS_UNAVAILABLE_MESSAGE
}

} // verus!
