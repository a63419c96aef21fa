//! The shutdown hook of the test package: it does nothing.

use vstd::prelude::*;

verus! {

/// What the shutdown hook does.
#[derive(Clone, Copy, Debug, Eq, PartialEq, Structural)]
pub enum EndTestDisposition {
    NoOp,
}

/// Why the hook exists.
pub const END_TEST_RATIONALE: &'static str = "end_test is an empty shutdown hook.";

/// Runs the shutdown hook: nothing happens.
pub fn end_test() -> (r: EndTestDisposition)
    ensures
        r == EndTestDisposition::NoOp,
{
    EndTestDisposition::NoOp
}

/// Whether the shutdown hook does nothing (it always does nothing).
pub fn end_test_is_noop() -> (r: bool)
    ensures
        r,
{
    end_test() == EndTestDisposition::NoOp
}

} // verus!
