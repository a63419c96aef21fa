//! The clock-event numbering of latches and the errors of the optimal clock
//! computation.

use vstd::prelude::*;
use crate::text::{push_str, push_decimal, decimal};

verus! {

/// The value of a latch field that has not been set.
pub const NOT_SET: i32 = -2;

#[derive(Clone, Copy, Debug, Eq, Hash, PartialEq, Structural)]
pub struct LatchNodeId(pub usize);

#[derive(Clone, Copy, Debug, Eq, Hash, PartialEq, Structural)]
pub struct ConstraintNodeId(pub usize);

#[derive(Clone, Copy, Debug, Eq, Hash, PartialEq, Structural)]
pub struct ConstraintEdgeId(pub usize);

#[derive(Clone, Copy, Debug, Eq, PartialEq, Structural)]
pub enum ClockConstraintMode {
    Feasible,
    Solve,
}

#[derive(Clone, Copy, Debug, Eq, PartialEq, Structural)]
pub enum ExteriorPathStatus {
    NegativeCycle,
    Infeasible,
    AllPositiveCycles,
}

#[derive(Clone, Copy, Debug, Eq, PartialEq, Structural)]
pub enum LatchNodeKind {
    NetworkIo,
    NetworkNode,
    Latch,
}

#[derive(Clone, Copy, Debug, Eq, PartialEq, Structural)]
pub enum LatchType {
    FallingEdgeFlipFlop,
    RisingEdgeFlipFlop,
    ActiveHighLevelSensitive,
    ActiveLowLevelSensitive,
}

impl LatchType {
    /// The clock event a latch of this type is released by: the rising
    /// event of its phase for rising-edge and active-high latches, else the
    /// falling one (numbered after all rising events).
    pub fn from_event(self, phase: usize, phase_count: usize) -> (r: usize)
        requires
            phase + phase_count <= usize::MAX,
        ensures
            r == (match self {
                LatchType::RisingEdgeFlipFlop | LatchType::ActiveHighLevelSensitive => phase as int,
                LatchType::FallingEdgeFlipFlop | LatchType::ActiveLowLevelSensitive => phase + phase_count,
            }),
    {
        match self {
            LatchType::RisingEdgeFlipFlop | LatchType::ActiveHighLevelSensitive => phase,
            LatchType::FallingEdgeFlipFlop | LatchType::ActiveLowLevelSensitive => phase + phase_count,
        }
    }

    /// The clock event that closes a latch of this type: the rising event
    /// for rising-edge and active-low latches, else the falling one.
    pub fn to_event(self, phase: usize, phase_count: usize) -> (r: usize)
        requires
            phase + phase_count <= usize::MAX,
        ensures
            r == (match self {
                LatchType::RisingEdgeFlipFlop | LatchType::ActiveLowLevelSensitive => phase as int,
                LatchType::FallingEdgeFlipFlop | LatchType::ActiveHighLevelSensitive => phase + phase_count,
            }),
    {
        match self {
            LatchType::RisingEdgeFlipFlop | LatchType::ActiveLowLevelSensitive => phase,
            LatchType::FallingEdgeFlipFlop | LatchType::ActiveHighLevelSensitive => phase + phase_count,
        }
    }
}

/// The rising and falling events of a clock phase.
#[derive(Clone, Copy, Debug, Eq, PartialEq, Structural)]
pub struct Phase {
    pub rise: ConstraintNodeId,
    pub fall: ConstraintNodeId,
}

#[derive(Clone, Debug, Eq, PartialEq)]
pub enum TimingCompError {
    EmptyGraph,
    UnknownLatchNode(LatchNodeId),
    UnknownConstraintNode(ConstraintNodeId),
    UnknownConstraintEdge(ConstraintEdgeId),
    UnknownEventIndex(usize),
    InvalidPhase { node: LatchNodeId, phase: usize, phase_count: usize },
    NonLatchConstraintNode(LatchNodeId),
    ClockNetworkPhaseMismatch { expected: usize, actual: usize },
    Infeasible,
}

/// `Name(n)`, as an id is shown.
pub open spec fn id_text(name: Seq<char>, n: usize) -> Seq<char> {
    name + "("@ + decimal(n as nat) + ")"@
}

/// The message of an error.
pub open spec fn error_text(e: TimingCompError) -> Seq<char> {
    match e {
        TimingCompError::EmptyGraph => "timing graph is empty"@,
        TimingCompError::UnknownLatchNode(id) => "unknown latch graph node "@ + id_text("LatchNodeId"@, id.0),
        TimingCompError::UnknownConstraintNode(id) => "unknown constraint graph node "@ + id_text("ConstraintNodeId"@, id.0),
        TimingCompError::UnknownConstraintEdge(id) => "unknown constraint graph edge "@ + id_text("ConstraintEdgeId"@, id.0),
        TimingCompError::UnknownEventIndex(i) => "unknown constraint event index "@ + decimal(i as nat),
        TimingCompError::InvalidPhase { node, phase, phase_count } => "latch node "@ + id_text("LatchNodeId"@, node.0)
            + " has phase "@ + decimal(phase as nat) + ", but graph has "@ + decimal(phase_count as nat) + " phases"@,
        TimingCompError::NonLatchConstraintNode(id) => "latch node "@ + id_text("LatchNodeId"@, id.0)
            + " does not map to a clock event"@,
        TimingCompError::ClockNetworkPhaseMismatch { expected, actual } => "clock network has "@ + decimal(actual as nat)
            + " phases, but constraint graph has "@ + decimal(expected as nat),
        TimingCompError::Infeasible => "clock constraints are infeasible"@,
    }
}

fn push_id(s: &mut String, name: &str, n: usize)
    ensures
        final(s)@ == old(s)@ + id_text(name@, n),
{
    push_str(s, name);
    push_str(s, "(");
    push_decimal(s, n as u64);
    push_str(s, ")");
    assert(final(s)@ =~= old(s)@ + id_text(name@, n));
}

impl TimingCompError {
    /// The message describing the error.
    pub fn message(&self) -> (r: String)
        ensures
            r@ == error_text(*self),
    {
        let mut s = String::new();
        match self {
            TimingCompError::EmptyGraph => push_str(&mut s, "timing graph is empty"),
            TimingCompError::UnknownLatchNode(id) => {
                push_str(&mut s, "unknown latch graph node ");
                push_id(&mut s, "LatchNodeId", id.0);
            },
            TimingCompError::UnknownConstraintNode(id) => {
                push_str(&mut s, "unknown constraint graph node ");
                push_id(&mut s, "ConstraintNodeId", id.0);
            },
            TimingCompError::UnknownConstraintEdge(id) => {
                push_str(&mut s, "unknown constraint graph edge ");
                push_id(&mut s, "ConstraintEdgeId", id.0);
            },
            TimingCompError::UnknownEventIndex(i) => {
                push_str(&mut s, "unknown constraint event index ");
                push_decimal(&mut s, *i as u64);
            },
            TimingCompError::InvalidPhase { node, phase, phase_count } => {
                push_str(&mut s, "latch node ");
                push_id(&mut s, "LatchNodeId", node.0);
                push_str(&mut s, " has phase ");
                push_decimal(&mut s, *phase as u64);
                push_str(&mut s, ", but graph has ");
                push_decimal(&mut s, *phase_count as u64);
                push_str(&mut s, " phases");
            },
            TimingCompError::NonLatchConstraintNode(id) => {
                push_str(&mut s, "latch node ");
                push_id(&mut s, "LatchNodeId", id.0);
                push_str(&mut s, " does not map to a clock event");
            },
            TimingCompError::ClockNetworkPhaseMismatch { expected, actual } => {
                push_str(&mut s, "clock network has ");
                push_decimal(&mut s, *actual as u64);
                push_str(&mut s, " phases, but constraint graph has ");
                push_decimal(&mut s, *expected as u64);
            },
            TimingCompError::Infeasible => push_str(&mut s, "clock constraints are infeasible"),
        }
        assert(s@ =~= error_text(*self));
        s
    }
}

} // verus!
