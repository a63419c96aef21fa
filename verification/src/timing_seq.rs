//! Delay models by name, and the errors of node delay computation.

use vstd::prelude::*;
use crate::text::{push_str, push_decimal, decimal, str_eq};

verus! {

#[derive(Clone, Copy, Debug, Eq, PartialEq, Structural)]
pub enum DelayModel {
    Unit,
    Library,
    UnitFanout,
    Mapped,
    Unknown,
    Tdc,
}

/// The delay model a name stands for: its C constant name or its short name.
pub open spec fn delay_model_named(s: Seq<char>) -> Option<DelayModel> {
    if s == "DELAY_MODEL_UNIT"@ || s == "unit"@ {
        Some(DelayModel::Unit)
    } else if s == "DELAY_MODEL_LIBRARY"@ || s == "library"@ {
        Some(DelayModel::Library)
    } else if s == "DELAY_MODEL_UNIT_FANOUT"@ || s == "unit-fanout"@ {
        Some(DelayModel::UnitFanout)
    } else if s == "DELAY_MODEL_MAPPED"@ || s == "mapped"@ {
        Some(DelayModel::Mapped)
    } else if s == "DELAY_MODEL_UNKNOWN"@ || s == "unknown"@ {
        Some(DelayModel::Unknown)
    } else if s == "DELAY_MODEL_TDC"@ || s == "tdc"@ {
        Some(DelayModel::Tdc)
    } else {
        None
    }
}

impl DelayModel {
    pub fn from_c_name(name: &str) -> (r: Option<Self>)
        ensures
            r == delay_model_named(name@),
    {
        if str_eq(name, "DELAY_MODEL_UNIT") || str_eq(name, "unit") {
            Some(DelayModel::Unit)
        } else if str_eq(name, "DELAY_MODEL_LIBRARY") || str_eq(name, "library") {
            Some(DelayModel::Library)
        } else if str_eq(name, "DELAY_MODEL_UNIT_FANOUT") || str_eq(name, "unit-fanout") {
            Some(DelayModel::UnitFanout)
        } else if str_eq(name, "DELAY_MODEL_MAPPED") || str_eq(name, "mapped") {
            Some(DelayModel::Mapped)
        } else if str_eq(name, "DELAY_MODEL_UNKNOWN") || str_eq(name, "unknown") {
            Some(DelayModel::Unknown)
        } else if str_eq(name, "DELAY_MODEL_TDC") || str_eq(name, "tdc") {
            Some(DelayModel::Tdc)
        } else {
            None
        }
    }
}

#[derive(Clone, Copy, Debug, Eq, PartialEq, Structural)]
pub enum NodeFunction {
    PrimaryInput,
    PrimaryOutput,
    Internal,
}

#[derive(Clone, Copy, Debug, Eq, PartialEq, Structural)]
pub enum TimingSeqDependency {
    NodeFunction,
    NodeFanout,
    LibraryGate,
    DelayMapSimulation,
}

#[derive(Clone, Debug, Eq, PartialEq)]
pub enum TimingSeqError {
    MissingMappedGate,
    PinArrivalCountMismatch { arrivals: usize, pins: usize },
    MissingDependency(TimingSeqDependency),
}

/// The message of an error.
pub open spec fn error_text(e: TimingSeqError) -> Seq<char> {
    match e {
        TimingSeqError::MissingMappedGate => "mapped gate data is not available"@,
        TimingSeqError::PinArrivalCountMismatch { arrivals, pins } => "pin arrival count ("@ + decimal(arrivals as nat)
            + ") does not match pin delay count ("@ + decimal(pins as nat) + ")"@,
        TimingSeqError::MissingDependency(d) => match d {
            TimingSeqDependency::NodeFunction => "node function data is not available"@,
            TimingSeqDependency::NodeFanout => "node fanout data is not available"@,
            TimingSeqDependency::LibraryGate => "mapped library gate data is not available"@,
            TimingSeqDependency::DelayMapSimulation => "delay map simulation is not available"@,
        },
    }
}

impl TimingSeqError {
    /// The message describing the error.
    pub fn message(&self) -> (r: String)
        ensures
            r@ == error_text(*self),
    {
        let mut s = String::new();
        match self {
            TimingSeqError::MissingMappedGate => push_str(&mut s, "mapped gate data is not available"),
            TimingSeqError::PinArrivalCountMismatch { arrivals, pins } => {
                push_str(&mut s, "pin arrival count (");
                push_decimal(&mut s, *arrivals as u64);
                push_str(&mut s, ") does not match pin delay count (");
                push_decimal(&mut s, *pins as u64);
                push_str(&mut s, ")");
            },
            TimingSeqError::MissingDependency(d) => match d {
                TimingSeqDependency::NodeFunction => push_str(&mut s, "node function data is not available"),
                TimingSeqDependency::NodeFanout => push_str(&mut s, "node fanout data is not available"),
                TimingSeqDependency::LibraryGate => push_str(&mut s, "mapped library gate data is not available"),
                TimingSeqDependency::DelayMapSimulation => push_str(&mut s, "delay map simulation is not available"),
            },
        }
        assert(s@ =~= error_text(*self));
        s
    }
}

} // verus!
