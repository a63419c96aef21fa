use sis_native::timing_comp::{LatchNodeId, LatchType, TimingCompError, NOT_SET};
use sis_native::timing_fast_comp::{update_circuit_clock, TimingFastCompError};
use sis_native::timing_seq::{DelayModel, TimingSeqError};

#[test]
fn latch_type_event_mapping_matches_c_macros() {
    assert_eq!(LatchType::RisingEdgeFlipFlop.from_event(0, 3), 0);
    assert_eq!(LatchType::ActiveHighLevelSensitive.from_event(1, 3), 1);
    assert_eq!(LatchType::FallingEdgeFlipFlop.from_event(0, 3), 3);
    assert_eq!(LatchType::ActiveLowLevelSensitive.from_event(2, 3), 5);
    assert_eq!(LatchType::RisingEdgeFlipFlop.to_event(0, 3), 0);
    assert_eq!(LatchType::ActiveLowLevelSensitive.to_event(1, 3), 1);
    assert_eq!(LatchType::FallingEdgeFlipFlop.to_event(0, 3), 3);
    assert_eq!(LatchType::ActiveHighLevelSensitive.to_event(2, 3), 5);
}

#[test]
fn delay_models_are_found_by_c_and_short_names() {
    assert_eq!(DelayModel::from_c_name("DELAY_MODEL_UNIT"), Some(DelayModel::Unit));
    assert_eq!(DelayModel::from_c_name("DELAY_MODEL_MAPPED"), Some(DelayModel::Mapped));
    assert_eq!(DelayModel::from_c_name("unit-fanout"), Some(DelayModel::UnitFanout));
    assert_eq!(DelayModel::from_c_name("tdc"), Some(DelayModel::Tdc));
    assert_eq!(DelayModel::from_c_name("other"), None);
}

#[test]
fn timing_errors_describe_themselves() {
    assert_eq!(NOT_SET, -2);
    assert_eq!(
        TimingCompError::InvalidPhase { node: LatchNodeId(4), phase: 2, phase_count: 1 }.message(),
        "latch node LatchNodeId(4) has phase 2, but graph has 1 phases"
    );
    assert_eq!(
        TimingSeqError::PinArrivalCountMismatch { arrivals: 3, pins: 2 }.message(),
        "pin arrival count (3) does not match pin delay count (2)"
    );
    assert_eq!(update_circuit_clock(), Err(TimingFastCompError::MissingNetworkClock));
}
