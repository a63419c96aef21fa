use sis_native::stg_sc_sim::{
    evaluate_node, evaluate_single_cube_and, required_value_for_fanin, stg_sc_sim, LogicValue,
    StgNodeData, StgScSimError, CHANGED, MAX_ELENGTH,
};

#[test]
fn cube_literal_bits_map_to_required_fanin_values() {
    let cube = 0b101;

    assert_eq!(required_value_for_fanin(cube, 0), LogicValue::One);
    assert_eq!(required_value_for_fanin(cube, 1), LogicValue::Zero);
    assert_eq!(required_value_for_fanin(cube, 2), LogicValue::One);
    assert_eq!(LogicValue::One.as_c_value(), 1);
    assert_eq!(LogicValue::Unknown.state_char(), '-');
    assert_eq!(LogicValue::try_from(2), Ok(LogicValue::Unknown));
    assert_eq!(
        LogicValue::try_from(3),
        Err(StgScSimError::InvalidLogicValue(3))
    );
}

#[test]
fn single_cube_and_matches_c_covered_value_behavior() {
    let cube = 0b101;

    assert_eq!(
        evaluate_single_cube_and(cube, &[LogicValue::One, LogicValue::Zero, LogicValue::One]),
        LogicValue::One
    );
    assert_eq!(
        evaluate_single_cube_and(cube, &[LogicValue::One, LogicValue::One, LogicValue::One]),
        LogicValue::Zero
    );
    assert_eq!(
        evaluate_single_cube_and(cube, &[LogicValue::One, LogicValue::Unknown, LogicValue::One]),
        LogicValue::Unknown
    );
    assert_eq!(
        evaluate_single_cube_and(cube, &[LogicValue::Unknown, LogicValue::One, LogicValue::One]),
        LogicValue::Zero
    );
}

#[test]
fn node_evaluation_updates_value_and_changed_flag_only_on_change() {
    let mut node = StgNodeData::with_cube(0b01);

    assert_eq!(
        evaluate_node(&mut node, 0, &[LogicValue::One, LogicValue::Zero]),
        Ok(LogicValue::One)
    );
    assert_eq!(node.value_at(0), Ok(LogicValue::One));
    assert_eq!(node.flags_at(0), Ok(CHANGED));

    node.jflag[0] = 0;
    assert_eq!(
        evaluate_node(&mut node, 0, &[LogicValue::One, LogicValue::Zero]),
        Ok(LogicValue::One)
    );
    assert_eq!(node.flags_at(0), Ok(0));

    assert_eq!(
        evaluate_node(&mut node, MAX_ELENGTH, &[LogicValue::One]),
        Err(StgScSimError::InvalidCycleId {
            cid: MAX_ELENGTH,
            max_exclusive: MAX_ELENGTH,
        })
    );
}

#[test]
fn top_level_scheduler_reports_blocked_native_dependencies() {
    let error = stg_sc_sim(0).expect_err("network scheduler should be blocked");
    let StgScSimError::MissingNetworkNodePorts { dependencies } = error else {
        panic!("unexpected error kind");
    };

    assert!(dependencies.iter().any(|dependency| {
        dependency.bead == "levelization" && dependency.c_file == "level_c"
    }));
    assert!(dependencies.iter().any(|dependency| {
        dependency.bead == "enumeration-globals" && dependency.c_file == "senum_main"
    }));
    assert!(dependencies.iter().any(|dependency| {
        dependency.bead == "fanin-fanout" && dependency.c_file == "node"
    }));
}

#[test]
fn stg_sc_sim_unknown_after_changed_keeps_flags() {
    let mut node = StgNodeData::with_cube(0b1);
    assert_eq!(node.value_at(35), Ok(LogicValue::Unknown));
    assert_eq!(
        node.value_at(36),
        Err(StgScSimError::InvalidCycleId { cid: 36, max_exclusive: MAX_ELENGTH })
    );
    node.jflag[3] = 4;
    assert_eq!(
        evaluate_node(&mut node, 3, &[LogicValue::Zero]),
        Ok(LogicValue::Zero)
    );
    assert_eq!(node.flags_at(3), Ok(4 | CHANGED));
    assert_eq!(evaluate_single_cube_and(0, &[]), LogicValue::One);
    assert_eq!(LogicValue::from_bool(false), LogicValue::Zero);
}

#[test]
fn long_fanin_lists_stop_at_an_early_conflict() {
    let mut values = vec![LogicValue::Unknown; 70];
    values[3] = LogicValue::Zero;
    assert_eq!(evaluate_single_cube_and(0b1000, &values), LogicValue::Zero);
}
