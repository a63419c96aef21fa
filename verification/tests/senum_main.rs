use sis_native::senum_main::{
    initial_state_encoding, prepare_extraction, remove_control_logic, stg_extract,
    validate_network, validate_single_initial_state, ClockRelation, ControlRemoval,
    ExtractionMode, InputPhase, LatchSynchType, NetworkNode, NodeKind, SenumError, SenumLatch,
    SenumNetwork, ValidNetwork,
};

fn clock(name: &str) -> String {
    name.to_owned()
}

fn latch(control: Option<usize>, synch_type: LatchSynchType, initial_value: i32) -> SenumLatch {
    SenumLatch {
        control,
        synch_type,
        initial_value,
    }
}

#[test]
fn validation_rejects_multiple_clocks_and_non_edge_latches() {
    let network = SenumNetwork::new(
        vec![],
        vec![],
        vec![clock("clk_a"), clock("clk_b")],
        0,
        0,
        0,
    );
    assert_eq!(validate_network(&network), Err(SenumError::MultipleClocks));

    let network = SenumNetwork::new(
        vec![NetworkNode::new("ctl", NodeKind::PrimaryInput)],
        vec![latch(Some(0), LatchSynchType::ActiveHigh, 0)],
        vec![],
        1,
        1,
        0,
    );
    assert_eq!(
        validate_network(&network),
        Err(SenumError::NonEdgeTriggeredLatch {
            latch: 0,
            synch_type: LatchSynchType::ActiveHigh
        })
    );
}

#[test]
fn validation_rejects_mixed_controls_and_latch_types() {
    let network = SenumNetwork::new(
        vec![
            NetworkNode::new("ctl_a", NodeKind::PrimaryInput),
            NetworkNode::new("ctl_b", NodeKind::PrimaryInput),
        ],
        vec![
            latch(Some(0), LatchSynchType::RisingEdge, 0),
            latch(Some(1), LatchSynchType::RisingEdge, 1),
        ],
        vec![],
        2,
        2,
        0,
    );
    assert_eq!(
        validate_network(&network),
        Err(SenumError::DifferentLatchControls {
            first: 0,
            second: 1
        })
    );

    let network = SenumNetwork::new(
        vec![],
        vec![
            latch(None, LatchSynchType::RisingEdge, 0),
            latch(None, LatchSynchType::FallingEdge, 1),
        ],
        vec![],
        2,
        2,
        0,
    );
    assert_eq!(
        validate_network(&network),
        Err(SenumError::DifferentLatchTypes {
            first: LatchSynchType::RisingEdge,
            second: LatchSynchType::FallingEdge
        })
    );
}

#[test]
fn validation_reports_gated_clock_inputs() {
    let mut control = NetworkNode::new("ctl", NodeKind::Internal);
    control.transitive_fanin = vec![1];
    control.clock_relation = Some(ClockRelation {
        clock_name: "clk".to_owned(),
        phase: InputPhase::PositiveUnate,
    });
    let data_input = NetworkNode::new("data", NodeKind::PrimaryInput);
    let network = SenumNetwork::new(
        vec![control, data_input],
        vec![latch(Some(0), LatchSynchType::RisingEdge, 0)],
        vec![clock("clk")],
        2,
        1,
        1,
    );

    assert_eq!(
        validate_network(&network),
        Err(SenumError::GatedClock { node: 1 })
    );
}

#[test]
fn validation_sets_clock_name_and_flips_negative_phase_edge() {
    let mut control = NetworkNode::new("ctl", NodeKind::Internal);
    control.clock_relation = Some(ClockRelation {
        clock_name: "clk".to_owned(),
        phase: InputPhase::NegativeUnate,
    });
    let network = SenumNetwork::new(
        vec![control],
        vec![latch(Some(0), LatchSynchType::RisingEdge, 0)],
        vec![clock("clk")],
        1,
        1,
        1,
    );

    assert_eq!(
        validate_network(&network).unwrap(),
        ValidNetwork {
            control_node: Some(0),
            clock_name: Some("clk".to_owned()),
            edge_index: 1,
        }
    );
}

#[test]
fn validation_rejects_clock_path_to_primary_output_without_control_latch() {
    let mut clock_node = NetworkNode::new("clk", NodeKind::PrimaryInput);
    clock_node.transitive_fanout = vec![1];
    let po = NetworkNode::new("out", NodeKind::PrimaryOutput);
    let network = SenumNetwork::new(
        vec![clock_node, po],
        vec![latch(None, LatchSynchType::Unknown, 0)],
        vec![clock("clk")],
        2,
        1,
        0,
    );

    assert_eq!(
        validate_network(&network),
        Err(SenumError::ClockPathToPoOrLatchInput { node: 1 })
    );
}

#[test]
fn setup_validates_initial_state_modes_and_counts() {
    let network = SenumNetwork::new(
        vec![],
        vec![
            latch(None, LatchSynchType::Unknown, 0),
            latch(None, LatchSynchType::Unknown, 2),
        ],
        vec![],
        5,
        4,
        7,
    );

    assert_eq!(
        prepare_extraction(&network, ExtractionMode::InitialStateOnly),
        Err(SenumError::NonBinaryInitialState { latch: 1, value: 2 })
    );

    let setup = prepare_extraction(&network, ExtractionMode::CompleteStateTable).unwrap();
    assert_eq!(setup.initial_state.as_deref(), Some("02"));
    assert_eq!(setup.latch_count, 2);
    assert_eq!(setup.primary_input_count, 3);
    assert_eq!(setup.primary_output_count, 2);
    assert_eq!(setup.words_per_state, 1);
    assert_eq!(setup.varying_node_capacity, 10);
    assert_eq!(setup.total_no_of_states, 0);
    assert_eq!(setup.total_no_of_edges, 0);
}

#[test]
fn remove_control_logic_clears_latches_and_deletes_clock_fanout() {
    let mut clock_node = NetworkNode::new("clk", NodeKind::PrimaryInput);
    clock_node.transitive_fanout = vec![1, 2];
    let mut network = SenumNetwork::new(
        vec![
            clock_node,
            NetworkNode::new("ctl_buf", NodeKind::Internal),
            NetworkNode::new("ctl_po", NodeKind::PrimaryOutput),
        ],
        vec![
            latch(Some(1), LatchSynchType::RisingEdge, 0),
            latch(Some(1), LatchSynchType::RisingEdge, 1),
        ],
        vec![clock("clk")],
        3,
        2,
        1,
    );

    let removed = remove_control_logic(&mut network);

    assert_eq!(
        removed,
        ControlRemoval {
            cleared_latches: 2,
            deleted_nodes: vec![1, 2, 0],
        }
    );
    assert!(network.latches.iter().all(|latch| latch.control.is_none()));
    assert!(network.nodes[0].deleted);
    assert!(network.nodes[1].deleted);
    assert!(network.nodes[2].deleted);
}

#[test]
fn top_level_extraction_reports_blocked_dependencies_after_setup() {
    let network = SenumNetwork::new(vec![], vec![], vec![], 0, 0, 0);
    let error = stg_extract(&network, ExtractionMode::InitialStateOnly)
        .expect_err("full STG extraction is intentionally blocked");

    let SenumError::MissingExtractionDependencies { dependencies } = error else {
        panic!("unexpected error kind");
    };
    assert_eq!(dependencies, 10);
}

#[test]
fn clock_lookup_and_counts_errors() {
    let network = SenumNetwork::new(vec![NetworkNode::new("a", NodeKind::Internal)], vec![], vec![clock("clk")], 0, 0, 0);
    assert_eq!(validate_network(&network), Err(SenumError::ClockNodeNotFound("clk".to_owned())));
    assert_eq!(network.find_node_by_name("a"), Some(0));
    assert_eq!(network.find_node_by_name("b"), None);
    let network = SenumNetwork::new(vec![], vec![latch(None, LatchSynchType::Unknown, 0)], vec![], 0, 3, 0);
    let err = prepare_extraction(&network, ExtractionMode::CompleteStateTable).unwrap_err();
    assert_eq!(err, SenumError::InvalidNetworkCounts { primary_inputs: 0, primary_outputs: 3, latches: 1 });
    assert_eq!(err.message(), "network counts are inconsistent: 0 PIs, 3 POs, 1 latches");
    let network = SenumNetwork::new(vec![], vec![latch(Some(4), LatchSynchType::RisingEdge, 0)], vec![], 1, 1, 0);
    assert_eq!(validate_network(&network), Err(SenumError::UnknownNode { node: 4 }));
    let mut control = NetworkNode::new("ctl", NodeKind::Internal);
    control.clock_relation = Some(ClockRelation { clock_name: "clk".to_owned(), phase: InputPhase::Binate });
    let network = SenumNetwork::new(vec![control], vec![latch(Some(0), LatchSynchType::FallingEdge, 0)], vec![], 1, 1, 0);
    assert_eq!(validate_network(&network), Err(SenumError::BinateClockControlPhase));
}

#[test]
fn initial_state_helpers() {
    let latches = vec![latch(None, LatchSynchType::Unknown, 3), latch(None, LatchSynchType::Unknown, 1)];
    assert_eq!(initial_state_encoding(&latches), Ok("31".to_owned()));
    assert_eq!(
        validate_single_initial_state(&latches),
        Err(SenumError::NonBinaryInitialState { latch: 0, value: 3 })
    );
    let bad = vec![latch(None, LatchSynchType::Unknown, 1), latch(None, LatchSynchType::Unknown, -4)];
    assert_eq!(
        initial_state_encoding(&bad).unwrap_err().message(),
        "latch 1 has unknown initial value -4"
    );
    assert!(LatchSynchType::Unknown.is_edge_or_unknown());
    assert!(!LatchSynchType::ActiveLow.is_edge_or_unknown());
    assert_eq!(LatchSynchType::FallingEdge.edge_index(), 1);
    assert_eq!(LatchSynchType::ActiveHigh.edge_index(), -1);
}
