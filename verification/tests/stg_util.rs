use sis_native::stg_util::{
    assign_input_names, assign_output_names, change_sis_dc_node_name, dump_graph,
    save_names_from_sis_network, save_names_from_summary, set_sis_network_pipo_names,
    traverse_sis_stg_graph, NetworkIoSummary, NetworkSignal, SaveNameDiagnostic, SaveNameOptions,
    SaveNameReport, StgGraph, StgSignalKind, StgState, StgTransition, StgUtilError,
    OUTPUT_MISMATCH_MESSAGE, INPUT_MISMATCH_MESSAGE,
};

#[test]
fn assigns_c_style_default_names() {
    assert_eq!(assign_input_names(0), None);
    assert_eq!(
        assign_input_names(3),
        Some(vec!["IN_0".to_owned(), "IN_1".to_owned(), "IN_2".to_owned()])
    );
    assert_eq!(
        assign_output_names(2),
        Some(vec!["OUT_0".to_owned(), "OUT_1".to_owned()])
    );
}

#[test]
fn saves_network_names_when_counts_match() {
    let network = NetworkIoSummary {
        inputs: vec![
            NetworkSignal::real_signal("a"),
            NetworkSignal::clock("clk"),
            NetworkSignal::latch_endpoint("state"),
            NetworkSignal::real_signal("b"),
        ],
        outputs: vec![NetworkSignal::real_signal("z")],
        latch_count: 1,
        clock_count: 1,
    };
    let mut stg = StgGraph::new("s0");

    let report = save_names_from_summary(&network, &mut stg, 2, 1, SaveNameOptions::default());

    assert_eq!(
        report,
        SaveNameReport {
            saved_inputs: true,
            saved_outputs: true,
            diagnostic: None,
        }
    );
    assert_eq!(stg.names(StgSignalKind::Input).unwrap(), ["a", "b"]);
    assert_eq!(stg.names(StgSignalKind::Output).unwrap(), ["z"]);
}

#[test]
fn falls_back_to_generated_names_without_network_pios() {
    let network = NetworkIoSummary::empty();
    let mut stg = StgGraph::new("reset");

    let report = save_names_from_summary(
        &network,
        &mut stg,
        2,
        1,
        SaveNameOptions {
            print_input_mismatch: false,
        },
    );

    assert_eq!(report.diagnostic, None);
    assert_eq!(stg.names(StgSignalKind::Input).unwrap(), ["IN_0", "IN_1"]);
    assert_eq!(stg.names(StgSignalKind::Output).unwrap(), ["OUT_0"]);
}

#[test]
fn reports_mismatches_and_honors_input_print_option() {
    let network = NetworkIoSummary {
        inputs: vec![NetworkSignal::real_signal("a"), NetworkSignal::real_signal("b")],
        outputs: Vec::new(),
        latch_count: 0,
        clock_count: 0,
    };
    let mut stg = StgGraph::new("s0");

    let report = save_names_from_summary(
        &network,
        &mut stg,
        1,
        0,
        SaveNameOptions {
            print_input_mismatch: false,
        },
    );

    assert_eq!(
        report.diagnostic,
        Some(SaveNameDiagnostic::InputCountMismatch {
            network_count: 2,
            stg_count: 1,
            message: None,
        })
    );
}

#[test]
fn formats_dump_graph_like_c_output() {
    let graph = StgGraph::new("s0")
        .with_state(StgState::new("s0").with_transition(StgTransition::new("1-", "0", "s1")))
        .with_state(StgState::new("s1").with_transition(StgTransition::new("0-", "1", "s0")));
    let network = NetworkIoSummary {
        inputs: vec![
            NetworkSignal::real_signal("a"),
            NetworkSignal::latch_endpoint("latch_out"),
        ],
        outputs: vec![
            NetworkSignal::real_signal("z"),
            NetworkSignal::latch_endpoint("latch_in"),
        ],
        latch_count: 1,
        clock_count: 0,
    };

    assert_eq!(
        dump_graph(Some(&graph), Some(&network)),
        "\nInitial state s0\nPI list: a  \nPO list: z  \nPresentState input  output NextState\ns0 1- 0 s1\ns1 0- 1 s0\n\n"
    );
    assert_eq!(dump_graph(None, None), "NIL stg\n");
}

#[test]
fn blocked_sis_entry_points_report_missing_ports() {
    assert_eq!(save_names_from_sis_network(), Err(StgUtilError::MissingNetworkPort));
    assert_eq!(set_sis_network_pipo_names(), Err(StgUtilError::MissingNetworkPort));
    assert_eq!(change_sis_dc_node_name(), Err(StgUtilError::MissingNodePort));
    assert_eq!(traverse_sis_stg_graph(), Err(StgUtilError::MissingGraphTraversalPort));
}

#[test]
fn output_mismatch_stops_before_inputs_and_existing_names_stay() {
    let network = NetworkIoSummary {
        inputs: vec![NetworkSignal::real_signal("a")],
        outputs: vec![NetworkSignal::real_signal("x"), NetworkSignal::real_signal("y")],
        latch_count: 0,
        clock_count: 0,
    };
    let mut stg = StgGraph::new("s0");
    let report = save_names_from_summary(&network, &mut stg, 1, 1, SaveNameOptions::default());
    assert_eq!(
        report,
        SaveNameReport {
            saved_inputs: false,
            saved_outputs: false,
            diagnostic: Some(SaveNameDiagnostic::OutputCountMismatch {
                network_count: 2,
                stg_count: 1,
                message: OUTPUT_MISMATCH_MESSAGE,
            }),
        }
    );
    assert_eq!(stg.names(StgSignalKind::Input), None);

    let mut named = StgGraph::new("s0");
    named.set_names(StgSignalKind::Output, vec!["keep".to_owned()]);
    let report = save_names_from_summary(&network, &mut named, 3, 1, SaveNameOptions::default());
    assert_eq!(
        report.diagnostic,
        Some(SaveNameDiagnostic::InputCountMismatch {
            network_count: 1,
            stg_count: 3,
            message: Some(INPUT_MISMATCH_MESSAGE),
        })
    );
    assert!(!report.saved_outputs);
    assert_eq!(named.output_count(), 1);
    assert_eq!(named.input_count(), 0);
}
