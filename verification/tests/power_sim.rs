use sis_native::power_sim::{
    power_symbolic_simulate, power_symbolic_simulate_from_sis_network, NodeId, NodeInfo,
    NodeInfoTable, PowerNetwork, PowerNode, PowerNodeKind, PowerSimError, SymbolicFaninPatch,
    SymbolicNodeId, SymbolicNodeKind, SymbolicPowerNetwork,
};

fn names(network: &SymbolicPowerNetwork) -> Vec<&str> {
    network
        .nodes()
        .iter()
        .map(|node| node.name.as_str())
        .collect()
}

#[test]
fn primary_input_creates_before_after_and_xor_output() {
    let mut network = PowerNetwork::new("toy");
    network.add_node(PowerNode::new("a", PowerNodeKind::PrimaryInput));

    let symbolic = power_symbolic_simulate(&network, &NodeInfoTable::new()).unwrap();

    assert_eq!(symbolic.name(), "toy_symbolic");
    assert_eq!(names(&symbolic), vec!["a_000", "a_ttt", "a_xor_0"]);
    assert_eq!(symbolic.primary_outputs(), &[SymbolicNodeId(2)]);
    assert_eq!(symbolic.max_normalized_delay(), 0);
    assert_eq!(
        symbolic.node(SymbolicNodeId(2)).unwrap().original,
        NodeId(0)
    );
}

#[test]
fn internal_gate_with_simultaneous_fanin_switches_gets_one_delayed_xor() {
    let mut network = PowerNetwork::new("comb");
    let a = network.add_node(PowerNode::new("a", PowerNodeKind::PrimaryInput));
    let b = network.add_node(PowerNode::new("b", PowerNodeKind::PrimaryInput));
    let n =
        network.add_node(PowerNode::new("n", PowerNodeKind::Internal).with_fanins(vec![a, b]));
    let info = NodeInfoTable::from_pairs(&[(n, NodeInfo { delay: 2 })]);

    let symbolic = power_symbolic_simulate(&network, &info).unwrap();

    assert!(names(&symbolic).contains(&"n_1_0"));
    assert!(names(&symbolic).contains(&"n_2_0"));
    assert!(names(&symbolic).contains(&"n_xor_2"));
    assert_eq!(symbolic.max_normalized_delay(), 2);

    let before = symbolic
        .nodes()
        .iter()
        .find(|node| node.name == "n_1_0")
        .unwrap();
    assert_eq!(
        before.fanins,
        vec![
            SymbolicFaninPatch {
                original_fanin: a,
                symbolic_fanin: SymbolicNodeId(0),
            },
            SymbolicFaninPatch {
                original_fanin: b,
                symbolic_fanin: SymbolicNodeId(3),
            },
        ]
    );
}

#[test]
fn staggered_fanin_switches_create_multiple_transition_frames() {
    let mut network = PowerNetwork::new("staggered");
    let a = network.add_node(PowerNode::new("a", PowerNodeKind::PrimaryInput));
    let b = network.add_node(PowerNode::new("b", PowerNodeKind::PrimaryInput));
    let x = network.add_node(PowerNode::new("x", PowerNodeKind::Internal).with_fanins(vec![a]));
    let y = network.add_node(PowerNode::new("y", PowerNodeKind::Internal).with_fanins(vec![b]));
    let n =
        network.add_node(PowerNode::new("n", PowerNodeKind::Internal).with_fanins(vec![x, y]));
    let info = NodeInfoTable::from_pairs(&[
        (x, NodeInfo { delay: 2 }),
        (y, NodeInfo { delay: 4 }),
        (n, NodeInfo { delay: 1 }),
    ]);

    let symbolic = power_symbolic_simulate(&network, &info).unwrap();
    let symbolic_names = names(&symbolic);

    assert!(symbolic_names.contains(&"x_xor_2"));
    assert!(symbolic_names.contains(&"y_xor_4"));
    assert!(symbolic_names.contains(&"n_xor_3"));
    assert!(symbolic_names.contains(&"n_xor_5"));
    assert_eq!(symbolic.max_normalized_delay(), 5);
}

#[test]
fn primary_outputs_are_skipped_like_c_dummy_nodes() {
    let mut network = PowerNetwork::new("with_po");
    let a = network.add_node(PowerNode::new("a", PowerNodeKind::PrimaryInput));
    network.add_node(PowerNode::new("out", PowerNodeKind::PrimaryOutput).with_fanins(vec![a]));

    let symbolic = power_symbolic_simulate(&network, &NodeInfoTable::new()).unwrap();

    assert_eq!(names(&symbolic), vec!["a_000", "a_ttt", "a_xor_0"]);
}

#[test]
fn sis_bound_entry_reports_explicit_missing_dependencies() {
    let error = power_symbolic_simulate_from_sis_network(&(), &()).unwrap_err();

    assert_eq!(
        error,
        PowerSimError::MissingNativeSupport {
            operation: "power_symbolic_simulate",
        }
    );
    assert!(error.message().contains("requires native network support"));
}

#[test]
fn gate_without_delay_data_is_an_error() {
    let mut network = PowerNetwork::new("bad");
    let a = network.add_node(PowerNode::new("a", PowerNodeKind::PrimaryInput));
    let n = network.add_node(PowerNode::new("n", PowerNodeKind::Internal).with_fanins(vec![a]));
    let err = power_symbolic_simulate(&network, &NodeInfoTable::new()).unwrap_err();
    assert_eq!(err, PowerSimError::MissingNodeInfo { node: n });
    assert_eq!(
        err.message(),
        "node NodeId(1) is missing power node_info_t delay data from the SIS info table"
    );
}

#[test]
fn gate_reading_an_unsimulated_fanin_is_an_error() {
    let mut network = PowerNetwork::new("order");
    let n = network.add_node(PowerNode::new("n", PowerNodeKind::Internal).with_fanins(vec![NodeId(1)]));
    let a = network.add_node(PowerNode::new("a", PowerNodeKind::PrimaryInput));
    let mut info = NodeInfoTable::new();
    info.insert(n, NodeInfo { delay: 1 });
    let err = power_symbolic_simulate(&network, &info).unwrap_err();
    assert_eq!(err, PowerSimError::MissingFaninDelayInfo { node: n, fanin: a });

    assert_eq!(network.set_dfs_order(vec![a, NodeId(7)]), Err(PowerSimError::UnknownNode(NodeId(7))));
    assert_eq!(network.set_dfs_order(vec![a, n]), Ok(()));
    let symbolic = power_symbolic_simulate(&network, &info).unwrap();
    assert_eq!(names(&symbolic), vec!["a_000", "a_ttt", "a_xor_0", "n_1_0", "n_2_0", "n_xor_1"]);
    assert_eq!(symbolic.node(SymbolicNodeId(5)).unwrap().kind, SymbolicNodeKind::Xor);
    assert_eq!(symbolic.max_normalized_delay(), 1);
}

#[test]
fn later_info_entries_replace_earlier_ones() {
    let info = NodeInfoTable::from_pairs(&[
        (NodeId(3), NodeInfo { delay: 1 }),
        (NodeId(3), NodeInfo { delay: 9 }),
    ]);
    assert_eq!(info.get(NodeId(3)), Some(NodeInfo { delay: 9 }));
    assert_eq!(info.get(NodeId(4)), None);
}
