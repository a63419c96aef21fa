use sis_native::re_util::{RetimeGraph, RetimeNode, RetimeNodeType, RetimeUtilError};

fn node(id: usize, node_type: RetimeNodeType) -> RetimeNode {
    RetimeNode {
        id,
        node_type,
        fanins: Vec::new(),
        fanouts: Vec::new(),
    }
}

fn small_graph() -> RetimeGraph {
    let mut graph = RetimeGraph {
        nodes: vec![
            node(0, RetimeNodeType::PrimaryInput),
            node(1, RetimeNodeType::Internal),
            node(2, RetimeNodeType::PrimaryOutput),
        ],
        edges: Vec::new(),
        primary_inputs: vec![0],
        primary_outputs: vec![2],
    };
    graph.add_edge(0, 1, 1, 0).unwrap();
    graph.add_edge(1, 2, 0, 0).unwrap();
    graph
}

#[test]
fn add_edge_deduplicates_by_sink_weight_and_fanin_index() {
    let mut graph = small_graph();
    let first = graph.add_edge(0, 1, 1, 0).unwrap();
    let second = graph.add_edge(0, 1, 1, 0).unwrap();
    let third = graph.add_edge(0, 1, 2, 0).unwrap();
    assert_eq!(first, second);
    assert_ne!(first, third);
    assert_eq!(graph.nodes[0].fanouts, vec![0, 2]);
    assert_eq!(graph.nodes[1].fanins, vec![0, 2]);
}

#[test]
fn retime_node_adjusts_incident_weights_only_for_internal_nodes() {
    let mut graph = small_graph();
    graph.retime_node(1, 2).unwrap();
    assert_eq!(graph.edges[0].weight, 3);
    assert_eq!(graph.edges[1].weight, -2);
    assert!(matches!(
        graph.retime_node(0, 1),
        Err(RetimeUtilError::CannotRetimeNonInternal { .. })
    ));
}

#[test]
fn single_node_retime_clears_latch_correspondence() {
    let mut graph = small_graph();
    graph.edges[0].latches_present = true;
    graph.edges[0].initial_values = vec![1, 0];
    graph.retime_single_node(1, 1).unwrap();
    assert_eq!(graph.edges[0].weight, 2);
    assert!(!graph.edges[0].latches_present);
    assert!(graph.edges[0].initial_values.is_empty());
}

#[test]
fn check_graph_reports_illegal_io_and_negative_weights() {
    let mut graph = small_graph();
    graph.edges[1].weight = -1;
    assert!(matches!(
        graph.check_graph(),
        Err(RetimeUtilError::NegativeEdgeWeight { .. })
    ));
    graph.edges[1].weight = 0;
    graph.add_edge(2, 1, 0, 1).unwrap();
    assert!(matches!(
        graph.check_graph(),
        Err(RetimeUtilError::PrimaryOutputHasFanouts { .. })
    ));
}

#[test]
fn retiming_reports_missing_nodes_and_edges() {
    let mut graph = small_graph();
    assert_eq!(graph.retime_node(9, 1), Err(RetimeUtilError::MissingNode { node_id: 9 }));
    assert_eq!(graph.add_edge(0, 7, 0, 0), Err(RetimeUtilError::MissingNode { node_id: 7 }));
    graph.nodes[1].fanouts.push(5);
    assert_eq!(graph.retime_single_node(1, 0), Ok(()));
    assert_eq!(graph.retime_single_node(1, 1), Err(RetimeUtilError::MissingEdge { edge_id: 5 }));
    assert_eq!(graph.edges[1].weight, -1);
    assert_eq!(
        graph.check_graph(),
        Err(RetimeUtilError::NegativeEdgeWeight { edge_id: 1, weight: -1 })
    );
}

#[test]
fn ignored_nodes_keep_their_edges() {
    let mut graph = small_graph();
    graph.nodes[2].node_type = RetimeNodeType::Ignore;
    graph.retime_node(1, 1).unwrap();
    assert_eq!(graph.edges[0].weight, 2);
    assert_eq!(graph.edges[1].weight, 0);
    assert_eq!(graph.check_graph(), Ok(()));
}

#[test]
fn dfs_from_outputs_returns_postorder_and_detects_zero_weight_cycle() {
    let graph = small_graph();
    assert_eq!(graph.dfs_from_outputs().unwrap(), vec![0, 1, 2]);

    let mut cyclic = RetimeGraph {
        nodes: vec![node(0, RetimeNodeType::Internal), node(1, RetimeNodeType::Internal)],
        edges: Vec::new(),
        primary_inputs: Vec::new(),
        primary_outputs: vec![1],
    };
    cyclic.add_edge(0, 1, 0, 0).unwrap();
    cyclic.add_edge(1, 0, 0, 0).unwrap();
    assert!(matches!(
        cyclic.dfs_from_outputs(),
        Err(RetimeUtilError::ZeroWeightCycle { .. })
    ));
}

#[test]
fn dfs_passes_over_weighted_cycles_and_walks_fanouts_from_inputs() {
    let mut cyclic = RetimeGraph {
        nodes: vec![node(0, RetimeNodeType::Internal), node(1, RetimeNodeType::Internal)],
        edges: Vec::new(),
        primary_inputs: vec![0],
        primary_outputs: vec![1],
    };
    cyclic.add_edge(0, 1, 0, 0).unwrap();
    cyclic.add_edge(1, 0, 1, 0).unwrap();
    assert_eq!(cyclic.dfs_from_outputs(), Ok(vec![0, 1]));
    assert_eq!(small_graph().dfs_from_inputs(), Ok(vec![2, 1, 0]));
}
