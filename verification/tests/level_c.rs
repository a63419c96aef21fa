use sis_native::level_c::{
    initial_cube_for_node, level_circuit, level_port_is_blocked, levelize_circuit,
    packed_cube_from_literals, rearrange_gate_inputs, rearrange_gate_inputs_in_model,
    swap_cube_bits, LatchEnd, LevelCircuit, LevelDependency, LevelError, LevelNode, Literal,
    NodeData, NodeFunction,
};

#[test]
fn packs_cube_literals_with_fanin_zero_in_low_bit() {
    let packed = packed_cube_from_literals(&[
        Literal::One,
        Literal::Zero,
        Literal::One,
        Literal::DontCare,
    ]);

    assert_eq!(packed, 0b0101);
    assert_eq!(initial_cube_for_node(&LevelNode::primary_input()), 1);
}

#[test]
fn initializes_constant_primary_output_values() {
    let nodes = vec![
        LevelNode::constant(NodeFunction::One),
        LevelNode::primary_output(0),
    ];
    let circuit = LevelCircuit::new(nodes, vec![], vec![1])
        .with_derived_fanouts()
        .unwrap();

    let result = levelize_circuit(&circuit).unwrap();

    assert_eq!(result.data[0].level, 0);
    assert!(result.data[0].value.iter().all(|&value| value == 1));
    assert_eq!(result.real_primary_outputs, vec![0]);
}

#[test]
fn levelizes_inputs_internal_nodes_and_state_edges() {
    let mut pi = LevelNode::primary_input();
    pi.latch_end = Some(LatchEnd {
        endpoint_node: 3,
        initial_value: 1,
        next_state_node: 2,
    });

    let nodes = vec![
        pi,
        LevelNode::primary_input(),
        LevelNode::internal(vec![0, 1], vec![Literal::One, Literal::Zero]),
        LevelNode::primary_output(2),
    ];
    let circuit = LevelCircuit::new(nodes, vec![0, 1], vec![3])
        .with_derived_fanouts()
        .unwrap();

    let result = levelize_circuit(&circuit).unwrap();

    assert_eq!(result.present_state, vec![0]);
    assert_eq!(result.initial_state, vec![1]);
    assert_eq!(result.next_state, vec![2]);
    assert_eq!(result.varying_nodes, vec![1, 2]);
    assert_eq!(result.real_primary_outputs, vec![2]);
    assert_eq!(result.data[2].level, 1);
    assert!(result.data.iter().all(|node| !node.is_marked()));
}

#[test]
fn reports_unlevelizable_cycles() {
    let nodes = vec![
        LevelNode {
            fanouts: vec![1],
            ..LevelNode::primary_input()
        },
        LevelNode {
            fanouts: vec![1],
            ..LevelNode::internal(vec![0, 1], vec![Literal::One, Literal::One])
        },
    ];
    let circuit = LevelCircuit::new(nodes, vec![0], vec![]);

    assert_eq!(
        levelize_circuit(&circuit),
        Err(LevelError::UnlevelizableCircuit { stalled_level: 1 })
    );
}

#[test]
fn rearranges_gate_inputs_and_swaps_cube_bits() {
    let mut circuit = LevelCircuit::new(
        vec![
            LevelNode::primary_input(),
            LevelNode::primary_input(),
            LevelNode::primary_input(),
            LevelNode::internal(
                vec![0, 1, 2],
                vec![Literal::One, Literal::Zero, Literal::One],
            ),
        ],
        vec![0, 1, 2],
        vec![],
    );
    let mut data = vec![
        NodeData {
            level: 3,
            ..NodeData::new(1)
        },
        NodeData {
            level: 1,
            ..NodeData::new(1)
        },
        NodeData {
            level: 2,
            ..NodeData::new(1)
        },
        NodeData::new(0b101),
    ];

    rearrange_gate_inputs_in_model(&mut circuit, &mut data).unwrap();

    assert_eq!(circuit.nodes[3].fanins, vec![1, 2, 0]);
    assert_eq!(data[3].cube, 0b110);
}

#[test]
fn scaffold_reports_missing_native_prerequisites() {
    assert!(level_port_is_blocked());
    assert_eq!(
        level_circuit(),
        Err(LevelError::MissingDependency(LevelDependency::NetworkPort))
    );
    assert_eq!(
        rearrange_gate_inputs(),
        Err(LevelError::MissingDependency(LevelDependency::NodePort))
    );
}

#[test]
fn swaps_cube_bits_and_keeps_others() {
    let mut cube: u64 = 0b1001;
    swap_cube_bits(&mut cube, 0, 1);
    assert_eq!(cube, 0b1010);
    swap_cube_bits(&mut cube, 3, 3);
    assert_eq!(cube, 0b1010);
    swap_cube_bits(&mut cube, 1, 63);
    assert_eq!(cube, (1u64 << 63) | 0b1000);
}

#[test]
fn packs_only_the_first_sixty_four_literals() {
    let mut lits = vec![Literal::Zero; 70];
    lits[0] = Literal::One;
    lits[63] = Literal::One;
    lits[65] = Literal::One;
    assert_eq!(packed_cube_from_literals(&lits), 1 | (1u64 << 63));
    assert_eq!(
        initial_cube_for_node(&LevelNode::internal(vec![0], Vec::new())),
        1
    );
}

#[test]
fn derives_fanouts_and_reports_dangling_fanins() {
    let circuit = LevelCircuit::new(
        vec![
            LevelNode::primary_input(),
            LevelNode::internal(vec![0, 0], vec![Literal::One, Literal::One]),
            LevelNode::primary_output(1),
        ],
        vec![0],
        vec![2],
    )
    .with_derived_fanouts()
    .unwrap();
    assert_eq!(circuit.nodes[0].fanouts, vec![1, 1]);
    assert_eq!(circuit.nodes[1].fanouts, vec![2]);
    assert!(circuit.nodes[2].fanouts.is_empty());

    let bad = LevelCircuit::new(vec![LevelNode::primary_output(5)], vec![], vec![0]);
    assert_eq!(
        bad.with_derived_fanouts(),
        Err(LevelError::UnknownFanin { node: 0, fanin: 5 })
    );
}

#[test]
fn levelizes_a_chain_with_increasing_levels() {
    let circuit = LevelCircuit::new(
        vec![
            LevelNode::primary_input(),
            LevelNode::internal(vec![0], vec![Literal::One]),
            LevelNode::internal(vec![1, 0], vec![Literal::One, Literal::Zero]),
            LevelNode::primary_output(2),
        ],
        vec![0],
        vec![3],
    )
    .with_derived_fanouts()
    .unwrap();
    let result = levelize_circuit(&circuit).unwrap();
    assert_eq!(result.data[1].level, 1);
    assert_eq!(result.data[2].level, 2);
    assert_eq!(result.data[3].level, 3);
    assert_eq!(result.varying_nodes, vec![0, 1, 2]);
    assert_eq!(result.real_primary_outputs, vec![2]);
    assert_eq!(result.data[2].cube, 0b01);
}

#[test]
fn rejects_latch_without_next_state_fanin_and_dangling_inputs() {
    let mut pi = LevelNode::primary_input();
    pi.latch_end = Some(LatchEnd {
        endpoint_node: 1,
        initial_value: 0,
        next_state_node: 5,
    });
    let circuit = LevelCircuit::new(vec![pi, LevelNode::primary_output(0)], vec![0], vec![1])
        .with_derived_fanouts()
        .unwrap();
    assert_eq!(
        levelize_circuit(&circuit),
        Err(LevelError::NonInputLatchEndpoint { node: 0, latch_end: 1 })
    );

    let dangling = LevelCircuit::new(vec![LevelNode::primary_input()], vec![3], vec![]);
    assert_eq!(
        levelize_circuit(&dangling),
        Err(LevelError::UnknownNode { node: 3 })
    );
}

#[test]
fn rearrangement_stops_at_an_overfull_gate() {
    let mut circuit = LevelCircuit::new(
        vec![
            LevelNode::primary_input(),
            LevelNode::primary_input(),
            LevelNode::internal(vec![1, 0], vec![Literal::One, Literal::Zero]),
            LevelNode::internal(vec![0; 17], vec![Literal::One; 17]),
        ],
        vec![0, 1],
        vec![],
    );
    let mut data = vec![
        NodeData { level: 0, ..NodeData::new(1) },
        NodeData { level: 2, ..NodeData::new(1) },
        NodeData::new(0b01),
        NodeData::new(0),
    ];
    assert_eq!(
        rearrange_gate_inputs_in_model(&mut circuit, &mut data),
        Err(LevelError::TooManyFaninsForBarray { node: 3, fanins: 17 })
    );
    assert_eq!(circuit.nodes[2].fanins, vec![0, 1]);
    assert_eq!(data[2].cube, 0b10);
}
