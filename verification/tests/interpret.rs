use sis_native::interpret::{
    equivtrans, gen_random_pattern, print_pattern, sim_verify, simulate_network,
    simulate_network_32, simulate_network_from_sis, simulate_node, simulate_node_32,
    simulate_node_from_sis, simulate_stg, Cube, InterpretError, Literal, LogicValue, NodeId,
    NodeKind, SimNetwork, SimNode, SisRandom, StgModel, VerificationResult, ONE,
    PACKED_PATTERN_BITS, TWO, ZERO,
};

fn inv_network() -> SimNetwork {
    let mut network = SimNetwork::new();
    let a = network.add_node(SimNode::new("a", NodeKind::PrimaryInput));
    let n = network.add_node(
        SimNode::new("n", NodeKind::Internal)
            .with_fanins(vec![a])
            .with_cubes(vec![Cube::new(vec![Literal::Zero])]),
    );
    network.add_node(SimNode::new("out", NodeKind::PrimaryOutput).with_fanins(vec![n]));
    network
}

#[test]
fn literal_c_values_match_sis_set_encoding() {
    assert_eq!(Literal::from_c_value(ZERO), Ok(Literal::Zero));
    assert_eq!(Literal::from_c_value(ONE), Ok(Literal::One));
    assert_eq!(Literal::from_c_value(TWO), Ok(Literal::DontCare));
    assert_eq!(Literal::DontCare.c_value(), TWO);
    assert_eq!(
        Cube::from_c_literals(&[ONE, ZERO, TWO]).unwrap().literals(),
        &[Literal::One, Literal::Zero, Literal::DontCare]
    );
}

#[test]
fn simulate_node_sets_one_when_any_cube_matches() {
    let mut network = SimNetwork::new();
    let a = network.add_node(SimNode::new("a", NodeKind::PrimaryInput));
    let b = network.add_node(SimNode::new("b", NodeKind::PrimaryInput));
    let node = network.add_node(
        SimNode::new("and", NodeKind::Internal)
            .with_fanins(vec![a, b])
            .with_cubes(vec![Cube::new(vec![Literal::One, Literal::One])]),
    );

    network.node_mut(a).unwrap().value = Some(LogicValue::One);
    network.node_mut(b).unwrap().value = Some(LogicValue::One);
    assert_eq!(simulate_node(&mut network, node), Ok(LogicValue::One));

    network.node_mut(b).unwrap().value = Some(LogicValue::Zero);
    assert_eq!(simulate_node(&mut network, node), Ok(LogicValue::Zero));
}

#[test]
fn simulate_network_sets_inputs_runs_internal_order_and_reads_output_drivers() {
    let mut network = inv_network();
    assert_eq!(
        simulate_network(&mut network, &[NodeId(1)], &[LogicValue::Zero]),
        Ok(vec![LogicValue::One])
    );
    assert_eq!(
        simulate_network(&mut network, &[NodeId(1)], &[LogicValue::One]),
        Ok(vec![LogicValue::Zero])
    );
    assert_eq!(
        simulate_network(&mut network, &[NodeId(1)], &[]),
        Err(InterpretError::WrongInputCount {
            expected: 1,
            actual: 0,
        })
    );
}

#[test]
fn equivtrans_treats_dash_as_dont_care_on_either_side() {
    assert!(equivtrans("1-0", "110"));
    assert!(equivtrans("100", "1-0"));
    assert!(!equivtrans("100", "110"));
    assert!(!equivtrans("10", "100"));
}

#[test]
fn simulate_stg_uses_current_state_then_any_and_star_fallbacks() {
    let mut stg = StgModel::new("S0", 2);
    stg.add_edge("S0", "S1", "00", "10");
    stg.add_edge("ANY", "S2", "1-", "01");
    stg.add_edge("*", "S3", "01", "11");

    let step = simulate_stg(&mut stg, &[LogicValue::Zero, LogicValue::Zero])
        .unwrap()
        .unwrap();
    assert_eq!(step.output, vec!['1', '0']);
    assert_eq!(stg.current_state(), "S1");

    let step = simulate_stg(&mut stg, &[LogicValue::One, LogicValue::Zero])
        .unwrap()
        .unwrap();
    assert_eq!(step.next_state, "S2");
    assert_eq!(step.output, vec!['0', '1']);
}

#[test]
fn simulate_node_32_matches_sop_packed_bit_behavior() {
    let node = SimNode::new("muxish", NodeKind::Internal)
        .with_fanins(vec![NodeId(0), NodeId(1)])
        .with_cubes(vec![
            Cube::new(vec![Literal::One, Literal::Zero]),
            Cube::new(vec![Literal::Zero, Literal::One]),
        ]);

    let result = simulate_node_32(&node, &[0b1010, 0b1100]).unwrap();
    assert_eq!(result & 0b1111, 0b0110);
}

#[test]
fn simulate_network_32_recurses_from_primary_outputs() {
    let network = inv_network();
    let outputs = simulate_network_32(&network, &[0x0f0f_0f0f]).unwrap();
    assert_eq!(outputs, vec![!0x0f0f_0f0f]);
}

#[test]
fn sim_verify_reports_first_mismatching_packed_bit() {
    let good = inv_network();
    let mut bad = SimNetwork::new();
    let a = bad.add_node(SimNode::new("a", NodeKind::PrimaryInput));
    let n = bad.add_node(
        SimNode::new("buf", NodeKind::Internal)
            .with_fanins(vec![a])
            .with_cubes(vec![Cube::new(vec![Literal::One])]),
    );
    bad.add_node(SimNode::new("out", NodeKind::PrimaryOutput).with_fanins(vec![n]));

    let result = sim_verify(&good, &bad, PACKED_PATTERN_BITS, 7).unwrap();
    let VerificationResult::Failed(failure) = result else {
        panic!("expected verification failure");
    };
    assert_eq!(failure.faulty_output, 0);
    assert_eq!(failure.internal_outputs.len(), 1);
    assert_eq!(failure.read_in_outputs.len(), 1);
}

#[test]
fn sim_verify_reports_passed_vector_count_in_multiples_of_32() {
    let left = inv_network();
    let right = inv_network();

    assert_eq!(
        sim_verify(&left, &right, 65, 123),
        Ok(VerificationResult::Passed { random_vectors: 64 })
    );
}

#[test]
fn sis_bound_entry_points_report_missing_native_prerequisites() {
    assert_eq!(
        simulate_node_from_sis(),
        Err(InterpretError::MissingSisPorts {
            operation: "node simulation on a native network",
        })
    );

    assert!(simulate_network_from_sis().unwrap_err().message().contains("blocked"));
}

#[test]
fn random_generator_follows_the_linear_congruence() {
    let mut rng = SisRandom::new(1);
    let state: u32 = 1u32.wrapping_mul(1_103_515_245).wrapping_add(12_345);
    assert_eq!(rng.random31(), (state >> 1) & 0x7fff_ffff);
    let mut a = SisRandom::new(9);
    let mut b = SisRandom::new(9);
    let words = gen_random_pattern(3, &mut a);
    assert_eq!(words.len(), 3);
    let hi = b.random31();
    let lo = b.random31();
    assert_eq!(words[0], (hi << 16) | (lo & 0xffff));
}

#[test]
fn print_pattern_selects_masked_bits() {
    assert_eq!(
        print_pattern(&[0b01, 0b10, 0b11], 0b10),
        vec![LogicValue::Zero, LogicValue::One, LogicValue::One]
    );
}

#[test]
fn literal_and_value_conversions_reject_bad_codes() {
    assert_eq!(Literal::from_c_value(0), Err(InterpretError::InvalidLiteral(0)));
    assert_eq!(LogicValue::try_from(2), Err(InterpretError::InvalidInputValue(2)));
    assert_eq!(LogicValue::try_from(1), Ok(LogicValue::One));
    assert_eq!(LogicValue::from(false), LogicValue::Zero);
    assert_eq!(LogicValue::One.packed(), u32::MAX);
    assert_eq!(
        Cube::from_c_literals(&[ONE, 7]),
        Err(InterpretError::InvalidLiteral(7))
    );
}

#[test]
fn simulate_node_reports_cube_arity_and_missing_values() {
    let mut network = SimNetwork::new();
    let a = network.add_node(SimNode::new("a", NodeKind::PrimaryInput));
    let n = network.add_node(
        SimNode::new("n", NodeKind::Internal)
            .with_fanins(vec![a])
            .with_cubes(vec![Cube::new(vec![Literal::One, Literal::One])]),
    );
    assert_eq!(
        simulate_node(&mut network, n),
        Err(InterpretError::MissingNodeValue(a))
    );
    network.node_mut(a).unwrap().value = Some(LogicValue::One);
    assert_eq!(
        simulate_node(&mut network, n),
        Err(InterpretError::CubeArityMismatch { node: n, cube_literals: 2, fanins: 1 })
    );
    assert_eq!(
        simulate_node(&mut network, NodeId(9)),
        Err(InterpretError::UnknownNode(NodeId(9)))
    );
}

#[test]
fn simulate_stg_rejects_wrong_output_width_and_reports_no_match() {
    let mut stg = StgModel::new("S0", 1);
    stg.add_edge("S0", "S1", "1", "10");
    let err = simulate_stg(&mut stg, &[LogicValue::One]).unwrap_err();
    assert_eq!(
        err,
        InterpretError::InvalidStgOutputWidth {
            state: "S0".to_owned(),
            output: "10".to_owned(),
            expected: 1,
        }
    );
    assert_eq!(
        err.message(),
        "STG edge from S0 produced output \"10\" with width 2, expected 1"
    );
    assert_eq!(simulate_stg(&mut stg, &[LogicValue::Zero]), Ok(None));
    assert_eq!(stg.current_state(), "S0");
}

#[test]
fn packed_network_reports_missing_driver_and_wrong_count() {
    let mut network = SimNetwork::new();
    network.add_node(SimNode::new("a", NodeKind::PrimaryInput));
    network.add_node(SimNode::new("out", NodeKind::PrimaryOutput));
    assert_eq!(
        simulate_network_32(&network, &[1]),
        Err(InterpretError::MissingOutputDriver(NodeId(1)))
    );
    assert_eq!(
        simulate_network_32(&network, &[]),
        Err(InterpretError::WrongInputCount { expected: 1, actual: 0 })
    );
    assert_eq!(
        simulate_network(&mut network, &[], &[LogicValue::One]),
        Err(InterpretError::MissingOutputDriver(NodeId(1)))
    );
    assert!(equivtrans("", ""));
    assert_eq!(simulate_node_32(&SimNode::new("z", NodeKind::Internal), &[]), Ok(0));
}
