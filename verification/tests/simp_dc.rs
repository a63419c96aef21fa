use sis_native::simp_dc::{
    level_table_from_nodes, shared_fanin_fanouts, simp_all_dc, simp_di, simp_fanout_dc,
    simp_level_dc, simp_sub_fanin_dc, simp_tfanin_dc, sis_node_bound_dont_care,
    sub_fanin_candidates, transitive_fanin, transitive_fanout, unused_simp_fanin_dc, BoolExpr,
    SimpDcError, SimpNetwork, SimpNode, SimpNodeId, SimpNodeKind, INFINITY_LEVEL,
};

fn lit(id: SimpNodeId) -> BoolExpr {
    BoolExpr::positive_literal(id)
}

fn internal(name: &str, expr: BoolExpr, cubes: usize, literals: usize) -> SimpNode {
    SimpNode::new(name, SimpNodeKind::Internal, expr).with_cost(cubes, literals)
}

#[test]
fn simp_di_xors_node_function_with_positive_literal() {
    let node = SimpNodeId(3);

    assert_eq!(
        simp_di(node),
        BoolExpr::Xor(
            Box::new(BoolExpr::NodeFunction(node)),
            Box::new(BoolExpr::Literal {
                node,
                positive: true
            })
        )
    );
}

#[test]
fn shared_fanin_fanouts_match_simp_table_duplicate_rule() {
    let mut network = SimpNetwork::new();
    let a = network.add_node(SimpNode::new(
        "a",
        SimpNodeKind::PrimaryInput,
        BoolExpr::one(),
    ));
    let b = network.add_node(SimpNode::new(
        "b",
        SimpNodeKind::PrimaryInput,
        BoolExpr::one(),
    ));
    let x = network.add_node(internal("x", lit(a), 1, 2));
    let y = network.add_node(internal("y", lit(a), 1, 2));
    let f = network.add_node(internal("f", BoolExpr::and(lit(x), lit(y)), 2, 4));
    network.connect(a, x).unwrap();
    network.connect(b, x).unwrap();
    network.connect(a, y).unwrap();
    network.connect(x, f).unwrap();
    network.connect(y, f).unwrap();

    assert_eq!(shared_fanin_fanouts(&network, f).unwrap(), vec![x, y]);
    assert_eq!(
        unused_simp_fanin_dc(&network, f).unwrap(),
        BoolExpr::or(simp_di(x), simp_di(y))
    );
}

#[test]
fn fanout_dc_is_zero_when_node_feeds_primary_output() {
    let mut network = SimpNetwork::new();
    let f = network.add_node(internal("f", BoolExpr::one(), 1, 1));
    let out = network.add_node(SimpNode::new("out", SimpNodeKind::PrimaryOutput, lit(f)));
    network.connect(f, out).unwrap();

    assert_eq!(simp_fanout_dc(&network, f).unwrap(), BoolExpr::zero());
}

#[test]
fn fanout_dc_conjoins_xnor_of_positive_and_negative_cofactors() {
    let mut network = SimpNetwork::new();
    let f = network.add_node(internal("f", BoolExpr::one(), 1, 1));
    let a = network.add_node(SimpNode::new(
        "a",
        SimpNodeKind::PrimaryInput,
        BoolExpr::one(),
    ));
    let g1 = network.add_node(internal("g1", BoolExpr::and(lit(f), lit(a)), 1, 2));
    let g2 = network.add_node(internal("g2", BoolExpr::or(lit(f), lit(a)), 1, 2));
    network.connect(f, g1).unwrap();
    network.connect(a, g1).unwrap();
    network.connect(f, g2).unwrap();
    network.connect(a, g2).unwrap();

    assert_eq!(
        simp_fanout_dc(&network, f).unwrap(),
        BoolExpr::and(
            BoolExpr::xnor(lit(a), BoolExpr::zero()),
            BoolExpr::xnor(BoolExpr::one(), lit(a))
        )
    );
}

#[test]
fn tfanin_dc_adds_internal_nodes_from_fanin_and_selected_fanout_cones() {
    let mut network = SimpNetwork::new();
    let a = network.add_node(SimpNode::new(
        "a",
        SimpNodeKind::PrimaryInput,
        BoolExpr::one(),
    ));
    let b = network.add_node(SimpNode::new(
        "b",
        SimpNodeKind::PrimaryInput,
        BoolExpr::one(),
    ));
    let x = network.add_node(internal("x", lit(a), 2, 3));
    let y = network.add_node(internal("y", lit(a), 2, 3));
    let f = network.add_node(internal("f", BoolExpr::and(lit(x), lit(b)), 3, 5));
    let z = network.add_node(internal("z", lit(a), 2, 3));
    network.connect(a, x).unwrap();
    network.connect(x, f).unwrap();
    network.connect(a, y).unwrap();
    network.connect(y, f).unwrap();
    network.connect(a, z).unwrap();
    network.connect(b, f).unwrap();

    assert_eq!(
        simp_tfanin_dc(&network, f, 1, INFINITY_LEVEL).unwrap(),
        BoolExpr::or(simp_di(x), simp_di(y))
    );
    assert!(!format!(
        "{:?}",
        simp_tfanin_dc(&network, f, 1, INFINITY_LEVEL).unwrap()
    )
    .contains(&format!("{:?}", z)));
}

#[test]
fn sub_fanin_candidates_keep_same_or_subset_support() {
    let mut network = SimpNetwork::new();
    let a = network.add_node(SimpNode::new(
        "a",
        SimpNodeKind::PrimaryInput,
        BoolExpr::one(),
    ));
    let b = network.add_node(SimpNode::new(
        "b",
        SimpNodeKind::PrimaryInput,
        BoolExpr::one(),
    ));
    let c = network.add_node(SimpNode::new(
        "c",
        SimpNodeKind::PrimaryInput,
        BoolExpr::one(),
    ));
    let x = network.add_node(internal("x", lit(a), 2, 3));
    let y = network.add_node(internal("y", BoolExpr::and(lit(a), lit(b)), 2, 4));
    let outside = network.add_node(internal("outside", lit(c), 2, 4));
    let f = network.add_node(internal("f", BoolExpr::and(lit(a), lit(b)), 5, 9));
    network.connect(a, x).unwrap();
    network.connect(a, y).unwrap();
    network.connect(b, y).unwrap();
    network.connect(c, outside).unwrap();
    network.connect(a, f).unwrap();
    network.connect(b, f).unwrap();
    network.connect(x, outside).unwrap();

    assert_eq!(sub_fanin_candidates(&network, f).unwrap(), vec![a, x, y, b]);
    assert_eq!(
        simp_sub_fanin_dc(&network, f).unwrap(),
        BoolExpr::or(simp_di(x), simp_di(y))
    );
}

#[test]
fn sub_fanin_dc_applies_cost_limits_and_literal_budget() {
    let mut network = SimpNetwork::new();
    let inputs: Vec<_> = (0..16)
        .map(|i| {
            network.add_node(SimpNode::new(
                &format!("i{i}"),
                SimpNodeKind::PrimaryInput,
                BoolExpr::one(),
            ))
        })
        .collect();
    let f = network.add_node(internal("f", BoolExpr::one(), 60, 20));
    for input in &inputs {
        network.connect(*input, f).unwrap();
    }
    let small = network.add_node(internal("small", lit(inputs[0]), 2, 400));
    let too_many_cubes = network.add_node(internal("huge", lit(inputs[1]), 101, 300));
    let too_expensive = network.add_node(internal("expensive", lit(inputs[2]), 121, 300));
    let over_budget = network.add_node(internal("over_budget", lit(inputs[3]), 3, 200));
    for node in [small, too_many_cubes, too_expensive, over_budget] {
        network.connect(inputs[0], node).unwrap();
    }

    assert_eq!(simp_sub_fanin_dc(&network, f).unwrap(), simp_di(small));
}

#[test]
fn level_dc_keeps_only_lower_level_candidates() {
    let mut network = SimpNetwork::new();
    let a = network.add_node(SimpNode::new(
        "a",
        SimpNodeKind::PrimaryInput,
        BoolExpr::one(),
    ));
    let lower = network.add_node(internal("lower", lit(a), 2, 3).with_level(1));
    let same = network.add_node(internal("same", lit(a), 2, 3).with_level(3));
    let f = network.add_node(internal("f", lit(a), 4, 8).with_level(3));
    network.connect(a, lower).unwrap();
    network.connect(a, same).unwrap();
    network.connect(a, f).unwrap();

    assert_eq!(simp_level_dc(&network, f).unwrap(), simp_di(lower));
}

#[test]
fn missing_level_and_sis_dependency_errors_are_explicit() {
    let mut network = SimpNetwork::new();
    let f = network.add_node(internal("f", BoolExpr::one(), 1, 2));

    assert_eq!(
        simp_level_dc(&network, f),
        Err(SimpDcError::MissingLevel(f))
    );
    assert_eq!(
        sis_node_bound_dont_care("simp_tfanin_dc"),
        Err(SimpDcError::MissingNativeSupport {
            operation: "simp_tfanin_dc",
        })
    );
}

#[test]
fn expression_operations_fold_constants_and_flatten() {
    let a = lit(SimpNodeId(0));
    let b = lit(SimpNodeId(1));
    let c = lit(SimpNodeId(2));
    assert_eq!(BoolExpr::and(BoolExpr::zero(), lit(SimpNodeId(0))), BoolExpr::zero());
    assert_eq!(BoolExpr::or(BoolExpr::zero(), lit(SimpNodeId(0))), lit(SimpNodeId(0)));
    assert_eq!(
        BoolExpr::and(BoolExpr::and(lit(SimpNodeId(0)), lit(SimpNodeId(1))), lit(SimpNodeId(2))),
        BoolExpr::And(vec![a, b, c])
    );
    assert_eq!(BoolExpr::xor(lit(SimpNodeId(4)), lit(SimpNodeId(4))), BoolExpr::zero());
    assert_eq!(BoolExpr::xnor(BoolExpr::one(), BoolExpr::zero()), BoolExpr::zero());
    assert_eq!(
        BoolExpr::xor(BoolExpr::one(), lit(SimpNodeId(5))),
        BoolExpr::Xor(Box::new(BoolExpr::one()), Box::new(lit(SimpNodeId(5))))
    );
}

#[test]
fn cofactor_replaces_the_literal_and_simplifies() {
    let f = BoolExpr::or(
        BoolExpr::and(lit(SimpNodeId(0)), lit(SimpNodeId(1))),
        BoolExpr::Literal { node: SimpNodeId(0), positive: false },
    );
    assert_eq!(f.cofactor(SimpNodeId(0), true), lit(SimpNodeId(1)));
    assert_eq!(f.cofactor(SimpNodeId(0), false), BoolExpr::one());
}

#[test]
fn cones_walk_breadth_first_within_the_limit() {
    let mut network = SimpNetwork::new();
    let a = network.add_node(SimpNode::new("a", SimpNodeKind::PrimaryInput, BoolExpr::one()));
    let x = network.add_node(internal("x", lit(a), 1, 1));
    let y = network.add_node(internal("y", lit(x), 1, 1));
    let z = network.add_node(internal("z", lit(a), 1, 1));
    network.connect(a, x).unwrap();
    network.connect(x, y).unwrap();
    network.connect(a, z).unwrap();
    assert_eq!(transitive_fanout(&network, a, INFINITY_LEVEL).unwrap(), vec![x, z, y]);
    assert_eq!(transitive_fanout(&network, a, 1).unwrap(), vec![x, z]);
    assert_eq!(transitive_fanout(&network, a, 0).unwrap(), Vec::<SimpNodeId>::new());
    assert_eq!(transitive_fanin(&network, y, INFINITY_LEVEL).unwrap(), vec![x, a]);
    assert_eq!(
        transitive_fanin(&network, SimpNodeId(9), 1),
        Err(SimpDcError::UnknownNode(SimpNodeId(9)))
    );
    assert!(simp_all_dc(&network, a).is_ok());
}

#[test]
fn connect_rejects_unknown_nodes_and_node_mut_edits_in_place() {
    let mut network = SimpNetwork::new();
    let a = network.add_node(SimpNode::new("a", SimpNodeKind::PrimaryInput, BoolExpr::one()));
    assert_eq!(
        network.connect(a, SimpNodeId(5)),
        Err(SimpDcError::UnknownNode(SimpNodeId(5)))
    );
    network.node_mut(a).unwrap().level = Some(7);
    assert_eq!(network.node(a).unwrap().level, Some(7));
    assert_eq!(level_table_from_nodes(&network), vec![(a, 7)]);
}

#[test]
fn error_messages_name_the_node() {
    assert_eq!(
        SimpDcError::UnknownNode(SimpNodeId(3)).message(),
        "unknown simplify node SimpNodeId(3)"
    );
    assert_eq!(
        SimpDcError::MissingLevel(SimpNodeId(1)).message(),
        "missing simplify level for SimpNodeId(1)"
    );
}
