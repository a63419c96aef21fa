use sis_native::speedup::{
    algebraic_resubstitution_targets, compare_cutset_nodes, generate_revised_order,
    plan_initial_decomp, DelayModel, InitialDecompAction, SpeedFlags,
    plan_primary_output_cleanup, plan_resubstitution_attempts, plan_speed_replace,
    speed_is_fanout_po, speed_up_node_action, CutsetNode, CutsetOrderContext,
    CutsetTransformType, CutsetWeight, DecompCandidate, NodeFunction, NodeKind,
    PrimaryOutputCleanupAction, ReplaceAction, ReplaceParameters, ResubNode,
    ResubstitutionAction, SpeedUpError, SpeedUpNodeAction,
};
use std::cmp::Ordering;

fn cut_node(id: &'static str, fanins: &[&'static str]) -> CutsetNode<'static> {
    CutsetNode {
        id,
        fanins: fanins.to_vec(),
    }
}

fn resub(
    id: &'static str,
    kind: NodeKind,
    fanins: &[&'static str],
    fanouts: &[&'static str],
    literal_count: usize,
) -> ResubNode<'static> {
    ResubNode {
        id,
        kind,
        fanins: fanins.to_vec(),
        fanouts: fanouts.to_vec(),
        literal_count,
    }
}

fn chain_context(weights: Option<Vec<(&'static str, CutsetWeight)>>, transforms: Vec<CutsetTransformType>) -> CutsetOrderContext<'static> {
    CutsetOrderContext {
        nodes: vec![
            cut_node("a", &[]),
            cut_node("b", &["a"]),
            cut_node("c", &["b"]),
        ],
        weights,
        transforms,
    }
}

#[test]
fn node_decomposition_gate_matches_c_fast_paths() {
    assert_eq!(
        speed_up_node_action(NodeKind::PrimaryInput, 5, 4, 4, false),
        SpeedUpNodeAction::SingleLevelUpdate
    );
    assert_eq!(
        speed_up_node_action(NodeKind::Internal, 0, 4, 4, false),
        SpeedUpNodeAction::SingleLevelUpdate
    );
    assert_eq!(
        speed_up_node_action(NodeKind::Internal, 1, 2, 1, false),
        SpeedUpNodeAction::SingleLevelUpdate
    );
    assert_eq!(
        speed_up_node_action(NodeKind::Internal, 3, 3, 2, true),
        SpeedUpNodeAction::DecomposeAndReplace { delay_flag: true }
    );
}

#[test]
fn replace_plan_models_reverse_add_resub_and_single_fanin_cleanup() {
    let params = ReplaceParameters {
        area_reclaim: true,
        add_inv: false,
    };
    let nodes = [
        DecompCandidate {
            id: "old-copy",
            kind: NodeKind::Internal,
            fanin_count: 3,
        },
        DecompCandidate {
            id: "root",
            kind: NodeKind::Internal,
            fanin_count: 2,
        },
        DecompCandidate {
            id: "pi-stub",
            kind: NodeKind::PrimaryInput,
            fanin_count: 0,
        },
        DecompCandidate {
            id: "gate-a",
            kind: NodeKind::Internal,
            fanin_count: 2,
        },
        DecompCandidate {
            id: "gate-b",
            kind: NodeKind::Internal,
            fanin_count: 1,
        },
    ];

    assert_eq!(
        plan_speed_replace("orig", &nodes, params, 1, false),
        vec![
            ReplaceAction::FreeOriginalDecompNode("old-copy"),
            ReplaceAction::ComputeRootArrival("root"),
            ReplaceAction::AddNode("gate-b"),
            ReplaceAction::AddNode("gate-a"),
            ReplaceAction::FreePrimaryInputStub("pi-stub"),
            ReplaceAction::ReplaceOriginalWithRoot {
                original: "orig",
                root: "root",
            },
            ReplaceAction::SetOriginalArrival("orig"),
            ReplaceAction::TryAlgebraicResubstitute {
                node: "gate-a",
                excluded_nodes: vec!["pi-stub"],
            },
            ReplaceAction::DeleteResubstitutedNode("gate-a"),
            ReplaceAction::DeleteSingleFaninNode("gate-b"),
            ReplaceAction::DeleteOriginalIfSingleFaninNonPo("orig"),
        ]
    );
}

#[test]
fn trivial_replacement_simplifies_original_and_updates_arrival() {
    let params = ReplaceParameters { area_reclaim: false, add_inv: false };
    let nodes = [
        DecompCandidate {
            id: "old",
            kind: NodeKind::Internal,
            fanin_count: 1,
        },
        DecompCandidate {
            id: "root",
            kind: NodeKind::Internal,
            fanin_count: 1,
        },
    ];

    assert_eq!(
        plan_speed_replace("orig", &nodes, params, 2, false),
        vec![
            ReplaceAction::SimplifyOriginal("orig"),
            ReplaceAction::UpdateOriginalArrival("orig"),
        ]
    );
}

#[test]
fn primary_output_cleanup_patches_buffers_and_collapses_inverters() {
    assert_eq!(
        plan_primary_output_cleanup(
            "po",
            "buf",
            NodeFunction::Buffer,
            Some("fanin"),
            &["po", "other"],
        ),
        vec![
            PrimaryOutputCleanupAction::PatchPrimaryOutputFanin {
                primary_output: "po",
                removed_buffer: "buf",
                replacement: "fanin",
            },
            PrimaryOutputCleanupAction::CollapseSingleFaninNodeIntoFanout {
                node: "buf",
                fanout: "po",
            },
            PrimaryOutputCleanupAction::CollapseSingleFaninNodeIntoFanout {
                node: "buf",
                fanout: "other",
            },
            PrimaryOutputCleanupAction::DeleteIfFanoutless("buf"),
        ]
    );

    assert_eq!(
        plan_primary_output_cleanup("po", "inv", NodeFunction::Inverter, None, &["po"]),
        vec![
            PrimaryOutputCleanupAction::CollapseSingleFaninNodeIntoFanout {
                node: "inv",
                fanout: "po",
            },
            PrimaryOutputCleanupAction::DeleteIfFanoutless("inv"),
        ]
    );
}

#[test]
fn small_decisions() {
    assert!(speed_is_fanout_po(&[NodeFunction::Buffer, NodeFunction::PrimaryOutput]));
    assert!(!speed_is_fanout_po(&[NodeFunction::Buffer, NodeFunction::Other]));
    assert_eq!(CutsetTransformType::from_c_type(0), CutsetTransformType::Clp);
    assert_eq!(CutsetTransformType::from_c_type(2), CutsetTransformType::Dual);
    assert_eq!(CutsetTransformType::from_c_type(7), CutsetTransformType::Unknown(7));
    assert!(CutsetTransformType::Clp.fanin_based());
    assert!(!CutsetTransformType::Fan.fanin_based());
    assert!(plan_primary_output_cleanup(1usize, 2, NodeFunction::Other, None, &[3]).is_empty());
    let params = ReplaceParameters { area_reclaim: false, add_inv: true };
    let nodes = [
        DecompCandidate { id: 10usize, kind: NodeKind::Internal, fanin_count: 3 },
        DecompCandidate { id: 11, kind: NodeKind::Internal, fanin_count: 2 },
        DecompCandidate { id: 12, kind: NodeKind::Internal, fanin_count: 1 },
        DecompCandidate { id: 13, kind: NodeKind::Internal, fanin_count: 1 },
    ];
    assert_eq!(
        plan_speed_replace(9usize, &nodes, params, 1, true),
        vec![
            ReplaceAction::FreeOriginalDecompNode(10),
            ReplaceAction::ComputeRootArrival(11),
            ReplaceAction::AddNode(13),
            ReplaceAction::AddNode(12),
            ReplaceAction::ReplaceOriginalWithRoot { original: 9, root: 11 },
            ReplaceAction::SetOriginalArrival(9),
        ]
    );
}

#[test]
fn revised_order_places_outputs_before_fanins_for_fanin_based_methods() {
    let context = chain_context(None, Vec::new());

    assert_eq!(
        generate_revised_order(&["a", "b", "c"], &context).unwrap(),
        vec!["c", "b", "a"]
    );
}

#[test]
fn revised_order_reverses_tfi_precedence_for_fanout_based_methods() {
    let context = chain_context(
        Some(vec![
            ("a", CutsetWeight { best_technique: 0 }),
            ("b", CutsetWeight { best_technique: 0 }),
            ("c", CutsetWeight { best_technique: 0 }),
        ]),
        vec![CutsetTransformType::Fan],
    );

    assert_eq!(
        generate_revised_order(&["c", "b", "a"], &context).unwrap(),
        vec!["a", "b", "c"]
    );
}

#[test]
fn mixed_cutset_techniques_place_fanout_optimizations_first() {
    let context = CutsetOrderContext {
        nodes: vec![cut_node("fanin", &[]), cut_node("fanout", &[])],
        weights: Some(vec![
            ("fanin", CutsetWeight { best_technique: 0 }),
            ("fanout", CutsetWeight { best_technique: 1 }),
        ]),
        transforms: vec![CutsetTransformType::Clp, CutsetTransformType::Fan],
    };

    assert_eq!(
        generate_revised_order(&["fanin", "fanout"], &context).unwrap(),
        vec!["fanout", "fanin"]
    );
}

#[test]
fn algebraic_resubstitution_targets_are_unique_sorted_and_filtered() {
    let nodes = vec![
        resub("f", NodeKind::Internal, &["a", "b"], &["only"], 2),
        resub("a", NodeKind::Internal, &[], &["x", "y"], 1),
        resub("b", NodeKind::Internal, &[], &["y", "z"], 1),
        resub("x", NodeKind::Internal, &["a"], &[], 1),
        resub("y", NodeKind::Internal, &["a", "b"], &[], 1),
        resub("z", NodeKind::Internal, &["b", "c", "d"], &[], 1),
        resub("only", NodeKind::Internal, &[], &[], 1),
    ];
    let excluded = ["x"];

    assert_eq!(
        algebraic_resubstitution_targets("f", &nodes, Some(&excluded)).unwrap(),
        vec!["y"]
    );
}

#[test]
fn resubstitution_plan_preserves_c_candidate_and_cleanup_rules() {
    let nodes = vec![
        resub("f", NodeKind::Internal, &["a"], &["fo"], 1),
        resub("a", NodeKind::Internal, &[], &["target"], 1),
        resub("target", NodeKind::Internal, &["a"], &["last"], 1),
        resub("fo", NodeKind::Internal, &["f"], &[], 1),
    ];

    assert_eq!(
        plan_resubstitution_attempts("f", &nodes, None).unwrap(),
        vec![
            ResubstitutionAction::TrySubstitute {
                source: "f",
                target: "target",
            },
            ResubstitutionAction::CollapseSourceIntoFanout {
                source: "f",
                fanout: "fo",
            },
            ResubstitutionAction::DeleteSourceIfFanoutless("f"),
        ]
    );
}

#[test]
fn revised_order_rejects_unknown_nodes_first() {
    let context = chain_context(None, Vec::new());
    assert_eq!(
        generate_revised_order(&["a", "q", "r"], &context),
        Err(SpeedUpError::UnknownNode("q".to_string()))
    );
    assert_eq!(generate_revised_order(&[], &context).unwrap(), Vec::<&str>::new());
}

#[test]
fn revised_order_reports_comparison_failures() {
    let context = chain_context(
        Some(vec![("a", CutsetWeight { best_technique: 0 })]),
        vec![CutsetTransformType::Fan],
    );
    assert_eq!(
        generate_revised_order(&["a", "b"], &context),
        Err(SpeedUpError::MissingWeight("b".to_string()))
    );
    let context = chain_context(
        Some(vec![
            ("a", CutsetWeight { best_technique: 0 }),
            ("b", CutsetWeight { best_technique: 3 }),
        ]),
        vec![CutsetTransformType::Fan],
    );
    assert_eq!(
        generate_revised_order(&["a", "b"], &context),
        Err(SpeedUpError::MissingTransform(3))
    );
}

#[test]
fn revised_order_keeps_unrelated_nodes_in_place() {
    let context = CutsetOrderContext {
        nodes: vec![cut_node("p", &[]), cut_node("q", &[]), cut_node("r", &["p"])],
        weights: None,
        transforms: Vec::new(),
    };
    assert_eq!(
        generate_revised_order(&["q", "p", "r"], &context).unwrap(),
        vec!["q", "r", "p"]
    );
}

#[test]
fn cutset_comparison_follows_transitive_fanin() {
    let context = chain_context(None, Vec::new());
    assert_eq!(compare_cutset_nodes("c", "a", &context), Ok(Ordering::Less));
    assert_eq!(compare_cutset_nodes("a", "c", &context), Ok(Ordering::Greater));
    assert_eq!(compare_cutset_nodes("a", "a", &context), Ok(Ordering::Equal));
    let broken = CutsetOrderContext {
        nodes: vec![cut_node("a", &["ghost"])],
        weights: None,
        transforms: Vec::new(),
    };
    assert_eq!(
        compare_cutset_nodes("a", "b", &broken),
        Err(SpeedUpError::UnknownNode("ghost".to_string()))
    );
}

#[test]
fn initial_decomp_plan_bypasses_mapped_new_mode_or_sets_temporary_flags() {
    let mapped = SpeedFlags {
        new_mode: true,
        model: DelayModel::Mapped,
        interactive: true,
        ..SpeedFlags::default()
    };
    let bypass = plan_initial_decomp(&["n"], &mapped);
    assert_eq!(
        bypass.actions,
        vec![InitialDecompAction::BypassMappedNetwork]
    );

    let params = SpeedFlags {
        add_inv: false,
        debug: true,
        del_crit_cubes: false,
        area_reclaim: true,
        num_tries: 7,
        ..SpeedFlags::default()
    };
    let plan = plan_initial_decomp(&["n1", "n2"], &params);
    assert_eq!(plan.temporary_parameters.num_tries, 1);
    assert!(!plan.temporary_parameters.debug);
    assert!(plan.temporary_parameters.del_crit_cubes);
    assert_eq!(plan.restored_parameters, params);
    assert_eq!(
        plan.actions,
        vec![
            InitialDecompAction::NetworkCsweep,
            InitialDecompAction::DelayTrace,
            InitialDecompAction::SimplifyNode("n1"),
            InitialDecompAction::SpeedUpNode {
                node: "n1",
                delay_flag: true,
            },
            InitialDecompAction::SimplifyNode("n2"),
            InitialDecompAction::SpeedUpNode {
                node: "n2",
                delay_flag: true,
            },
            InitialDecompAction::AlgebraicResubstitution,
            InitialDecompAction::NetworkCsweep,
        ]
    );
}

#[test]
fn initial_decomp_with_inverters_and_no_nodes() {
    let params = SpeedFlags {
        add_inv: true,
        ..SpeedFlags::default()
    };
    let plan = plan_initial_decomp::<&str>(&[], &params);
    assert_eq!(
        plan.actions,
        vec![
            InitialDecompAction::AddInvertersToNetwork,
            InitialDecompAction::DelayTrace,
            InitialDecompAction::AddInvertersToNetwork,
        ]
    );
    let bypass_unit = SpeedFlags {
        new_mode: true,
        ..SpeedFlags::default()
    };
    assert_eq!(plan_initial_decomp(&["x"], &bypass_unit).actions.len(), 5);
}
