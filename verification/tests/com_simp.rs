use sis_native::com_simp::{
    execute_simplify_command, find_node_levels, full_simplify_usage, get_cone_levels,
    parse_full_simplify_args, parse_internal_simp_args, parse_simplify_args,
    parse_simplify_command, simplify_command_registrations, simplify_usage, CommandParseError,
    CommandRegistration, FullSimplifyAction, FullSimplifyCommandPlan, SimAccept, SimDcType,
    SimFilter, SimMethod, SimplifyAction, SimplifyCommand, SimplifyCommandBackend,
    SimplifyCommandError, SimplifyCommandKind, SimplifyCommandPlan, SimplifyGraphNode,
    SimplifyNodeKind, BDD_NODE_LIMIT, BDD_NODE_LOW,
};

#[test]
fn registrations_match_init_simplify_commands() {
    assert_eq!(
        simplify_command_registrations(),
        &[
            CommandRegistration {
                name: "simplify",
                kind: SimplifyCommandKind::Simplify,
                changes_network: true,
            },
            CommandRegistration {
                name: "_simp",
                kind: SimplifyCommandKind::InternalSimp,
                changes_network: true,
            },
            CommandRegistration {
                name: "full_simplify",
                kind: SimplifyCommandKind::FullSimplify,
                changes_network: false,
            },
        ]
    );
}

#[test]
fn parses_simplify_defaults_and_cone_levels() {
    let plan =
        parse_simplify_args(&["-i", "2:3", "-m", "dcsimp", "-fdisj_sup", "-t", "n1"]).unwrap();

    assert_eq!(plan.command, SimplifyCommandKind::Simplify);
    assert_eq!(plan.options.method, SimMethod::DcSimp);
    assert_eq!(plan.options.dctype, SimDcType::Fanin);
    assert_eq!(plan.options.filter, SimFilter::DisjointSupport);
    assert!(plan.options.trace);
    assert_eq!(plan.options.fanin_level, 2);
    assert_eq!(plan.options.fanin_fanout_level, 3);
    assert_eq!(plan.options.node_names, vec!["n1"]);
    assert!(
        plan.actions
            .contains(&SimplifyAction::OrderNodesForSimplify)
    );
}

#[test]
fn parses_internal_simp_accept_dctype_method_filter_and_levels() {
    let plan = parse_internal_simp_args(&[
        "-a", "sop_lits", "-d", "fanout", "-i2", "-o", "4", "-m", "min_lit", "-f", "sdist",
        "-Dt", "x", "y",
    ])
    .unwrap();

    assert_eq!(plan.command, SimplifyCommandKind::InternalSimp);
    assert_eq!(plan.options.accept, SimAccept::SopLiterals);
    assert_eq!(plan.options.dctype, SimDcType::Inout);
    assert_eq!(plan.options.method, SimMethod::ExactLits);
    assert_eq!(plan.options.filter, SimFilter::SecondDistance);
    assert_eq!(plan.options.fanin_level, 2);
    assert_eq!(plan.options.fanin_fanout_level, 4);
    assert!(plan.options.debug);
    assert!(plan.options.trace);
    assert_eq!(plan.options.node_names, vec!["x", "y"]);
    assert!(
        !plan
            .actions
            .contains(&SimplifyAction::OrderNodesForSimplify)
    );
}

#[test]
fn parses_full_simplify_and_models_major_driver_order() {
    let plan = parse_full_simplify_args(&["-o1", "-t", "12", "-l", "-d", "-m", "nocomp", "-v"])
        .unwrap();

    assert_eq!(plan.options.ordering, 1);
    assert_eq!(plan.options.timeout_seconds, 12);
    assert_eq!(plan.options.filter, SimFilter::Level);
    assert_eq!(plan.options.dctype, SimDcType::Fanin);
    assert_eq!(plan.options.method, SimMethod::NoComp);
    assert!(plan.options.verbose);
    assert_eq!(
        plan.actions,
        vec![
            FullSimplifyAction::ResetGlobalFlags {
                verbose: true,
                trace: false,
                fanin_level: 1,
                fanin_fanout_level: 0,
            },
            FullSimplifyAction::InstallTimeoutHandler { seconds: 12 },
            FullSimplifyAction::ComputeLevelFilter,
            FullSimplifyAction::CollectPrimaryOutputs,
            FullSimplifyAction::CopyAndAttachDcNetwork,
            FullSimplifyAction::OrderPrimaryInputsByLevel,
            FullSimplifyAction::StartBddManager,
            FullSimplifyAction::ConvertNodesToBdds {
                low_node_threshold: BDD_NODE_LOW,
                hard_node_limit: BDD_NODE_LIMIT,
            },
            FullSimplifyAction::SimplifyWithoutOdc,
            FullSimplifyAction::CleanupBddCspfAndDcNetwork,
        ]
    );
}

#[test]
fn cone_level_parser_keeps_c_atoi_edge_cases() {
    assert_eq!(get_cone_levels(""), None);
    assert_eq!(get_cone_levels("1 2"), None);
    assert_eq!(get_cone_levels("5"), Some((5, 0)));
    assert_eq!(get_cone_levels(":7"), Some((1, 7)));
    assert_eq!(get_cone_levels("8:"), Some((8, 0)));
    assert_eq!(get_cone_levels("bad:9x"), Some((0, 9)));
    assert_eq!(get_cone_levels("-2:+3"), Some((-2, 3)));
}

#[test]
fn find_node_levels_matches_c_dfs_scan_rules() {
    let nodes = vec![
        SimplifyGraphNode::new("a", SimplifyNodeKind::PrimaryInput, vec![]),
        SimplifyGraphNode::new("b", SimplifyNodeKind::PrimaryInput, vec![]),
        SimplifyGraphNode::new(
            "n1",
            SimplifyNodeKind::Internal,
            vec!["a".to_owned(), "b".to_owned()],
        ),
        SimplifyGraphNode::new(
            "n2",
            SimplifyNodeKind::Internal,
            vec!["n1".to_owned(), "missing".to_owned()],
        ),
        SimplifyGraphNode::new("po", SimplifyNodeKind::PrimaryOutput, vec!["n2".to_owned()]),
    ];

    let levels = find_node_levels(&nodes);
    assert_eq!(levels.get("a"), None);
    assert_eq!(levels.get("n1"), Some(&1));
    assert_eq!(levels.get("n2"), Some(&2));
    assert_eq!(levels.get("po"), Some(&3));
}

#[test]
fn rejects_unknown_options_and_values_like_usage_failures() {
    assert_eq!(
        parse_simplify_args(&["-m", "espresso"]).unwrap_err(),
        CommandParseError::UnknownMethod("espresso".to_owned())
    );
    assert_eq!(
        parse_internal_simp_args(&["-a", "cost"]).unwrap_err(),
        CommandParseError::UnknownAccept("cost".to_owned())
    );
    assert_eq!(
        parse_full_simplify_args(&["-f", "exact"]).unwrap_err(),
        CommandParseError::UnknownFilter("exact".to_owned())
    );
    assert_eq!(
        parse_simplify_args(&["-i"]).unwrap_err(),
        CommandParseError::MissingOptionValue('i')
    );
}

#[derive(Default)]
struct RecordingBackend {
    simplified: Vec<SimplifyCommandPlan>,
}

impl SimplifyCommandBackend for RecordingBackend {
    fn simplify(&mut self, plan: &SimplifyCommandPlan) -> Result<(), SimplifyCommandError> {
        self.simplified.push(plan.clone());
        Ok(())
    }
}

#[test]
fn dispatch_invokes_native_backend() {
    let mut network = RecordingBackend::default();
    let command = SimplifyCommand::Simplify(parse_simplify_args(&["n"]).unwrap());

    execute_simplify_command(&mut network, &command).unwrap();

    assert_eq!(
        network.simplified,
        vec![parse_simplify_args(&["n"]).unwrap()]
    );
}

#[test]
fn scans_option_clusters_double_dash_and_operands() {
    let plan = parse_simplify_args(&["-td", "--", "-x", "y"]).unwrap();
    assert!(plan.options.trace);
    assert_eq!(plan.options.dctype, SimDcType::NoDontCare);
    assert_eq!(plan.options.node_names, vec!["-x", "y"]);
    assert_eq!(
        parse_simplify_args(&["-z"]).unwrap_err(),
        CommandParseError::UnsupportedOption("-z".to_owned())
    );
    assert_eq!(
        parse_simplify_args(&["-i", "1 2"]).unwrap_err(),
        CommandParseError::InvalidConeLevels("1 2".to_owned())
    );
    let plan = parse_simplify_args(&["-l", "-", "z"]).unwrap();
    assert_eq!(plan.options.node_names, vec!["-", "z"]);
    assert_eq!(plan.actions[1], SimplifyAction::ComputeNodeLevels);
}

#[test]
fn internal_levels_merge_dont_care_types() {
    let plan = parse_internal_simp_args(&["-d", "all", "-i", " 7"]).unwrap();
    assert_eq!(plan.options.dctype, SimDcType::All);
    assert_eq!(plan.options.fanin_level, 7);
    let plan = parse_internal_simp_args(&["-o", "-99999999999"]).unwrap();
    assert_eq!(plan.options.dctype, SimDcType::Fanin);
    assert_eq!(plan.options.fanin_fanout_level, -2147483647);
    assert_eq!(
        parse_internal_simp_args(&["-d", "bogus"]).unwrap_err(),
        CommandParseError::UnknownDontCareType("bogus".to_owned())
    );
}

#[test]
fn command_names_select_the_parser_and_usage_lines() {
    assert!(matches!(
        parse_simplify_command("full_simplify", &[]).unwrap(),
        SimplifyCommand::FullSimplify(_)
    ));
    assert_eq!(
        parse_simplify_command("other", &[]).unwrap_err(),
        CommandParseError::UnsupportedOption("other".to_owned())
    );
    assert_eq!(
        simplify_usage("simplify"),
        "usage: simplify [-d][-i <num>[:<num>]] [-m method] [-f filter] [node-list]\n"
    );
    assert_eq!(
        full_simplify_usage("full_simplify"),
        "usage: full_simplify [-d][-o ordering] [-m method] [-l] [-t time] [-v]\n"
    );
    let plan = parse_full_simplify_args(&[]).unwrap();
    assert_eq!(plan.actions[1], FullSimplifyAction::CollectPrimaryOutputs);
    assert_eq!(plan.actions[6], FullSimplifyAction::SimplifyWithOdc);
    assert_eq!(
        parse_full_simplify_args(&["-t"]).unwrap_err(),
        CommandParseError::MissingOptionValue('t')
    );
    let _: FullSimplifyCommandPlan = plan;
    let _ = SimAccept::Cubes;
    let _ = SimFilter::Unfiltered;
}
