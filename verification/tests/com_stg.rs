use sis_native::com_stg::{
    assign_one_hot_encodings, com_stg_port_is_blocked, parse_stg_extract_args,
    parse_state_assign_args, parse_state_minimize_args, parse_stg_to_network_args,
    plan_stg_extract, should_check_network_stg_cover, stg_command_registrations, stg_extract,
    write_encoded_espresso_format, ComStgError, EspressoMode, ExternalStateToolInvocation,
    ExternalToolNotice, NetworkLatchSummary, StgCommandKind, StgExtractOptions, StgExtractPlan,
    StgExtractionTotals, StgToNetworkOptions, STATE_MINIMIZE_USAGE, STG_CHECK_EDGE_LIMIT,
    STG_LATCH_LIMIT,
};
use sis_native::stg::Stg;

#[test]
fn parses_stg_extract_options_and_latch_guards() {
    let options = parse_stg_extract_args(&["-ac"]).unwrap();
    assert_eq!(
        options,
        StgExtractOptions {
            all_start_states: true,
            override_latch_limit: false,
            check_containment: true,
        }
    );
    assert_eq!(
        plan_stg_extract(NetworkLatchSummary { latch_count: 0 }, options),
        Err(ComStgError::NoLatches)
    );
    assert_eq!(
        plan_stg_extract(NetworkLatchSummary { latch_count: 17 }, options),
        Err(ComStgError::TooManyLatchesForAllStartStates {
            latches: 17,
            limit: STG_LATCH_LIMIT,
        })
    );

    let override_options = parse_stg_extract_args(&["-e"]).unwrap();
    assert_eq!(
        plan_stg_extract(NetworkLatchSummary { latch_count: 17 }, override_options)
            .unwrap()
            .latch_count,
        17
    );
}

#[test]
fn cover_check_limit_matches_c_skip_rule() {
    let defaults = StgExtractOptions::default();
    assert!(should_check_network_stg_cover(
        defaults,
        StgExtractionTotals {
            states: 10,
            edges: STG_CHECK_EDGE_LIMIT,
        }
    ));
    assert!(!should_check_network_stg_cover(
        defaults,
        StgExtractionTotals {
            states: 10,
            edges: STG_CHECK_EDGE_LIMIT + 1,
        }
    ));
    assert!(should_check_network_stg_cover(
        StgExtractOptions {
            check_containment: true,
            ..StgExtractOptions::default()
        },
        StgExtractionTotals {
            states: 10,
            edges: STG_CHECK_EDGE_LIMIT + 1,
        }
    ));
}

#[test]
fn parses_stg_to_network_option_values() {
    assert_eq!(
        parse_stg_to_network_args(&[]).unwrap(),
        StgToNetworkOptions { encoding_option: 1 }
    );
    let options = parse_stg_to_network_args(&["-e2"]).unwrap();
    assert_eq!(options.encoding_option, 2);
    assert!(options.stg_single());
    assert_eq!(options.espresso_mode(), EspressoMode::FdSo);
    assert_eq!(
        parse_stg_to_network_args(&["-e", "3"]),
        Err(ComStgError::InvalidEncodingOption(3))
    );
    assert_eq!(
        parse_stg_to_network_args(&["-e"]),
        Err(ComStgError::MissingOptionValue('e'))
    );
}

#[test]
fn parses_external_state_tool_invocations() {
    assert_eq!(
        parse_state_assign_args(&[]).unwrap(),
        ExternalStateToolInvocation {
            program: "nova".to_owned(),
            options: Vec::new(),
            help_requested: false,
            notice: Some(ExternalToolNotice::Nova),
        }
    );

    assert_eq!(
        parse_state_assign_args(&["jedi", "-help"]).unwrap(),
        ExternalStateToolInvocation {
            program: "jedi".to_owned(),
            options: vec!["-help".to_owned()],
            help_requested: true,
            notice: Some(ExternalToolNotice::Jedi),
        }
    );

    assert_eq!(
        parse_state_minimize_args(&["freduce", "-help"])
            .unwrap()
            .help_requested,
        false
    );
    assert_eq!(
        parse_state_minimize_args(&["-x"]),
        Err(ComStgError::StateToolUsage {
            usage: STATE_MINIMIZE_USAGE
        })
    );
}

#[test]
fn assigns_one_hot_encodings_in_state_order() {
    let mut stg = Stg::with_dimensions(1, 1);
    let s0 = stg.create_state(Some("s0"), Some("old"));
    let s1 = stg.create_state(Some("s1"), Some("old"));
    let s2 = stg.create_state(Some("s2"), Some("old"));

    assert_eq!(
        assign_one_hot_encodings(&mut stg).unwrap(),
        ["100", "010", "001"]
    );
    assert_eq!(stg.state_encoding(s0), Some("100"));
    assert_eq!(stg.state_encoding(s1), Some("010"));
    assert_eq!(stg.state_encoding(s2), Some("001"));
}

#[test]
fn writes_encoded_espresso_format_like_com_stg_c() {
    let mut stg = Stg::with_dimensions(2, 1);
    let s0 = stg.create_state(Some("s0"), Some("00"));
    let s1 = stg.create_state(Some("s1"), Some("01"));
    stg.set_start(s0).unwrap();
    stg.create_transition(s0, s1, "1-", "0").unwrap();
    stg.create_transition(s1, s0, "0-", "1").unwrap();

    assert_eq!(
        write_encoded_espresso_format(&stg).unwrap(),
        ".type fr\n.i 4\n.o 3\n1- 00 01 0\n0- 01 00 1\n.e\n"
    );
}

#[test]
fn reports_missing_encoding_and_generic_blocked_error() {
    let mut stg = Stg::with_dimensions(1, 1);
    let s0 = stg.create_state(Some("s0"), None);
    stg.set_start(s0).unwrap();
    assert_eq!(
        write_encoded_espresso_format(&stg),
        Err(ComStgError::MissingStartEncoding)
    );

    assert!(com_stg_port_is_blocked());
    assert_eq!(stg_command_registrations().len(), 7);

    let error = stg_extract(StgExtractPlan {
        options: StgExtractOptions::default(),
        latch_count: 1,
    })
    .expect_err("native network extraction should be blocked");
    let ComStgError::Blocked { command } = error else {
        panic!("unexpected error kind");
    };
    assert_eq!(command, StgCommandKind::StgExtract);
}

#[test]
fn rejects_unknown_extract_flags_and_bare_words() {
    assert_eq!(
        parse_stg_extract_args(&["-az"]),
        Err(ComStgError::UnsupportedOption("-z".to_owned()))
    );
    assert_eq!(
        parse_stg_extract_args(&["x"]),
        Err(ComStgError::UnsupportedOption("x".to_owned()))
    );
    assert_eq!(
        parse_stg_extract_args(&[]).unwrap(),
        StgExtractOptions::default()
    );
}
