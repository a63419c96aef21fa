use sis_native::com_retime::{
    c_float_prefix, parse_check_translation_args, retime_command_registrations,
    scan_retime_options, CheckTranslationAction, CommandParseError, CommandRegistration,
    RetimeCommandError, RetimeCommandKind,
};
use sis_native::numparse::c_atoi;

#[test]
fn registrations_match_init_retime() {
    assert_eq!(
        retime_command_registrations(),
        vec![
            CommandRegistration {
                name: "retime".to_string(),
                kind: RetimeCommandKind::Retime,
                changes_network: true,
            },
            CommandRegistration {
                name: "_check_tr".to_string(),
                kind: RetimeCommandKind::CheckTranslation,
                changes_network: true,
            },
            CommandRegistration {
                name: "_print_stats".to_string(),
                kind: RetimeCommandKind::PrintStats,
                changes_network: false,
            },
        ]
    );
}

#[test]
fn check_translation_options_and_plan() {
    let check = parse_check_translation_args(&["-n"]).unwrap();
    assert!(!check.options.use_mapped_network);
    assert_eq!(check.options.debug_level, 100);
    assert!(check.actions.contains(&CheckTranslationAction::DumpAndCheckGraph));
    assert_eq!(check.actions.len(), 11);

    let plain = parse_check_translation_args(&[]).unwrap();
    assert!(plain.options.use_mapped_network);
}

#[test]
fn scanning_rejects_operands_unknown_options_and_missing_values() {
    assert_eq!(
        parse_check_translation_args(&["operand"]).unwrap_err(),
        CommandParseError::UnsupportedOption("operand".to_owned())
    );
    assert_eq!(
        scan_retime_options(&["-c"], "fimnv:c:d:a:t:").unwrap_err(),
        CommandParseError::MissingOptionValue('c')
    );
    assert_eq!(
        scan_retime_options(&["-x"], "d:a:").unwrap_err(),
        CommandParseError::UnsupportedOption("-x".to_owned())
    );
    assert_eq!(
        scan_retime_options(&["--", "late"], "n").unwrap_err(),
        CommandParseError::UnsupportedOption("late".to_owned())
    );
    assert_eq!(scan_retime_options(&["--"], "n").unwrap(), vec![]);
}

#[test]
fn scanning_collects_clustered_options_and_values() {
    let events = scan_retime_options(
        &["-fimn", "-v", "21x", "-c3.5", "-t", ".25"],
        "fimnv:c:d:a:t:",
    )
    .unwrap();
    assert_eq!(
        events,
        vec![
            ('f', String::new()),
            ('i', String::new()),
            ('m', String::new()),
            ('n', String::new()),
            ('v', "21x".to_string()),
            ('c', "3.5".to_string()),
            ('t', ".25".to_string()),
        ]
    );
}

#[test]
fn c_number_helpers_keep_atof_and_atoi_prefix_behavior() {
    assert_eq!(c_atoi(&"  -42z".chars().collect()), -42);
    assert_eq!(c_atoi(&"word".chars().collect()), 0);
    assert_eq!(c_float_prefix("  +1.25e2ms"), Some("+1.25e2".to_string()));
    assert_eq!(c_float_prefix("bad"), None);
    assert_eq!(c_float_prefix("1e+"), Some("1".to_string()));
    assert_eq!(c_float_prefix(".5x"), Some(".5".to_string()));
    assert_eq!(c_float_prefix("0.4ms"), Some("0.4".to_string()));
}

#[test]
fn error_messages() {
    assert_eq!(
        CommandParseError::MissingOptionValue('c').message(),
        "-c requires an argument"
    );
    assert_eq!(
        CommandParseError::UnsupportedOption("-x".to_string()).message(),
        "unsupported option -x"
    );
    assert_eq!(
        RetimeCommandError::MissingNativeSupport { command: RetimeCommandKind::Retime }.message(),
        "Retime requires native network support"
    );
}
