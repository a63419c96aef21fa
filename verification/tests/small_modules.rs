use sis_native::cpu_stats::{cpu_stats_report, CPU_STATS_UNAVAILABLE_MESSAGE};
use sis_native::end_test::{end_test, end_test_is_noop, EndTestDisposition, END_TEST_RATIONALE};
use sis_native::example::{
    example_port_is_blocked, parse_example_command_args, required_port_beads, ExampleCommand,
    ExampleCommandError,
};
use sis_native::init_test::{
    init_test_is_scaffolded, init_test_registration, test_command_handler, INIT_TEST_BLOCKER,
};
use sis_native::prtime::print_time;
use sis_native::saveimage::{save_image, SaveImageUnavailable, SAVE_IMAGE_UNAVAILABLE_MESSAGE};

#[test]
fn reports_noop_disposition() {
    assert_eq!(end_test(), EndTestDisposition::NoOp);
    assert!(end_test_is_noop());
}

#[test]
fn rationale_names_source_file() {
    assert!(END_TEST_RATIONALE.contains("end_test"));
    assert!(END_TEST_RATIONALE.contains("empty shutdown hook"));
}

#[test]
fn preserves_c_registration_metadata() {
    let registration = init_test_registration();

    assert_eq!(registration.name, "_test");
    assert_eq!(registration.handler.c_symbol, "com_test");
    assert!(registration.changes_network);
}

#[test]
fn documents_unported_handler_dependency() {
    assert!(init_test_is_scaffolded());
    assert!(test_command_handler().source_file.ends_with("test/example"));
    assert!(INIT_TEST_BLOCKER.contains("com_test"));
}

#[test]
fn parses_required_nodes_without_complement() {
    assert_eq!(
        parse_example_command_args(&["n1", "n2"]),
        Ok(ExampleCommand {
            target_node: "n1".to_owned(),
            divisor_node: "n2".to_owned(),
            use_complement: false,
        })
    );
}

#[test]
fn parses_complement_flag() {
    assert_eq!(
        parse_example_command_args(&["-c", "n1", "n2"])
            .unwrap()
            .use_complement,
        true
    );
}

#[test]
fn rejects_unknown_options_and_wrong_arity() {
    assert_eq!(
        parse_example_command_args(&["-x", "n1", "n2"]),
        Err(ExampleCommandError::UnsupportedOption("-x".to_owned()))
    );
    assert_eq!(
        parse_example_command_args(&["n1"]),
        Err(ExampleCommandError::WrongArity { actual: 1 })
    );
}

#[test]
fn reports_blocked_native_port_dependencies() {
    assert!(example_port_is_blocked());
    assert!(required_port_beads().contains(&"get-nodes"));
    assert!(required_port_beads().contains(&"divide"));
}

#[test]
fn formats_milliseconds_as_seconds_with_two_decimal_places() {
    assert_eq!(print_time(0), "0.00 sec");
    assert_eq!(print_time(1_234), "1.23 sec");
    assert_eq!(print_time(1_999), "1.99 sec");
}

#[test]
fn matches_c_integer_behavior_for_negative_values() {
    assert_eq!(print_time(-10), "0.-1 sec");
    assert_eq!(print_time(-1_234), "-1.-23 sec");
}

#[test]
fn save_image_reports_unavailable() {
    assert_eq!(save_image("sis", "sis.saved"), Err(SaveImageUnavailable));
}

#[test]
fn unavailable_message_matches_c_fallback() {
    assert_eq!(
        SAVE_IMAGE_UNAVAILABLE_MESSAGE,
        "util_save_image: not implemented on your operating system"
    );
}

#[test]
fn print_time_edge_values() {
    assert_eq!(print_time(5), "0.00 sec");
    assert_eq!(print_time(-5), "0.00 sec");
    assert_eq!(print_time(100_050), "100.05 sec");
    assert_eq!(print_time(i64::MAX), format!("{}.{:02} sec", i64::MAX / 1000, (i64::MAX % 1000) / 10));
    assert_eq!(print_time(i64::MIN), format!("{}.{:02} sec", i64::MIN / 1000, (i64::MIN % 1000) / 10));
}

#[test]
fn cpu_stats_report_is_the_unavailable_message() {
    assert_eq!(cpu_stats_report(), CPU_STATS_UNAVAILABLE_MESSAGE);
    assert_eq!(cpu_stats_report(), "Usage statistics not available\n");
}

#[test]
fn example_options_after_operands_and_repeated_flag() {
    assert_eq!(
        parse_example_command_args(&["a", "-c", "b", "-c"]),
        Ok(ExampleCommand {
            target_node: "a".to_owned(),
            divisor_node: "b".to_owned(),
            use_complement: true,
        })
    );
    assert_eq!(
        parse_example_command_args(&["a", "b", "c", "-y"]),
        Err(ExampleCommandError::UnsupportedOption("-y".to_owned()))
    );
    assert_eq!(parse_example_command_args(&[]), Err(ExampleCommandError::WrongArity { actual: 0 }));
}
