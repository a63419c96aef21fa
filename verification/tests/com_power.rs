use sis_native::com_power::{
    dispatch_power_command, execute_with_missing_dependencies, power_command_registrations,
    register_power_commands, CommandRegistration, PowerCommandBackend, PowerCommandError,
    PowerCommandInvocation, PowerCommandKind, PowerCommandOperation, POWER_FREE_INFO_USAGE,
    POWER_PRINT_USAGE,
};

#[derive(Default)]
struct RecordingBackend {
    calls: Vec<String>,
}

impl PowerCommandBackend for RecordingBackend {
    fn power_command_line_interface(&mut self, argv: &[String]) -> Result<i32, PowerCommandError> {
        self.calls.push(format!("estimate:{argv:?}"));
        Ok(0)
    }

    fn free_power_info(&mut self) -> Result<i32, PowerCommandError> {
        self.calls.push("free".to_owned());
        Ok(0)
    }

    fn print_power_info(&mut self) -> Result<i32, PowerCommandError> {
        self.calls.push("print".to_owned());
        Ok(0)
    }
}

#[test]
fn command_registrations_match_init_power_table() {
    assert_eq!(
        power_command_registrations(),
        vec![
            CommandRegistration {
                name: "power_estimate",
                kind: PowerCommandKind::Estimate,
                changes_network: true,
            },
            CommandRegistration {
                name: "power_free_info",
                kind: PowerCommandKind::FreeInfo,
                changes_network: true,
            },
            CommandRegistration {
                name: "power_print",
                kind: PowerCommandKind::Print,
                changes_network: false,
            },
        ]
    );
}

#[test]
fn estimate_forwards_full_argv_to_power_command_line_interface() {
    let mut backend = RecordingBackend::default();
    let invocation = PowerCommandInvocation::new(
        PowerCommandKind::Estimate,
        &["power_estimate", "-m", "sampling"],
    );

    assert_eq!(dispatch_power_command(&mut backend, &invocation), Ok(0));
    assert_eq!(
        backend.calls,
        vec!["estimate:[\"power_estimate\", \"-m\", \"sampling\"]"]
    );
}

#[test]
fn utility_commands_accept_only_command_name_argument() {
    let mut backend = RecordingBackend::default();

    assert_eq!(
        dispatch_power_command(
            &mut backend,
            &PowerCommandInvocation::new(PowerCommandKind::FreeInfo, &["power_free_info"]),
        ),
        Ok(0)
    );
    assert_eq!(
        dispatch_power_command(
            &mut backend,
            &PowerCommandInvocation::new(PowerCommandKind::Print, &["power_print"]),
        ),
        Ok(0)
    );
    assert_eq!(backend.calls, vec!["free", "print"]);
}

#[test]
fn utility_commands_report_legacy_usage_on_extra_arguments() {
    assert_eq!(
        dispatch_power_command(
            &mut RecordingBackend::default(),
            &PowerCommandInvocation::new(PowerCommandKind::FreeInfo, &["power_free_info", "x"]),
        ),
        Err(PowerCommandError::TooManyArguments {
            command: PowerCommandKind::FreeInfo,
            usage: POWER_FREE_INFO_USAGE,
        })
    );
    assert_eq!(
        dispatch_power_command(
            &mut RecordingBackend::default(),
            &PowerCommandInvocation::new(PowerCommandKind::Print, &["power_print", "x"]),
        )
        .unwrap_err()
        .message(),
        POWER_PRINT_USAGE
    );
}

#[test]
fn command_registration_is_blocked_on_command_registry_port() {
    assert_eq!(
        register_power_commands(),
        Err(PowerCommandError::MissingNativeSupport {
            operation: PowerCommandOperation::RegisterCommands,
        })
    );
}

#[test]
fn missing_backend_reports_each_operation() {
    let inv = PowerCommandInvocation::new(PowerCommandKind::Print, &["power_print"]);
    assert_eq!(inv.argc(), 1);
    let err = execute_with_missing_dependencies(&inv).unwrap_err();
    assert_eq!(err, PowerCommandError::MissingNativeSupport { operation: PowerCommandOperation::Print });
    assert_eq!(err.message(), "operation Print requires native network support");
    assert_eq!(
        execute_with_missing_dependencies(&PowerCommandInvocation::new(PowerCommandKind::Print, &[])),
        Err(PowerCommandError::TooManyArguments { command: PowerCommandKind::Print, usage: POWER_PRINT_USAGE })
    );
    assert_eq!(PowerCommandError::Backend("boom".to_owned()).message(), "boom");
}
