use desktop_tui::command::{
    bounded_seconds, exit_description, finish_once, next_failure_count, optional_directory,
    parse_arguments, parse_bool, parse_environment, parse_exit_behavior, poll_child,
    report_message, restart_delay, restart_notice, valid_environment_name, CommandCanvasError,
    CommandCanvasSettings, ExitBehavior, ExitStatusSummary, PollAction, Supervisor,
    SupervisorAction, STABLE_RUN_SECONDS,
};
use std::time::Duration;

#[test]
fn parses_exact_argument_boundaries() {
    let arguments = parse_arguments(r#"["one value","$HOME","*.rs",""]"#).unwrap();
    assert_eq!(arguments, ["one value", "$HOME", "*.rs", ""]);
}

#[test]
fn rejects_non_array_arguments() {
    let error = parse_arguments(r#"{"argument":"value"}"#).unwrap_err();
    assert!(error.message().contains("JSON array"));
}

#[test]
fn parses_environment_values_containing_equals() {
    let environment = parse_environment("TOKEN=left=right\nEMPTY=\n").unwrap();
    assert_eq!(
        environment,
        [
            ("TOKEN".into(), "left=right".into()),
            ("EMPTY".into(), String::new())
        ]
    );
}

#[test]
fn rejects_invalid_environment_names() {
    assert!(parse_environment("GOOD=value").is_ok());
    assert!(parse_environment("9BAD=value").is_err());
    assert!(parse_environment("ALSO-BAD=value").is_err());
    assert!(parse_environment("MISSING_VALUE").is_err());
}

#[test]
fn parses_exit_behaviors() {
    assert_eq!(
        parse_exit_behavior("keep-output").unwrap(),
        ExitBehavior::KeepOutput
    );
    assert_eq!(
        parse_exit_behavior("interval").unwrap(),
        ExitBehavior::Interval
    );
    assert_eq!(
        parse_exit_behavior("restart").unwrap(),
        ExitBehavior::Restart
    );
    assert!(parse_exit_behavior("loop-forever").is_err());
}

#[test]
fn bounds_delays() {
    assert_eq!(bounded_seconds(Some("0"), 30, 1), 1);
    assert_eq!(bounded_seconds(Some("999999"), 30, 1), 86_400);
    assert_eq!(bounded_seconds(Some("invalid"), 30, 1), 30);
    assert_eq!(bounded_seconds(None, 0, 0), 0);
}

#[test]
fn restart_backoff_is_bounded() {
    assert_eq!(Duration::from_secs(restart_delay(1)), Duration::from_secs(1));
    assert_eq!(Duration::from_secs(restart_delay(2)), Duration::from_secs(2));
    assert_eq!(Duration::from_secs(restart_delay(5)), Duration::from_secs(16));
    assert_eq!(Duration::from_secs(restart_delay(6)), Duration::from_secs(30));
    assert_eq!(Duration::from_secs(restart_delay(100)), Duration::from_secs(30));
}

#[test]
fn stable_run_resets_restart_failures() {
    assert_eq!(next_failure_count(4, Duration::from_secs(2).as_secs()), 5);
    assert_eq!(
        next_failure_count(4, Duration::from_secs(STABLE_RUN_SECONDS).as_secs()),
        0
    );
}

#[test]
fn restart_delay_never_shrinks() {
    assert_eq!(restart_delay(0), 1);
    let mut previous = 0;
    for failures in 0..100 {
        let delay = restart_delay(failures);
        assert!(delay >= previous && delay <= 30);
        previous = delay;
    }
    assert_eq!(restart_delay(u32::MAX), 30);
    assert_eq!(next_failure_count(u32::MAX, 0), u32::MAX);
}

#[test]
fn environment_lines_are_trimmed_and_blank_lines_skipped() {
    let environment = parse_environment("  A=1  \r\n\n\t\nB_2= two \n").unwrap();
    assert_eq!(
        environment,
        [("A".into(), "1".into()), ("B_2".into(), " two".into())]
    );
    assert_eq!(parse_environment("").unwrap(), Vec::<(String, String)>::new());
}

#[test]
fn environment_errors_name_the_first_bad_line() {
    assert_eq!(
        parse_environment("GOOD=1\n bad line \nALSO=2").unwrap_err(),
        CommandCanvasError::InvalidEnvironmentEntry("bad line".into())
    );
    assert_eq!(
        parse_environment("9X=1\nno equals").unwrap_err(),
        CommandCanvasError::InvalidEnvironmentName("9X".into())
    );
    assert_eq!(
        parse_environment("=value").unwrap_err(),
        CommandCanvasError::InvalidEnvironmentName(String::new())
    );
}

#[test]
fn environment_names_follow_the_shell_rules() {
    assert!(valid_environment_name("_"));
    assert!(valid_environment_name("Path_2"));
    assert!(!valid_environment_name(""));
    assert!(!valid_environment_name("2PATH"));
    assert!(!valid_environment_name("PA TH"));
}

#[test]
fn exit_behavior_is_trimmed_and_defaults_to_keeping_output() {
    assert_eq!(parse_exit_behavior("  ").unwrap(), ExitBehavior::KeepOutput);
    assert_eq!(parse_exit_behavior(" restart\n").unwrap(), ExitBehavior::Restart);
    assert_eq!(
        parse_exit_behavior(" Restart ").unwrap_err(),
        CommandCanvasError::UnknownExitBehavior("Restart".into())
    );
}

#[test]
fn seconds_accept_a_plus_sign_but_not_spaces() {
    assert_eq!(bounded_seconds(Some("+45"), 30, 1), 45);
    assert_eq!(bounded_seconds(Some(" 45"), 30, 1), 30);
    assert_eq!(bounded_seconds(Some("18446744073709551616"), 30, 1), 30);
    assert_eq!(bounded_seconds(Some("18446744073709551615"), 30, 1), 86_400);
}

#[test]
fn flags_are_on_unless_turned_off() {
    assert!(parse_bool(None, true));
    assert!(!parse_bool(None, false));
    for off in ["0", "false", " no ", "off"] {
        assert!(!parse_bool(Some(off), true));
    }
    for on in ["1", "yes", "FALSE", ""] {
        assert!(parse_bool(Some(on), false));
    }
}

#[test]
fn working_directory_must_exist() {
    assert_eq!(optional_directory("   ", false).unwrap(), None);
    assert_eq!(optional_directory(" /tmp ", true).unwrap(), Some("/tmp".into()));
    assert_eq!(
        optional_directory(" /nowhere ", false).unwrap_err(),
        CommandCanvasError::MissingWorkingDirectory("/nowhere".into())
    );
}

#[test]
fn error_messages_are_plain_language() {
    let cases = [
        (
            CommandCanvasError::NoProgram,
            "command canvas has no program; configure one in the widget settings",
        ),
        (
            CommandCanvasError::InvalidArguments("oops".into()),
            "command arguments could not be decoded as a JSON array: oops",
        ),
        (
            CommandCanvasError::InvalidEnvironmentEntry("X".into()),
            "invalid environment entry `X`; expected NAME=VALUE",
        ),
        (
            CommandCanvasError::InvalidEnvironmentName("9".into()),
            "invalid environment variable name `9`",
        ),
        (
            CommandCanvasError::MissingWorkingDirectory("/a".into()),
            "command working directory does not exist: /a",
        ),
        (
            CommandCanvasError::UnknownExitBehavior("x".into()),
            "unknown command exit behavior `x`",
        ),
        (
            CommandCanvasError::StartFailed {
                program: "p".into(),
                detail: "d".into(),
            },
            "could not start command `p`: d",
        ),
        (
            CommandCanvasError::WaitFailed("d".into()),
            "could not wait for command: d",
        ),
        (
            CommandCanvasError::InspectFailed("d".into()),
            "could not inspect command status: d",
        ),
        (
            CommandCanvasError::KillFailed {
                timeout_seconds: 12,
                detail: "d".into(),
            },
            "command exceeded its 12 second timeout and could not be stopped: d",
        ),
        (
            CommandCanvasError::TimedOut { timeout_seconds: 1 },
            "command exceeded its 1 second timeout",
        ),
        (
            CommandCanvasError::Exited { code: Some(-3) },
            "command exited with status -3",
        ),
        (
            CommandCanvasError::Exited { code: None },
            "command exited with a signal",
        ),
        (
            CommandCanvasError::ClearFailed("d".into()),
            "could not clear the terminal: d",
        ),
    ];
    for (error, text) in cases {
        assert_eq!(error.message(), text);
    }
}

#[test]
fn exit_descriptions_name_the_status() {
    assert_eq!(exit_description(ExitStatusSummary { code: Some(0) }), "status 0");
    assert_eq!(exit_description(ExitStatusSummary { code: Some(127) }), "status 127");
    assert_eq!(
        exit_description(ExitStatusSummary { code: Some(i32::MIN) }),
        "status -2147483648"
    );
    assert_eq!(exit_description(ExitStatusSummary { code: None }), "a signal");
}

#[test]
fn settings_come_from_the_values_read() {
    let settings = CommandCanvasSettings::from_values(
        Some("  /usr/bin/printf "),
        Some(r#"["a b"]"#),
        Some(" /tmp "),
        true,
        Some("X=1"),
        Some("interval"),
        Some("0"),
        Some("5"),
        Some("off"),
    )
    .unwrap();
    assert_eq!(settings.program, "/usr/bin/printf");
    assert_eq!(settings.arguments, ["a b"]);
    assert_eq!(settings.working_directory, Some("/tmp".into()));
    assert_eq!(settings.environment, [("X".into(), "1".into())]);
    assert_eq!(settings.exit_behavior, ExitBehavior::Interval);
    assert_eq!(settings.interval_seconds, 1);
    assert_eq!(settings.timeout_seconds, Some(5));
    assert!(!settings.clear_between_runs);

    let defaults =
        CommandCanvasSettings::from_values(Some("top"), None, None, false, None, None, None, None, None)
            .unwrap();
    assert!(defaults.arguments.is_empty());
    assert_eq!(defaults.working_directory, None);
    assert_eq!(defaults.exit_behavior, ExitBehavior::KeepOutput);
    assert_eq!(defaults.interval_seconds, 30);
    assert_eq!(defaults.timeout_seconds, None);
    assert!(defaults.clear_between_runs);
}

#[test]
fn settings_report_the_first_problem() {
    let error = |program, arguments, directory, exists, environment, behavior| {
        CommandCanvasSettings::from_values(
            program, arguments, directory, exists, environment, behavior, None, None, None,
        )
        .err()
        .unwrap()
    };
    assert_eq!(
        error(Some("  "), Some("{"), None, false, Some("9=1"), Some("x")),
        CommandCanvasError::NoProgram
    );
    assert!(matches!(
        error(Some("p"), Some("{"), Some("/x"), false, Some("9=1"), Some("x")),
        CommandCanvasError::InvalidArguments(_)
    ));
    assert_eq!(
        error(Some("p"), None, Some("/x"), false, Some("9=1"), Some("x")),
        CommandCanvasError::MissingWorkingDirectory("/x".into())
    );
    assert_eq!(
        error(Some("p"), None, None, false, Some("9=1"), Some("x")),
        CommandCanvasError::InvalidEnvironmentName("9".into())
    );
    assert_eq!(
        error(Some("p"), None, None, false, None, Some("x")),
        CommandCanvasError::UnknownExitBehavior("x".into())
    );
}

#[test]
fn keep_output_finishes_with_the_exit_status() {
    assert_eq!(finish_once(Ok(ExitStatusSummary { code: Some(0) })), Ok(()));
    assert_eq!(
        finish_once(Ok(ExitStatusSummary { code: Some(2) })),
        Err(CommandCanvasError::Exited { code: Some(2) })
    );
    assert_eq!(
        finish_once(Err(CommandCanvasError::TimedOut { timeout_seconds: 1 })),
        Err(CommandCanvasError::TimedOut { timeout_seconds: 1 })
    );
}

#[test]
fn reports_describe_failed_runs_only() {
    assert_eq!(report_message(&Ok(ExitStatusSummary { code: Some(0) })), None);
    assert_eq!(
        report_message(&Ok(ExitStatusSummary { code: Some(1) })).unwrap(),
        "desktop-tui: command exited with status 1"
    );
    assert_eq!(
        report_message(&Err(CommandCanvasError::WaitFailed("gone".into()))).unwrap(),
        "desktop-tui: could not wait for command: gone"
    );
    assert_eq!(restart_notice(1), "desktop-tui: command exited; restarting in 1 second");
    assert_eq!(restart_notice(8), "desktop-tui: command exited; restarting in 8 seconds");
}

#[test]
fn supervisor_backs_off_and_clears_between_runs() {
    let mut supervisor = Supervisor::new();
    assert!(!supervisor.begin_run(true));
    assert!(supervisor.begin_run(true));
    assert!(!supervisor.begin_run(false));
    let mut delays = Vec::new();
    for _ in 0..8 {
        match supervisor.after_run(
            ExitBehavior::Restart,
            30,
            Ok(ExitStatusSummary { code: Some(1) }),
            1,
        ) {
            SupervisorAction::Restart { seconds, report, .. } => {
                assert!(report.is_some());
                delays.push(seconds);
            }
            other => panic!("unexpected {other:?}"),
        }
    }
    assert_eq!(delays, [1, 2, 4, 8, 16, 30, 30, 30]);
    match supervisor.after_run(ExitBehavior::Restart, 30, Ok(ExitStatusSummary { code: Some(0) }), 31) {
        SupervisorAction::Restart { seconds, report, notice } => {
            assert_eq!(seconds, 1);
            assert_eq!(report, None);
            assert_eq!(notice, "desktop-tui: command exited; restarting in 1 second");
        }
        other => panic!("unexpected {other:?}"),
    }
    match supervisor.after_run(ExitBehavior::Interval, 45, Ok(ExitStatusSummary { code: None }), 0) {
        SupervisorAction::Wait { seconds, report } => {
            assert_eq!(seconds, 45);
            assert_eq!(report.unwrap(), "desktop-tui: command exited with a signal");
        }
        other => panic!("unexpected {other:?}"),
    }
    match supervisor.after_run(ExitBehavior::KeepOutput, 45, Ok(ExitStatusSummary { code: Some(0) }), 0) {
        SupervisorAction::Finish(result) => assert_eq!(result, Ok(())),
        other => panic!("unexpected {other:?}"),
    }
}

#[test]
fn a_child_is_stopped_once_its_timeout_passes() {
    let done = ExitStatusSummary { code: Some(0) };
    assert_eq!(poll_child(Some(done), 99, 1), PollAction::Exited(done));
    assert_eq!(poll_child(None, 0, 1), PollAction::Wait);
    assert_eq!(poll_child(None, 1, 1), PollAction::Kill);
}

#[test]
fn settings_take_decoded_arguments() {
    let settings = CommandCanvasSettings::from_decoded(
        Some("echo"),
        Ok(vec!["x".to_string(), "".to_string()]),
        None,
        false,
        None,
        None,
        None,
        None,
        None,
    )
    .unwrap();
    assert_eq!(settings.arguments, ["x", ""]);

    let error = CommandCanvasSettings::from_decoded(
        Some("echo"),
        Err("bad".to_string()),
        None,
        false,
        None,
        None,
        None,
        None,
        None,
    )
    .err()
    .unwrap();
    assert_eq!(error, CommandCanvasError::InvalidArguments("bad".into()));

    let no_program = CommandCanvasSettings::from_decoded(
        None,
        Err("bad".to_string()),
        None,
        false,
        None,
        None,
        None,
        None,
        None,
    )
    .err()
    .unwrap();
    assert_eq!(no_program, CommandCanvasError::NoProgram);
}

#[test]
fn argument_error_carries_the_decoder_text() {
    let text = r#"["a", 1]"#;
    let expected = serde_json::from_str::<Vec<String>>(text).unwrap_err().to_string();
    let error = parse_arguments(text).unwrap_err();
    assert_eq!(error, CommandCanvasError::InvalidArguments(expected.clone()));
    assert_eq!(
        error.message(),
        format!("command arguments could not be decoded as a JSON array: {expected}")
    );
    let settings_error = CommandCanvasSettings::from_values(
        Some("p"),
        Some(text),
        None,
        false,
        None,
        None,
        None,
        None,
        None,
    )
    .err()
    .unwrap();
    assert_eq!(settings_error, CommandCanvasError::InvalidArguments(expected));
}
