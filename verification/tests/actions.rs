use rgbuilder::universe_actions::{
    run_step, ActionEventKind, RunCommand, RunEvent, RunPhase,
};

fn argv(parts: &[&str]) -> Vec<String> {
    parts.iter().map(|s| s.to_string()).collect()
}

#[test]
fn a_run_reports_start_lines_and_completion() {
    let (phase, out, cmd) = run_step(
        "semantic_index",
        RunPhase::Idle,
        &RunEvent::Begin {
            argv: argv(&["/bin/rg-build", "semantic", "index", "/repo"]),
            command: "/bin/rg-build semantic index /repo".to_string(),
        },
    );
    assert_eq!(phase, RunPhase::Spawning);
    assert_eq!(out.len(), 1);
    assert_eq!(out[0].kind, ActionEventKind::Started);
    assert_eq!(out[0].command.as_deref(), Some("/bin/rg-build semantic index /repo"));
    match cmd {
        RunCommand::Spawn { program, args } => {
            assert_eq!(program, "/bin/rg-build");
            assert_eq!(args, argv(&["semantic", "index", "/repo"]));
        }
        other => panic!("expected a spawn, got {other:?}"),
    }

    let (phase, out, _) = run_step("semantic_index", phase, &RunEvent::Spawned { has_stdout: true });
    assert_eq!(phase, RunPhase::Running);
    assert!(out.is_empty());

    let (phase, out, _) = run_step("semantic_index", phase, &RunEvent::StdoutLine("indexed 3\r\n".to_string()));
    assert_eq!(out[0].kind, ActionEventKind::Stdout);
    assert_eq!(out[0].line.as_deref(), Some("indexed 3"));

    let (phase, out, _) = run_step("semantic_index", phase, &RunEvent::StderrLine("\n".to_string()));
    assert!(out.is_empty());

    let (phase, out, _) = run_step(
        "semantic_index",
        phase,
        &RunEvent::Exited { success: true, code: Some(0) },
    );
    assert_eq!(phase, RunPhase::Finished);
    assert_eq!(out[0].kind, ActionEventKind::Completed);
    assert_eq!(out[0].exit_code, Some(0));

    let (phase, out, _) = run_step("semantic_index", phase, &RunEvent::StdoutLine("late".to_string()));
    assert_eq!(phase, RunPhase::Finished);
    assert!(out.is_empty());
}

#[test]
fn an_empty_command_is_an_error() {
    let (phase, out, cmd) = run_step(
        "cfg_refresh",
        RunPhase::Idle,
        &RunEvent::Begin { argv: vec![], command: String::new() },
    );
    assert_eq!(phase, RunPhase::Finished);
    assert_eq!(out.len(), 2);
    assert_eq!(out[1].kind, ActionEventKind::Error);
    assert_eq!(out[1].message.as_deref(), Some("empty command"));
    assert!(matches!(cmd, RunCommand::Wait));
}

#[test]
fn failures_timeouts_and_exit_codes() {
    let (_, out, cmd) = run_step("x", RunPhase::Spawning, &RunEvent::Spawned { has_stdout: false });
    assert_eq!(out[0].message.as_deref(), Some("failed to capture stdout"));
    assert!(matches!(cmd, RunCommand::Kill));

    let (_, out, cmd) = run_step("x", RunPhase::Running, &RunEvent::TimedOut);
    assert_eq!(out[0].message.as_deref(), Some("action timed out after 600s"));
    assert!(matches!(cmd, RunCommand::Kill));

    let (_, out, _) = run_step(
        "x",
        RunPhase::Running,
        &RunEvent::Exited { success: false, code: None },
    );
    assert_eq!(out[0].kind, ActionEventKind::Error);
    assert_eq!(out[0].exit_code, Some(-1));
    assert_eq!(out[0].message.as_deref(), Some("process exited with code -1"));

    let (phase, out, _) = run_step("x", RunPhase::Running, &RunEvent::StdoutFailed("broken pipe".to_string()));
    assert_eq!(phase, RunPhase::Running);
    assert_eq!(out[0].message.as_deref(), Some("broken pipe"));
}
