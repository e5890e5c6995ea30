use git_smee_core::config::{HookDefinition, LifeCyclePhase, SmeeConfig};
use git_smee_core::executor::{command_line, judge_outcome, redact, Error, PhaseRun, ProcessOutcome, Step};
use git_smee_core::platform::Platform;

fn config_with(entries: &[(&str, bool)]) -> SmeeConfig {
    let mut config = SmeeConfig::new();
    config.insert(
        LifeCyclePhase::PreCommit,
        entries
            .iter()
            .map(|(c, p)| HookDefinition { command: c.to_string(), parallel_execution_allowed: *p })
            .collect(),
    );
    config
}

/// Drives a run, answering each step from `fails`, and gives the commands
/// asked for, in order, with the result.
fn drive(config: &SmeeConfig, fails: &[&str]) -> (Vec<String>, Result<(), Error>) {
    let mut run = PhaseRun::start(config, LifeCyclePhase::PreCommit).unwrap();
    let mut asked = Vec::new();
    loop {
        match run.next_step() {
            Step::RunSequential(i) => {
                let command = run.sequential_command(i).to_string();
                let result = if fails.contains(&command.as_str()) { Err(Error::ExecutionFailed(1)) } else { Ok(()) };
                asked.push(command);
                run.record(result);
            },
            Step::RunParallel => {
                let commands = run.parallel_commands().clone();
                let mut result = Ok(());
                for c in commands {
                    if fails.contains(&c.as_str()) && result.is_ok() {
                        result = Err(Error::ExecutionFailed(2));
                    }
                    asked.push(format!("parallel {c}"));
                }
                run.record(result);
            },
            Step::Finished => return (asked, run.finish()),
        }
    }
}

#[test]
fn given_empty_smee_config_when_executing_hook_then_no_hooks_configured_error() {
    let config = SmeeConfig::new();

    let result = PhaseRun::start(&config, LifeCyclePhase::PreCommit);
    assert!(matches!(result, Err(Error::NoHooksConfigured(LifeCyclePhase::PreCommit))));
}

#[test]
fn sequential_commands_run_in_order_before_parallel_ones() {
    let config = config_with(&[("p1", true), ("s1", false), ("p2", true), ("s2", false), ("p3", true)]);
    let (asked, result) = drive(&config, &[]);
    assert!(result.is_ok());
    assert_eq!(asked, vec!["s1", "s2", "parallel p1", "parallel p2", "parallel p3"]);
}

#[test]
fn failing_sequential_command_stops_the_run() {
    let config = config_with(&[("p1", true), ("s1", false), ("s2", false), ("s3", false), ("p2", true)]);
    let (asked, result) = drive(&config, &["s2"]);
    assert!(matches!(result, Err(Error::ExecutionFailed(1))));
    assert_eq!(asked, vec!["s1", "s2"]);
}

#[test]
fn parallel_failure_is_the_result() {
    let config = config_with(&[("s1", false), ("p1", true), ("p2", true)]);
    let (asked, result) = drive(&config, &["p2"]);
    assert!(matches!(result, Err(Error::ExecutionFailed(2))));
    assert_eq!(asked, vec!["s1", "parallel p1", "parallel p2"]);
}

#[test]
fn only_parallel_commands() {
    let config = config_with(&[("p1", true)]);
    let (asked, result) = drive(&config, &[]);
    assert!(result.is_ok());
    assert_eq!(asked, vec!["parallel p1"]);
}

#[test]
fn exit_codes_are_judged() {
    assert!(judge_outcome(Platform::Unix, "echo ok", ProcessOutcome::Exited(0)).is_ok());
    assert!(matches!(
        judge_outcome(Platform::Unix, "exit 1", ProcessOutcome::Exited(1)),
        Err(Error::ExecutionFailed(1))
    ));
    assert!(matches!(
        judge_outcome(Platform::Unix, "sleep 100", ProcessOutcome::Signalled),
        Err(Error::ExecutionTerminatedBySignal)
    ));
}

#[test]
fn spawn_failure_shows_bare_program_name() {
    let result = judge_outcome(
        Platform::Unix,
        "nonexistent_command",
        ProcessOutcome::SpawnFailed("No such file or directory".to_string()),
    );
    match result {
        Err(Error::CommandSpawnFailed { command, shell, reason }) => {
            assert_eq!(command, "nonexistent_command");
            assert_eq!(shell, "sh -c");
            assert_eq!(reason, "No such file or directory");
        },
        other => panic!("unexpected {other:?}"),
    }
}

#[test]
fn secrets_never_reach_spawn_errors() {
    let line = "API_TOKEN=s3cr3t deploy --password hunter2 --key=abc";
    let result = judge_outcome(Platform::Windows, line, ProcessOutcome::SpawnFailed("denied".to_string()));
    match result {
        Err(Error::CommandSpawnFailed { command, shell, .. }) => {
            assert_eq!(command, "deploy <args redacted>");
            assert_eq!(shell, "cmd.exe /C");
            assert!(!command.contains("s3cr3t"));
            assert!(!command.contains("hunter2"));
            assert!(!command.contains("abc"));
        },
        other => panic!("unexpected {other:?}"),
    }
}

#[test]
fn redaction_cases() {
    assert_eq!(redact("  cargo   test --all "), "cargo <args redacted>");
    assert_eq!(redact("ls"), "ls");
    assert_eq!(redact("A=1 B=2"), " <args redacted>");
    assert_eq!(redact("   "), "");
    assert_eq!(redact("./bin/x=y run"), "./bin/x=y <args redacted>");
    assert_eq!(redact("--flag=1 rest"), "--flag=1 <args redacted>");
    let long = "a".repeat(81);
    assert_eq!(redact(&long), format!("{}...", "a".repeat(80)));
    let exact = "b".repeat(80);
    assert_eq!(redact(&exact), exact);
}

#[test]
fn blank_commands_are_not_run() {
    assert!(matches!(command_line(Platform::Unix, " \t"), Err(Error::NoCommandDefined)));
    assert!(matches!(command_line(Platform::Unix, ""), Err(Error::NoCommandDefined)));
    assert_eq!(command_line(Platform::Unix, "echo ok").unwrap(), ("sh", "-c"));
    assert_eq!(command_line(Platform::Windows, "echo ok").unwrap(), ("cmd.exe", "/C"));
}

