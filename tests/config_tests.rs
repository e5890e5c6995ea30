use git_smee_core::config::{
    check_source, Error, HookDefinition, LifeCyclePhase, ParseFailure, SmeeConfig, ValidationError,
};

const EXAMPLE_TOML: &str = "
    [[pre-commit]]
    command = 'cargo build'

    [[pre-commit]]
    command = 'cargo test'
    ";

fn entry(command: &str, parallel: bool) -> HookDefinition {
    HookDefinition { command: command.to_string(), parallel_execution_allowed: parallel }
}

#[test]
fn test_create_from_toml() {
    let config = SmeeConfig::from_toml_str(EXAMPLE_TOML).unwrap();
    assert_eq!(config.len(), 1);
    let hooks = config.get(LifeCyclePhase::PreCommit).unwrap();
    assert_eq!(hooks.len(), 2);
    let hook_definition = hooks.first().expect("Hook definition should be present");
    assert_eq!(hook_definition.command, "cargo build");
    assert!(!hook_definition.parallel_execution_allowed);
    let hook_definition = hooks.get(1).expect("Second Hook Definition should be present");
    assert_eq!(hook_definition.command, "cargo test");
    assert!(!hook_definition.parallel_execution_allowed);
}

#[test]
fn given_default_config_when_try_into_string_then_string() {
    let config = SmeeConfig::default();
    assert_eq!(config.len(), 1);

    let serialized_config: String = config.to_toml().unwrap();
    assert!(serialized_config.contains("pre-commit"))
}

#[test]
fn given_lifecycle_when_from_str_then_correct_enum_returned() {
    let all_enums = [
        LifeCyclePhase::ApplypatchMsg,
        LifeCyclePhase::PreApplypatch,
        LifeCyclePhase::PostApplypatch,
        LifeCyclePhase::PreCommit,
        LifeCyclePhase::PrepareCommitMsg,
        LifeCyclePhase::CommitMsg,
        LifeCyclePhase::PostCommit,
        LifeCyclePhase::PreMergeCommit,
        LifeCyclePhase::PreRebase,
        LifeCyclePhase::PostCheckout,
        LifeCyclePhase::PostMerge,
        LifeCyclePhase::PostRewrite,
        LifeCyclePhase::PrePush,
        LifeCyclePhase::ReferenceTransaction,
        LifeCyclePhase::PushToCheckout,
        LifeCyclePhase::PreAutoGc,
        LifeCyclePhase::PostUpdate,
        LifeCyclePhase::FsmonitorWatchman,
        LifeCyclePhase::PostIndexChange,
    ];
    all_enums.iter().for_each(|phase| {
        let phase_str = phase.as_str();
        let parsed_phase = LifeCyclePhase::from_str(phase_str).unwrap();
        assert_eq!(&parsed_phase, phase);
    });
}

#[test]
fn every_phase_name_parses_back_to_its_phase() {
    let all = LifeCyclePhase::all();
    assert_eq!(all.len(), 23);
    for phase in &all {
        assert_eq!(LifeCyclePhase::from_str(phase.as_str()).unwrap(), *phase);
    }
    assert_eq!(LifeCyclePhase::ProcReceive.as_str(), "proc-receive");
    assert_eq!(LifeCyclePhase::from_str("update").unwrap(), LifeCyclePhase::Update);
}

#[test]
fn unknown_phase_name_is_a_parsing_error() {
    match LifeCyclePhase::from_str("not-a-hook") {
        Err(Error::UnknownLifeCyclePhase(name)) => assert_eq!(name, "not-a-hook"),
        other => panic!("unexpected {other:?}"),
    }
    assert!(matches!(LifeCyclePhase::from_str("Pre-Commit"), Err(Error::UnknownLifeCyclePhase(_))));
}

#[test]
fn default_config_round_trips_through_toml() {
    let config = SmeeConfig::default();
    let text = config.to_toml().unwrap();
    let loaded = SmeeConfig::from_toml_str(&text).unwrap();
    assert_eq!(loaded.phases(), vec![LifeCyclePhase::PreCommit]);
    let hooks = loaded.get(LifeCyclePhase::PreCommit).unwrap();
    assert_eq!(hooks.len(), 1);
    assert_eq!(hooks[0].command, "echo 'Default pre-commit hook'");
    assert!(!hooks[0].parallel_execution_allowed);
}

#[test]
fn serialized_config_keeps_entry_order_and_flags() {
    let mut config = SmeeConfig::new();
    config.insert(LifeCyclePhase::PrePush, vec![entry("a", true), entry("b", false)]);
    let text = config.to_toml().unwrap();
    assert!(text.contains("[[pre-push]]"));
    let loaded = SmeeConfig::from_toml_str(&text).unwrap();
    let hooks = loaded.get(LifeCyclePhase::PrePush).unwrap();
    assert_eq!(hooks[0].command, "a");
    assert!(hooks[0].parallel_execution_allowed);
    assert_eq!(hooks[1].command, "b");
    assert!(!hooks[1].parallel_execution_allowed);
}

#[test]
fn blank_command_names_phase_and_position() {
    let mut config = SmeeConfig::new();
    config.insert(LifeCyclePhase::PreCommit, vec![entry("cargo test", false), entry(" \t ", false)]);
    assert_eq!(
        config.validate(),
        Err(ValidationError::EmptyCommand { phase: LifeCyclePhase::PreCommit, index: 2 })
    );
}

#[test]
fn empty_entry_list_names_phase() {
    let mut config = SmeeConfig::new();
    config.insert(LifeCyclePhase::PrePush, vec![]);
    assert_eq!(
        config.validate(),
        Err(ValidationError::EmptyHookEntries { phase: LifeCyclePhase::PrePush })
    );
}

#[test]
fn valid_config_passes_validation() {
    let mut config = SmeeConfig::new();
    config.insert(LifeCyclePhase::PreCommit, vec![entry("cargo build", false)]);
    config.insert(LifeCyclePhase::PrePush, vec![entry("cargo test", true)]);
    assert_eq!(config.validate(), Ok(()));
}

#[test]
fn first_violation_in_configuration_order_is_reported() {
    let mut config = SmeeConfig::new();
    config.insert(LifeCyclePhase::PrePush, vec![entry("", false)]);
    config.insert(LifeCyclePhase::PreCommit, vec![]);
    assert_eq!(
        config.validate(),
        Err(ValidationError::EmptyCommand { phase: LifeCyclePhase::PrePush, index: 1 })
    );
}

#[test]
fn empty_entry_list_in_document_is_rejected_on_load() {
    let result = SmeeConfig::from_toml_str("pre-commit = []\n");
    assert!(matches!(
        result,
        Err(Error::ValidationError(ValidationError::EmptyHookEntries {
            phase: LifeCyclePhase::PreCommit
        }))
    ));
}

#[test]
fn insert_replaces_entries_of_a_present_phase() {
    let mut config = SmeeConfig::new();
    assert!(config.is_empty());
    config.insert(LifeCyclePhase::PreCommit, vec![entry("one", false)]);
    config.insert(LifeCyclePhase::PreCommit, vec![entry("two", false), entry("three", true)]);
    assert_eq!(config.len(), 1);
    assert_eq!(config.get(LifeCyclePhase::PreCommit).unwrap().len(), 2);
    assert!(config.get(LifeCyclePhase::PostMerge).is_none());
}

#[test]
fn unknown_top_level_key_is_named() {
    let result = SmeeConfig::from_toml_str("[[pre-comit]]\ncommand = 'x'\n");
    match result {
        Err(Error::ParseError(ParseFailure::UnknownPhase(key))) => assert_eq!(key, "pre-comit"),
        other => panic!("unexpected {other:?}"),
    }
}

#[test]
fn unknown_entry_field_is_named() {
    let result = SmeeConfig::from_toml_str("[[pre-commit]]\ncommand = 'x'\nparallel = true\n");
    match result {
        Err(Error::ParseError(ParseFailure::UnknownField { phase, index, field })) => {
            assert_eq!(phase, LifeCyclePhase::PreCommit);
            assert_eq!(index, 1);
            assert_eq!(field, "parallel");
        },
        other => panic!("unexpected {other:?}"),
    }
}

#[test]
fn entry_without_command_is_rejected() {
    let result = SmeeConfig::from_toml_str(
        "[[pre-push]]\ncommand = 'x'\n[[pre-push]]\nparallel_execution_allowed = true\n",
    );
    assert!(matches!(
        result,
        Err(Error::ParseError(ParseFailure::MissingCommand { phase: LifeCyclePhase::PrePush, index: 2 }))
    ));
}

#[test]
fn mistyped_fields_are_rejected() {
    let result = SmeeConfig::from_toml_str("[[pre-push]]\ncommand = 3\n");
    assert!(matches!(
        result,
        Err(Error::ParseError(ParseFailure::InvalidCommand { phase: LifeCyclePhase::PrePush, index: 1 }))
    ));
    let result = SmeeConfig::from_toml_str("[[pre-push]]\ncommand = 'x'\nparallel_execution_allowed = 'yes'\n");
    assert!(matches!(
        result,
        Err(Error::ParseError(ParseFailure::InvalidFlag { phase: LifeCyclePhase::PrePush, index: 1 }))
    ));
}

#[test]
fn parallel_flag_is_read() {
    let config = SmeeConfig::from_toml_str(
        "[[post-merge]]\ncommand = 'a'\nparallel_execution_allowed = true\n",
    )
    .unwrap();
    assert!(config.get(LifeCyclePhase::PostMerge).unwrap()[0].parallel_execution_allowed);
}

#[test]
fn malformed_toml_is_a_syntax_failure() {
    let result = SmeeConfig::from_toml_str("[[pre-commit]\ncommand = ");
    assert!(matches!(result, Err(Error::ParseError(ParseFailure::Syntax(_)))));
}

#[test]
fn two_phases_are_loaded() {
    let config = SmeeConfig::from_toml_str(
        "[[pre-commit]]\ncommand = 'a'\n[[pre-commit]]\ncommand = 'b'\n[[pre-push]]\ncommand = 'c'\n",
    )
    .unwrap();
    assert_eq!(config.get(LifeCyclePhase::PreCommit).unwrap().len(), 2);
    assert_eq!(config.get(LifeCyclePhase::PrePush).unwrap().len(), 1);
}

#[test]
fn config_source_checks() {
    assert!(matches!(check_source(false, false, None), Err(Error::MissingFile)));
    assert!(matches!(check_source(true, false, Some("toml")), Err(Error::NotAFile)));
    assert!(matches!(check_source(true, true, None), Err(Error::CanNotReadExtension)));
    assert!(matches!(check_source(true, true, Some("yaml")), Err(Error::NotATomlFileExtension)));
    assert!(check_source(true, true, Some("toml")).is_ok());
}

#[test]
fn written_document_names_the_entry_fields() {
    let text = SmeeConfig::default().to_toml().unwrap();
    assert!(text.contains("[[pre-commit]]"));
    assert!(text.contains("command = \"echo 'Default pre-commit hook'\""));
    assert!(text.contains("parallel_execution_allowed = false"));
}
