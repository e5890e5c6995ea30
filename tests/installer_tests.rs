use std::cell::RefCell;
use std::collections::BTreeMap;
use std::sync::atomic::{AtomicU8, Ordering};

use git_smee_core::config::{HookDefinition, LifeCyclePhase, SmeeConfig};
use git_smee_core::installer::{
    hook_files, install_hooks, is_managed, managed_config_text, marker_text, render_hook_script,
    with_managed_header, Error, FileKind, FileSystemHookInstaller, HookInstaller, HookScriptOptions,
    MarkerStyle,
};
use git_smee_core::platform::Platform;

struct AssertingHookInstaller {
    assertion: fn(hook_name: &str, hook_content: &str) -> (),
    number_of_installed_hooks: AtomicU8,
}

impl HookInstaller for AssertingHookInstaller {
    fn install_hook(&self, hook_name: &str, hook_content: &str) -> Result<(), Error> {
        (self.assertion)(hook_name, hook_content);
        self.number_of_installed_hooks.fetch_add(1, Ordering::SeqCst);
        Ok(())
    }
}

/// A hooks directory held in memory, guarded by the installer's overwrite
/// rules.
struct MemoryRepo {
    policy: FileSystemHookInstaller,
    files: RefCell<BTreeMap<String, String>>,
}

impl MemoryRepo {
    fn new(force: bool) -> Self {
        MemoryRepo {
            policy: FileSystemHookInstaller::from_path("hooks".to_string(), true).unwrap().with_force(force),
            files: RefCell::new(BTreeMap::new()),
        }
    }
}

impl HookInstaller for MemoryRepo {
    fn install_hook(&self, hook_name: &str, hook_content: &str) -> Result<(), Error> {
        let existing = self.files.borrow().get(hook_name).cloned();
        self.policy.ensure_can_write(hook_name, existing.as_deref(), FileKind::Hook)?;
        self.files.borrow_mut().insert(hook_name.to_string(), hook_content.to_string());
        Ok(())
    }
}

fn options() -> HookScriptOptions {
    HookScriptOptions {
        executable_path: "/usr/local/bin/git-smee".to_string(),
        config_path: "/repo/.git-smee.toml".to_string(),
    }
}

fn one_hook(command: &str) -> Vec<HookDefinition> {
    vec![HookDefinition { command: command.to_string(), parallel_execution_allowed: false }]
}

#[test]
fn given_empty_smee_config_when_installing_hooks_then_no_hooks_present_error() {
    let config = SmeeConfig::new();

    let installer = AssertingHookInstaller {
        assertion: |_, _| panic!("No hooks should be installed"),
        number_of_installed_hooks: AtomicU8::new(0),
    };

    let result = install_hooks(&config, &options(), Platform::Unix, &installer);
    assert!(matches!(result, Err(Error::NoHooksPresent)));
    assert_eq!(installer.number_of_installed_hooks.load(Ordering::SeqCst), 0);
}

#[test]
fn given_single_hook_when_installing_hooks_then_hook_installed() {
    let mut config = SmeeConfig::new();
    config.insert(LifeCyclePhase::PreCommit, one_hook("echo Pre-commit hook"));

    let installer = AssertingHookInstaller {
        assertion: |hook_name, hook_content| {
            assert_eq!(hook_name, "pre-commit");
            assert!(hook_content.contains("run pre-commit"));
        },
        number_of_installed_hooks: AtomicU8::new(0),
    };

    let result = install_hooks(&config, &options(), Platform::Unix, &installer);
    assert!(result.is_ok());
    assert_eq!(installer.number_of_installed_hooks.load(Ordering::SeqCst), 1);
}

#[test]
fn given_multiple_hooks_when_installing_hooks_then_all_hooks_installed() {
    let mut config = SmeeConfig::new();
    config.insert(LifeCyclePhase::PreCommit, one_hook("echo Pre-commit hook"));
    config.insert(LifeCyclePhase::PrePush, one_hook("echo Pre-push hook"));
    let installer = AssertingHookInstaller {
        assertion: |hook_name, hook_content| match hook_name {
            "pre-commit" => {
                assert!(hook_content.contains("run pre-commit"));
            },
            "pre-push" => {
                assert!(hook_content.contains("run pre-push"));
            },
            _ => panic!("Unexpected hook name: {hook_name}"),
        },
        number_of_installed_hooks: AtomicU8::new(0),
    };
    let result = install_hooks(&config, &options(), Platform::Unix, &installer);
    assert!(result.is_ok());
    assert_eq!(installer.number_of_installed_hooks.load(Ordering::SeqCst), 2);
}

#[test]
fn installing_twice_overwrites_managed_hooks() {
    let mut config = SmeeConfig::new();
    config.insert(LifeCyclePhase::PreCommit, one_hook("cargo test"));
    let repo = MemoryRepo::new(false);
    assert!(install_hooks(&config, &options(), Platform::Unix, &repo).is_ok());
    let first = repo.files.borrow().get("pre-commit").cloned().unwrap();
    assert!(is_managed(&first));
    assert!(install_hooks(&config, &options(), Platform::Unix, &repo).is_ok());
    assert_eq!(repo.files.borrow().get("pre-commit").cloned().unwrap(), first);
}

#[test]
fn unmanaged_hook_is_left_untouched() {
    let mut config = SmeeConfig::new();
    config.insert(LifeCyclePhase::PreCommit, one_hook("cargo test"));
    let repo = MemoryRepo::new(false);
    let own = "#!/bin/sh\necho my own hook\n".to_string();
    repo.files.borrow_mut().insert("pre-commit".to_string(), own.clone());
    match install_hooks(&config, &options(), Platform::Unix, &repo) {
        Err(Error::RefusingToOverwriteUnmanagedHookFile(name)) => assert_eq!(name, "pre-commit"),
        other => panic!("unexpected {other:?}"),
    }
    assert_eq!(repo.files.borrow().get("pre-commit").cloned().unwrap(), own);
}

#[test]
fn forced_install_replaces_unmanaged_hook() {
    let mut config = SmeeConfig::new();
    config.insert(LifeCyclePhase::PreCommit, one_hook("cargo test"));
    let repo = MemoryRepo::new(true);
    repo.files.borrow_mut().insert("pre-commit".to_string(), "echo mine\n".to_string());
    assert!(install_hooks(&config, &options(), Platform::Unix, &repo).is_ok());
    assert!(is_managed(&repo.files.borrow().get("pre-commit").cloned().unwrap()));
}

#[test]
fn config_file_is_never_replaced_without_force() {
    let installer = FileSystemHookInstaller::from_path("hooks".to_string(), true).unwrap();
    let managed = managed_config_text(&SmeeConfig::default()).unwrap();
    assert!(matches!(
        installer.ensure_can_write(".git-smee.toml", Some(&managed), FileKind::Config),
        Err(Error::RefusingToOverwriteManagedConfigFile(_))
    ));
    assert!(matches!(
        installer.ensure_can_write(".git-smee.toml", Some("[[pre-push]]\n"), FileKind::Config),
        Err(Error::RefusingToOverwriteUnmanagedConfigFile(_))
    ));
    assert!(installer.ensure_can_write(".git-smee.toml", None, FileKind::Config).is_ok());
    let forced = FileSystemHookInstaller::from_path("hooks".to_string(), true).unwrap().with_force(true);
    assert!(forced.ensure_can_write(".git-smee.toml", Some(&managed), FileKind::Config).is_ok());
}

#[test]
fn managed_config_text_loads_back() {
    let text = managed_config_text(&SmeeConfig::default()).unwrap();
    assert!(text.starts_with(marker_text(MarkerStyle::Hash)));
    let loaded = SmeeConfig::from_toml_str(&text).unwrap();
    assert_eq!(loaded.phases(), vec![LifeCyclePhase::PreCommit]);
}

#[test]
fn unix_hook_script_for_pre_commit() {
    let script = render_hook_script(Platform::Unix, LifeCyclePhase::PreCommit, &options());
    assert_eq!(
        script,
        format!(
            "#!/usr/bin/env sh\n{}\nset -e\nexec '/usr/local/bin/git-smee' --config '/repo/.git-smee.toml' run pre-commit -- \"$@\"\n",
            marker_text(MarkerStyle::Hash)
        )
    );
    assert!(is_managed(&script));
}

#[test]
fn windows_hook_script_for_pre_push() {
    let opts = HookScriptOptions {
        executable_path: "C:\\tools\\git-smee.exe".to_string(),
        config_path: "C:\\repo\\100%.toml".to_string(),
    };
    let script = render_hook_script(Platform::Windows, LifeCyclePhase::PrePush, &opts);
    assert_eq!(
        script,
        format!(
            "{}\n\n@echo off\r\n\"C:\\tools\\git-smee.exe\" --config \"C:\\repo\\100%%.toml\" run pre-push -- %*\r\nexit /b %ERRORLEVEL%\r\n",
            marker_text(MarkerStyle::Rem)
        )
    );
    assert!(is_managed(&script));
}

#[test]
fn hook_files_follow_configuration_order() {
    let mut config = SmeeConfig::new();
    config.insert(LifeCyclePhase::PrePush, one_hook("a"));
    config.insert(LifeCyclePhase::PreReceive, one_hook("b"));
    let files = hook_files(&config, &options(), Platform::Unix).unwrap();
    assert_eq!(files.len(), 2);
    assert_eq!(files[0].0, "pre-push");
    assert_eq!(files[1].0, "pre-receive");
    assert!(files[1].1.contains("run pre-receive"));
}

#[test]
fn header_goes_after_shebang() {
    let hash = marker_text(MarkerStyle::Hash);
    assert_eq!(
        with_managed_header("#!/bin/sh\necho hi\n", MarkerStyle::Hash),
        format!("#!/bin/sh\n{hash}\necho hi\n")
    );
    assert_eq!(with_managed_header("#!/bin/sh", MarkerStyle::Hash), format!("#!/bin/sh\n{hash}\n"));
    assert_eq!(with_managed_header("x = 1\n", MarkerStyle::Hash), format!("{hash}\n\nx = 1\n"));
    assert_eq!(with_managed_header("", MarkerStyle::Hash), format!("{hash}\n\n"));
}

#[test]
fn marker_recognition_is_exact_and_limited_to_eight_lines() {
    let hash = marker_text(MarkerStyle::Hash);
    let rem = marker_text(MarkerStyle::Rem);
    assert!(is_managed(&format!("#!/bin/sh\r\n{hash}\r\necho\r\n")));
    assert!(is_managed(&format!("@echo off\n{rem}")));
    assert!(is_managed(&format!("1\n2\n3\n4\n5\n6\n7\n{hash}\n")));
    assert!(!is_managed(&format!("1\n2\n3\n4\n5\n6\n7\n8\n{hash}\n")));
    assert!(!is_managed(&format!(" {hash}\n")));
    assert!(!is_managed(&format!("{hash} extra\n")));
    assert!(!is_managed(""));
}

#[test]
fn missing_hooks_directory_is_reported() {
    match FileSystemHookInstaller::from_path("/nowhere/hooks".to_string(), false) {
        Err(Error::HooksDirNotFound(path)) => assert_eq!(path, "/nowhere/hooks"),
        other => panic!("unexpected {other:?}"),
    }
    let installer = FileSystemHookInstaller::from_default(true).unwrap();
    assert_eq!(installer.hooks_path, ".git/hooks");
    assert!(!installer.force);
    assert!(matches!(FileSystemHookInstaller::from_default(false), Err(Error::HooksDirNotFound(_))));
}
