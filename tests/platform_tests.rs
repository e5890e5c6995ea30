use git_smee_core::platform::{fill_template, Platform};

#[test]
fn unix_escape_closes_and_reopens_quotes() {
    assert_eq!(Platform::Unix.escape_path("/home/o'neil/bin"), "'/home/o'\\''neil/bin'");
    assert_eq!(Platform::Unix.escape_path(""), "''");
}

#[test]
fn windows_escape_doubles_quotes_and_percents() {
    assert_eq!(Platform::Windows.escape_path("C:\\a \"b\" 100%"), "\"C:\\a \"\"b\"\" 100%%\"");
}

#[test]
fn shell_invocations() {
    assert_eq!(Platform::Unix.shell_invocation(), ("sh", "-c"));
    assert_eq!(Platform::Windows.shell_invocation(), ("cmd.exe", "/C"));
}

#[test]
fn templates_hold_the_three_placeholders() {
    for platform in [Platform::Unix, Platform::Windows] {
        let t = platform.hook_script_template();
        assert!(t.contains("{hook}"));
        assert!(t.contains("{executable_path}"));
        assert!(t.contains("{config_path}"));
    }
    assert!(Platform::Unix.hook_script_template().starts_with("#!"));
}

#[test]
fn placeholders_are_filled() {
    assert_eq!(
        fill_template("{executable_path} -c {config_path} run {hook} {other}", "pre-push", "X", "Y"),
        "X -c Y run pre-push {other}"
    );
}

#[test]
fn make_executable_adds_execute_bits_on_unix_only() {
    assert_eq!(Platform::Unix.make_executable(0o644), Some(0o755));
    assert_eq!(Platform::Unix.make_executable(0o600), Some(0o711));
    assert_eq!(Platform::Windows.make_executable(0o644), None);
}

#[test]
fn current_platform_matches_the_build() {
    let expected = if std::path::MAIN_SEPARATOR == '\\' { Platform::Windows } else { Platform::Unix };
    assert_eq!(Platform::current(), expected);
}
