use float_clock::windows::{
    bootstrap, child_args, child_command_line, is_internal_flag, pick_winlogon, quote, Outcome,
    Step, MARKER_ELEVATED, MARKER_UIA,
};

fn args(list: &[&str]) -> Vec<String> {
    list.iter().map(|s| s.to_string()).collect()
}

#[test]
fn a_re_launch_keeps_the_arguments_and_replaces_the_marker() {
    let input = args(&["float-clock.exe", "--config", "C:\\my data\\c.toml", MARKER_ELEVATED]);
    let child = child_args(&input, MARKER_UIA);
    assert_eq!(child, args(&["float-clock.exe", "--config", "C:\\my data\\c.toml", MARKER_UIA]));
    assert_eq!(child.iter().filter(|a| is_internal_flag(a)).count(), 1);
}

#[test]
fn quoting_survives_the_awkward_cases() {
    assert_eq!(quote("plain"), "plain");
    assert_eq!(quote("has space"), "\"has space\"");
    assert_eq!(quote(""), "\"\"");
    assert_eq!(quote("say \"hi\""), "\"say \\\"hi\\\"\"");
    assert_eq!(quote("ends with \\"), "\"ends with \\\\\"");
}

#[test]
fn the_markers_are_the_only_internal_flags() {
    assert!(is_internal_flag(MARKER_ELEVATED));
    assert!(is_internal_flag(MARKER_UIA));
    assert!(!is_internal_flag("--config"));
}

#[test]
fn backslashes_only_double_before_a_quote() {
    assert_eq!(quote("a\\b c"), "\"a\\b c\"");
    assert_eq!(quote("a\\\\\"b"), "\"a\\\\\\\\\\\"b\"");
    assert_eq!(quote("tab\there"), "\"tab\there\"");
}

#[test]
fn the_child_command_line_is_quoted_and_joined() {
    let input = args(&["C:\\Program Files\\fc.exe", "--as-uia", "--print"]);
    assert_eq!(
        child_command_line(&input, MARKER_ELEVATED),
        "\"C:\\Program Files\\fc.exe\" --print --as-elevated"
    );
}

#[test]
fn the_bootstrap_climbs_one_step_at_a_time() {
    let plain = args(&["fc.exe"]);
    assert_eq!(bootstrap(false, &plain, false, false), Step::Continue);
    assert_eq!(bootstrap(true, &plain, false, false), Step::Escalate);
    assert_eq!(bootstrap(true, &plain, false, true), Step::RelaunchWithUiAccess);
    assert_eq!(bootstrap(true, &plain, true, false), Step::Continue);
    let elevated = args(&["fc.exe", MARKER_ELEVATED]);
    assert_eq!(bootstrap(true, &elevated, false, false), Step::RelaunchWithUiAccess);
    let finished = args(&["fc.exe", MARKER_UIA]);
    assert_eq!(bootstrap(true, &finished, false, false), Step::Continue);
    assert_eq!(Step::Escalate.outcome(true), Outcome::HandedOver);
    assert_eq!(Step::Escalate.outcome(false), Outcome::Continue);
    assert_eq!(Step::Continue.outcome(true), Outcome::Continue);
}

#[test]
fn winlogon_of_our_session_is_picked() {
    let processes = vec![
        ("explorer.exe".to_string(), 10, 1),
        ("WinLogon.EXE".to_string(), 20, 0),
        ("winlogon.exe".to_string(), 30, 1),
        ("winlogon.exe".to_string(), 40, 1),
    ];
    assert_eq!(pick_winlogon(&processes, 1), Some(30));
    assert_eq!(pick_winlogon(&processes, 0), Some(20));
    assert_eq!(pick_winlogon(&processes, 7), None);
}
