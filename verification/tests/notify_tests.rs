use float_clock::notify::{
    applescript_string, backend, base64_utf16_le, notify_send_args, osascript_script,
    powershell_args, terminal_notifier_args, WINDOWS_PS,
};
use float_clock::platform::Platform;

#[test]
fn base64_matches_known_vectors() {
    assert_eq!(base64_utf16_le("A"), "QQA=");
    assert_eq!(base64_utf16_le("AB"), "QQBCAA==");
    assert_eq!(base64_utf16_le("ABC"), "QQBCAEMA");
    assert_eq!(base64_utf16_le(""), "");
    assert_eq!(base64_utf16_le("é"), "6QA=");
    assert_eq!(base64_utf16_le("𝄞"), "NNge3Q==");
}

#[test]
fn applescript_strings_are_escaped() {
    assert_eq!(applescript_string(r#"a"b"#), "a\\\"b");
    assert_eq!(applescript_string(r"a\b"), r"a\\b");
}

#[test]
fn backend_is_named() {
    for platform in [Platform::MacOs, Platform::Windows, Platform::Other] {
        for found in [true, false] {
            assert!(!backend(platform, found).is_empty());
        }
    }
    assert_eq!(backend(Platform::MacOs, true), "terminal-notifier");
    assert_eq!(backend(Platform::Other, false), "notify-send");
}

#[test]
fn osascript_script_quotes_every_part() {
    assert_eq!(
        osascript_script("T \"x\"", "b\\", None),
        "display notification \"b\\\\\" with title \"T \\\"x\\\"\""
    );
    assert_eq!(
        osascript_script("T", "B", Some("Glass")),
        "display notification \"B\" with title \"T\" sound name \"Glass\""
    );
}

#[test]
fn command_lines_carry_title_and_body() {
    assert_eq!(
        terminal_notifier_args("T", "B", Some("Ping")),
        vec!["-title", "T", "-message", "B", "-group", "float-clock", "-sound", "Ping"]
    );
    assert_eq!(terminal_notifier_args("T", "B", None).len(), 6);
    assert_eq!(notify_send_args("T", "B"), vec!["-a", "FloatClock", "-u", "normal", "T", "B"]);
    let ps = powershell_args();
    assert_eq!(ps[2], "-EncodedCommand");
    assert_eq!(ps[3], base64_utf16_le(WINDOWS_PS));
    assert!(ps[3].len() > WINDOWS_PS.len());
}
