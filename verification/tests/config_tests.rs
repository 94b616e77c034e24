use float_clock::config::{
    color_or_main, config_source, default_config_text, default_target, default_true, default_x,
    default_y, interval_ms, user_config_dir_parts, ConfigRoot, ConfigSource, NotifyConfig,
    TimeConfig, DEFAULT_CONFIG_NAME,
};
use float_clock::moment::Moment;
use float_clock::platform::Platform;
use float_clock::toml_text::{key_of, patch_toml_text, quote, Value};

fn dt(y: i32, m: u32, d: u32, hh: u32, mm: u32, ss: u32) -> Moment {
    Moment::from_ymd_hms(y, m, d, hh, mm, ss).unwrap()
}

fn table(text: &str) -> toml::Table {
    text.parse::<toml::Table>().expect("valid TOML")
}

#[test]
fn defaults_are_sane() {
    assert_eq!(default_x(), 80);
    assert_eq!(default_y(), 80);
    assert!(default_true());
    // an empty third-line colour follows the main colour
    assert_eq!(color_or_main("", "#00FF66"), "#00FF66");
    assert_eq!(color_or_main("  ", "#00FF66"), "#00FF66");
    assert_eq!(color_or_main("#FF0000", "#00FF66"), "#FF0000");
    assert_eq!(interval_ms(200), 200);
    assert_eq!(interval_ms(10), 50);
    assert!(NotifyConfig::default().before.contains(&120));
    let time = TimeConfig::default();
    assert!(time.target.is_empty() && time.offset.is_empty());
    assert_eq!(DEFAULT_CONFIG_NAME, "config.toml");
}

#[test]
fn patch_keeps_comments_and_order() {
    let text = "# 顶部注释\n[window]\n# 坐标\nx = 1\ny = 2\n\n[time]\ntarget = \"09:00\"\n";
    let patched = patch_toml_text(
        text,
        &[
            ("window.x", Value::Int(120)),
            ("window.locked", Value::Bool(true)),
            ("time.offset", Value::Str("-5m".into())),
        ],
    );
    assert!(patched.contains("# 顶部注释"));
    assert!(patched.contains("# 坐标"));
    assert!(patched.contains("x = 120"));
    assert!(patched.contains("y = 2"));
    assert!(patched.contains("locked = true"));
    assert!(patched.contains("offset = \"-5m\""));
    let config = table(&patched);
    assert_eq!(config["window"]["x"].as_integer(), Some(120));
    assert_eq!(config["window"]["locked"].as_bool(), Some(true));
    assert_eq!(config["time"]["offset"].as_str(), Some("-5m"));
}

#[test]
fn patch_creates_missing_section() {
    let patched = patch_toml_text("[window]\nx = 1\n", &[("notify.before", Value::IntList(vec![60, 10]))]);
    assert!(patched.contains("[notify]"));
    assert!(patched.contains("before = [60, 10]"));
    let config = table(&patched);
    let before: Vec<i64> = config["notify"]["before"]
        .as_array()
        .unwrap()
        .iter()
        .map(|v| v.as_integer().unwrap())
        .collect();
    assert_eq!(before, vec![60, 10]);
}

#[test]
fn patch_output_is_exact() {
    let text = "# c\n[window]\n  x = 1   # old\ny = 2\n\n[time]\ntarget = \"09:00\"\n\n\n";
    let patched = patch_toml_text(
        text,
        &[
            ("window.x", Value::Int(-3)),
            ("time.offset", Value::Str("a\"b".into())),
            ("top", Value::Bool(false)),
            ("notify.at_moment", Value::Raw("1.0".into())),
        ],
    );
    assert_eq!(
        patched,
        "# c\n[window]\n  x = -3\ny = 2\n\n[time]\ntarget = \"09:00\"\noffset = \"a\\\"b\"\n\n\ntop = false\n\n[notify]\nat_moment = 1.0\n"
    );
}

#[test]
fn patch_of_an_empty_file() {
    let patched = patch_toml_text("", &[("window.x", Value::Int(5)), ("window.y", Value::Int(6))]);
    assert_eq!(patched, "[window]\nx = 5\ny = 6\n");
    let again = patch_toml_text(&patched, &[("window.x", Value::Int(7))]);
    assert_eq!(again, "[window]\nx = 7\ny = 6\n");
    assert_eq!(patch_toml_text("a = 1\r\nb = 2", &[]), "a = 1\nb = 2\n");
}

#[test]
fn keys_are_bare_words() {
    assert_eq!(key_of("x = 1").as_deref(), Some("x"));
    assert_eq!(key_of("  main_size=46.0").as_deref(), Some("main_size"));
    assert_eq!(key_of("a b = 1"), None);
    assert_eq!(key_of("= 1"), None);
    assert_eq!(key_of("no value"), None);
    assert_eq!(quote("tab\there\n"), "\"tab\\there\\n\"");
}

#[test]
fn default_config_round_trips() {
    let now = dt(2026, 9, 19, 20, 0, 0);
    let text = default_config_text(80, 80, "2026-09-19T20:29:00", "+120m", now);
    let config = table(&text);
    assert_eq!(config["time"]["target"].as_str(), Some("2026-09-19T20:29:00"));
    assert_eq!(config["time"]["offset"].as_str(), Some("+120m"));
    assert_eq!(config["display"]["info_template"].as_str(), Some("{time} · {delta}"));
    assert_eq!(config["window"]["x"].as_integer(), Some(80));
    assert!(text.contains("{time} · {delta}"), "模板里的花括号不能被吃掉");
}

#[test]
fn a_blank_target_becomes_the_next_full_hour() {
    let now = dt(2026, 9, 19, 20, 29, 59);
    assert_eq!(default_target(now), "2026-09-19T21:00:00");
    assert_eq!(default_target(dt(2026, 12, 31, 23, 0, 0)), "2027-01-01T00:00:00");
    assert_eq!(default_target(dt(1969, 12, 31, 22, 30, 0)), "1969-12-31T23:00:00");
    let text = default_config_text(-5, 7, "  ", "-00:05:00", now);
    let config = table(&text);
    assert_eq!(config["time"]["target"].as_str(), Some("2026-09-19T21:00:00"));
    assert_eq!(config["window"]["x"].as_integer(), Some(-5));
    assert_eq!(config["window"]["y"].as_integer(), Some(7));
}

#[test]
fn value_rendering_escapes() {
    assert_eq!(Value::Str("a\"b".into()).to_toml(), "\"a\\\"b\"");
    assert_eq!(Value::Bool(false).to_toml(), "false");
    assert_eq!(Value::IntList(vec![1, 2]).to_toml(), "[1, 2]");
    assert_eq!(Value::IntList(vec![]).to_toml(), "[]");
    assert_eq!(Value::Int(-42).to_toml(), "-42");
    assert_eq!(Value::Raw("1.0".into()).to_toml(), "1.0");
}

#[test]
fn user_config_dir_follows_platform_convention() {
    assert_eq!(
        user_config_dir_parts(Platform::MacOs, true, false, false),
        Some((ConfigRoot::Home, "Library/Application Support/FloatClock"))
    );
    assert_eq!(user_config_dir_parts(Platform::MacOs, false, true, true), None);
    assert_eq!(user_config_dir_parts(Platform::Windows, true, true, false), Some((ConfigRoot::AppData, "FloatClock")));
    assert_eq!(user_config_dir_parts(Platform::Windows, true, false, false), Some((ConfigRoot::Home, "FloatClock")));
    assert_eq!(user_config_dir_parts(Platform::Other, true, false, true), Some((ConfigRoot::XdgConfigHome, "float-clock")));
    assert_eq!(user_config_dir_parts(Platform::Other, true, false, false), Some((ConfigRoot::Home, ".config/float-clock")));
}

#[test]
fn explicit_config_env_var_wins() {
    assert_eq!(config_source(true, true, true), ConfigSource::Environment);
    assert_eq!(config_source(false, true, true), ConfigSource::Local);
    assert_eq!(config_source(false, false, true), ConfigSource::UserDir);
    assert_eq!(config_source(false, false, false), ConfigSource::Local);
}

#[test]
fn a_missing_key_follows_the_last_key_of_its_section() {
    let text = "[window]\nx = 1\n\n[time]\ntarget = \"09:00\"\n";
    let patched = patch_toml_text(text, &[("window.locked", Value::Bool(true))]);
    assert_eq!(patched, "[window]\nx = 1\nlocked = true\n\n[time]\ntarget = \"09:00\"\n");
}

#[test]
fn a_quoted_string_reads_back() {
    let text = "tab\there \"quoted\" back\\slash\nnew line\r";
    let quoted = quote(text);
    assert!(!quoted.contains('\n'));
    let config = table(&format!("v = {quoted}\n"));
    assert_eq!(config["v"].as_str(), Some(text));
}

#[test]
fn patching_twice_changes_nothing() {
    let text = "# top\n[window]\n  x = 1 # here\ny = 2\n\n[time]\noffset = \"-5m\"\n\n\n";
    let updates = [("window.x", Value::Int(9)), ("time.offset", Value::Str("1h".into()))];
    let once = patch_toml_text(text, &updates);
    assert_eq!(once, "# top\n[window]\n  x = 9\ny = 2\n\n[time]\noffset = \"1h\"\n");
    assert_eq!(patch_toml_text(&once, &updates), once);
}
