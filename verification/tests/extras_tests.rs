use float_clock::crash::{format_report, report_path, PanicPlace, REPORT_NAME};
use float_clock::moment::Moment;
use float_clock::platform::Platform;
use float_clock::probe::probe_stats;
use float_clock::tray::{command_for_id, unavailable_reason, visible_label, TrayCommand, ID_QUIT};
use std::path::PathBuf;

#[test]
fn a_report_names_the_message_and_the_place() {
    let now = Moment::from_ymd_hms(2026, 9, 19, 20, 0, 0).unwrap();
    let report = format_report("0.4.0", now, None, "something went wrong", "linux", "x86_64", None, &vec!["fc".to_string()]);
    assert!(report.contains("something went wrong"));
    assert!(report.contains("unknown location"));
    assert!(report.contains("0.4.0"));
    assert!(report.contains("linux"));
    let place = PanicPlace { file: "src/app.rs".into(), line: 12, column: 5 };
    let report = format_report("0.4.0", now, Some(place), "boom", "macos", "aarch64", Some("/x/fc".into()), &vec!["a b".to_string(), "c\"".to_string()]);
    assert_eq!(
        report,
        "--- float-clock 0.4.0 panic ---\nwhen    : 2026-09-19 20:00:00\nwhere   : src/app.rs:12:5\nmessage : boom\nplatform: macos aarch64\nexe     : /x/fc\nargs    : [\"a b\", \"c\\\"\"]\n\n"
    );
}

#[test]
fn the_report_path_sits_beside_the_config() {
    let dir = "/home/u/.config/float-clock".to_string();
    let path = PathBuf::from(report_path(Some(dir.clone()), "/").unwrap());
    assert_eq!(path.file_name().unwrap(), REPORT_NAME);
    assert_eq!(path.parent(), Some(PathBuf::from(&dir).as_path()));
    assert_eq!(report_path(Some("/tmp/".to_string()), "/").unwrap(), "/tmp/crash.log");
    assert_eq!(report_path(Some("C:\\cfg/".to_string()), "\\/").unwrap(), "C:\\cfg/crash.log");
    assert_eq!(report_path(Some("C:\\cfg".to_string()), "\\/").unwrap(), "C:\\cfg\\crash.log");
    assert!(report_path(None, "/").is_none());
}

#[test]
fn the_tray_menu_maps_back_to_commands() {
    assert_eq!(unavailable_reason(Platform::MacOs), None);
    assert_eq!(unavailable_reason(Platform::Windows), None);
    assert_eq!(unavailable_reason(Platform::Other), Some("no tray backend for this platform"));
    assert_eq!(command_for_id(ID_QUIT), Some(TrayCommand::Quit));
    assert_eq!(command_for_id("float-clock.toggle-lock"), Some(TrayCommand::ToggleLock));
    assert_eq!(command_for_id("something.else"), None);
    assert_eq!(visible_label(true), "Hide overlay");
    assert_eq!(visible_label(false), "Show overlay");
}

#[test]
fn the_probe_flips_rows_and_counts() {
    // two rows of two pixels, bottom row first
    let buffer = vec![
        0, 255, 0, 255, 0, 0, 0, 0, // bottom: green, transparent
        10, 20, 30, 255, 1, 2, 3, 0, // top: grey, transparent
    ];
    let stats = probe_stats(&buffer, 2, 2);
    assert_eq!(stats.pixels[..8], [10, 20, 30, 255, 1, 2, 3, 0]);
    assert_eq!(stats.fully_transparent, 2);
    assert_eq!(stats.green, 1);
    // two pixels at 0 and two at 255: the tie goes to the higher alpha
    assert_eq!(stats.dominant_alpha, 255);
}

#[test]
fn window_stats_count_the_alpha_channel() {
    let pixels: Vec<u8> = vec![
        0, 0, 0, 0, // hole
        10, 200, 10, 8, // faint, so not counted as green
        10, 200, 10, 255, // green
        200, 10, 10, 255, // red
    ];
    let stats = float_clock::probe::window_stats(&pixels, 4);
    assert_eq!(stats.holes, 1);
    assert_eq!(stats.faint, 2);
    assert_eq!(stats.green, 1);
    assert_eq!(stats.dominant_alpha, 255);
}
