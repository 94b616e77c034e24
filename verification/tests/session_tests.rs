use float_clock::cli::{parse_args, Args, Command};
use float_clock::config::TimeConfig;
use float_clock::moment::Moment;
use float_clock::session::{
    check_color, check_schedule, mode_of, moments_of, open_settings_at_start, preview,
    refuse_init_message, startup, status_report, with_overrides, Mode, OverlayState, RunOptions,
    Startup, UiAction, UiEvent,
};
use float_clock::tray::TrayCommand;

fn dt(hh: u32, mm: u32, ss: u32) -> Moment {
    Moment::from_ymd_hms(2026, 9, 19, hh, mm, ss).unwrap()
}

fn time(target: &str, offset: &str) -> TimeConfig {
    TimeConfig { target: target.into(), offset: offset.into() }
}

#[test]
fn the_two_moments_of_a_run() {
    let (target, mark, offset) = moments_of(&time("20:29", "+120m"), dt(20, 0, 0)).unwrap();
    assert_eq!(target, dt(20, 29, 0));
    assert_eq!(mark, dt(22, 29, 0));
    assert_eq!(offset, 7_200_000);
    let (_, mark, _) = moments_of(&time("20:29", "-00:05:00"), dt(20, 0, 0)).unwrap();
    assert_eq!(mark, dt(20, 24, 0));
    assert!(moments_of(&time("", "0"), dt(20, 0, 0)).is_err());
    assert_eq!(moments_of(&time("20:29", "x"), dt(20, 0, 0)).unwrap_err(), "unrecognized duration: \"x\" (examples: -00:05:00 / 1h30m / 90)");
    let far = Moment::from_ymd_hms(262142, 12, 31, 0, 0, 0).unwrap();
    assert!(moments_of(&time("23:00", "2d"), far).is_err());
}

#[test]
fn the_preview_keeps_a_few_of_each_moment() {
    let entries: Vec<(Moment, String, String)> = vec![
        (dt(20, 1, 0), "A".into(), "a1".into()),
        (dt(20, 2, 0), "B".into(), "b1".into()),
        (dt(20, 3, 0), "A".into(), "a2".into()),
        (dt(20, 4, 0), "A".into(), "a3".into()),
        (dt(20, 5, 0), "B".into(), "b2".into()),
    ];
    let shown: Vec<String> = preview(&entries, 2).into_iter().map(|(_, t)| t).collect();
    assert_eq!(shown, vec!["a1", "b1", "a2", "b2"]);
    assert!(preview(&entries, 0).is_empty());
}

#[test]
fn the_status_report_reads_like_the_print_output() {
    let lines = vec![
        ("T-02:29:00".to_string(), false),
        ("T-00:29:00".to_string(), false),
        ("20:29:00 · +02:00:00".to_string(), true),
    ];
    let upcoming = vec![(dt(20, 27, 0), "[T-00:02:00] X".to_string())];
    let report = status_report(
        dt(20, 0, 0),
        dt(20, 29, 0),
        dt(22, 29, 0),
        7_200_400,
        &lines,
        120,
        80,
        false,
        "notify-send",
        &upcoming,
    );
    assert_eq!(
        report,
        vec![
            "now          : 2026-09-19 20:00:00",
            "target  T    : 2026-09-19 20:29:00",
            "offset  M    : 2026-09-19 22:29:00   (offset 02:00:00)",
            "main title   : T-02:29:00",
            "subtitle     : T-00:29:00",
            "third line   : 20:29:00 · +02:00:00 (knocked out of a green bar)",
            "window size  : 120 x 80 pixels",
            "lock state   : unlocked (dashed frame)",
            "notify via   : notify-send",
            "upcoming reminders:",
            "    +00:27:00   [T-00:02:00] X",
        ]
    );
}

#[test]
fn what_a_run_does_first() {
    let Command::Run(args) = parse_args(&vec!["--init-config".to_string()]).unwrap() else {
        panic!("expected a run")
    };
    assert_eq!(startup(&args, true), Startup::RefuseInit);
    assert_eq!(startup(&args, false), Startup::InitConfig);
    let none = Args::none();
    assert_eq!(startup(&none, false), Startup::FirstRun);
    assert_eq!(startup(&none, true), Startup::Load);
    assert_eq!(mode_of(&none), Mode::Window);
    assert!(open_settings_at_start(false, true, false));
    assert!(!open_settings_at_start(false, true, true));
    assert_eq!(refuse_init_message("c.toml"), "c.toml already exists (pass --force to overwrite it)");
    let overridden = with_overrides(time("a", "b"), &Some("c".to_string()), &None);
    assert_eq!((overridden.target.as_str(), overridden.offset.as_str()), ("c", "b"));
    let options = RunOptions::default();
    assert!(!options.open_settings && options.probe_after.is_none());
}

#[test]
fn the_overlay_reacts_to_the_user() {
    let mut state = OverlayState::start(false, false);
    assert_eq!(
        state.react(UiEvent::SecondaryClick),
        vec![UiAction::SaveLocked(true), UiAction::TrayLocked(true), UiAction::Repaint]
    );
    assert!(state.locked);
    assert_eq!(state.react(UiEvent::Tray(TrayCommand::ToggleVisible)).len(), 3);
    assert!(!state.visible);
    let opened = state.react(UiEvent::DoubleClick);
    assert_eq!(opened, vec![UiAction::ShowWindow(true), UiAction::TrayVisible(true), UiAction::Repaint, UiAction::ResetDraft]);
    assert!(state.visible && state.settings_open);
    assert_eq!(state.react(UiEvent::SettingsKey), vec![UiAction::ResetDraft]);
    assert_eq!(state.react(UiEvent::QuitKey), vec![UiAction::Close]);
    let mut checks = 0;
    for _ in 0..10 {
        if state.react(UiEvent::Frame) == vec![UiAction::CheckConfigFile] {
            checks += 1;
        }
    }
    assert_eq!(checks, 2);
}

#[test]
fn the_settings_form_is_checked() {
    let now = dt(20, 0, 0);
    assert_eq!(check_schedule(" 20:29 ", " -5m ", now).unwrap(), ("20:29".to_string(), "-5m".to_string()));
    assert!(check_schedule("nonsense", "0", now).is_err());
    assert!(check_schedule("20:29", "x", now).is_err());
    assert_eq!(check_color(" ").unwrap(), "#00FF66");
    assert_eq!(check_color(" #abc ").unwrap(), "#abc");
    assert!(check_color("#ab").is_err());
}
