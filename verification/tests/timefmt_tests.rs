use float_clock::moment::Moment;
use float_clock::timefmt::{
    format_hms, format_human, normalize_datetime, parse_duration, parse_target, parse_time_only,
    render_info, split_delta,
};

fn dt(y: i32, m: u32, d: u32, hh: u32, mm: u32, ss: u32) -> Moment {
    Moment::from_ymd_hms(y, m, d, hh, mm, ss).unwrap()
}

#[test]
fn duration_plain_numbers() {
    assert_eq!(parse_duration("30").unwrap(), 30_000);
    assert_eq!(parse_duration("-30").unwrap(), -30_000);
    assert_eq!(parse_duration("1.5").unwrap(), 1_500);
    assert_eq!(parse_duration("").unwrap(), 0);
    assert_eq!(parse_duration("  ").unwrap(), 0);
}

#[test]
fn duration_colon_forms() {
    assert_eq!(parse_duration("00:05:00").unwrap(), 300_000);
    assert_eq!(parse_duration("-00:05:00").unwrap(), -300_000);
    assert_eq!(parse_duration("5:00").unwrap(), 300_000);
    assert_eq!(parse_duration("1:00:00:00").unwrap(), 86_400_000);
    assert_eq!(parse_duration("+00:00:30").unwrap(), 30_000);
}

#[test]
fn duration_unit_forms() {
    assert_eq!(parse_duration("90s").unwrap(), 90_000);
    assert_eq!(parse_duration("5m").unwrap(), 300_000);
    assert_eq!(parse_duration("1h30m").unwrap(), 5_400_000);
    assert_eq!(parse_duration("1d2h").unwrap(), 93_600_000);
    assert_eq!(parse_duration("-10m").unwrap(), -600_000);
    assert_eq!(parse_duration("2 hours").unwrap(), 7_200_000);
    assert_eq!(parse_duration("120min").unwrap(), 7_200_000);
    assert!(parse_duration("abc").is_err());
    assert!(parse_duration("12x").is_err());
}

#[test]
fn duration_errors_name_the_text() {
    assert_eq!(
        parse_duration("abc").unwrap_err(),
        "unrecognized duration: \"abc\" (examples: -00:05:00 / 1h30m / 90)"
    );
    assert_eq!(parse_duration("1:x").unwrap_err(), "unrecognized duration: \"1:x\"");
    assert_eq!(
        parse_duration("99999999999999999999").unwrap_err(),
        "duration out of range: \"99999999999999999999\""
    );
}

#[test]
fn duration_keeps_milliseconds_exact() {
    assert_eq!(parse_duration("0.001").unwrap(), 1);
    assert_eq!(parse_duration("0.0015").unwrap(), 2);
    assert_eq!(parse_duration("1.5m").unwrap(), 90_000);
}

#[test]
fn target_time_only_rolls_to_tomorrow() {
    let now = dt(2026, 9, 19, 21, 0, 0);
    assert_eq!(parse_target("22:00", now).unwrap(), dt(2026, 9, 19, 22, 0, 0));
    assert_eq!(parse_target("20:29", now).unwrap(), dt(2026, 9, 20, 20, 29, 0));
    assert_eq!(parse_target("22:30:15", now).unwrap(), dt(2026, 9, 19, 22, 30, 15));
    assert!(parse_target("25:00", now).is_err());
}

#[test]
fn target_absolute_forms() {
    let now = dt(2026, 9, 19, 21, 0, 0);
    assert_eq!(parse_target("2026-09-19T20:29:00", now).unwrap(), dt(2026, 9, 19, 20, 29, 0));
    assert_eq!(parse_target("2026-09-19 20:29", now).unwrap(), dt(2026, 9, 19, 20, 29, 0));
    assert_eq!(parse_target("2026/09/19 20:29", now).unwrap(), dt(2026, 9, 19, 20, 29, 0));
    assert_eq!(parse_target("2026-09-19", now).unwrap(), dt(2026, 9, 19, 0, 0, 0));
    assert_eq!(parse_target("09-19 20:29", now).unwrap(), dt(2026, 9, 19, 20, 29, 0));
    assert!(parse_target("", now).is_err());
    assert!(parse_target("nonsense", now).is_err());
}

#[test]
fn target_relative_forms() {
    let now = dt(2026, 9, 19, 21, 0, 0);
    assert_eq!(parse_target("+1h30m", now).unwrap(), dt(2026, 9, 19, 22, 30, 0));
    assert_eq!(parse_target("-10m", now).unwrap(), dt(2026, 9, 19, 20, 50, 0));
}

#[test]
fn target_errors_say_why() {
    let now = dt(2026, 9, 19, 21, 0, 0);
    assert_eq!(
        parse_target("  ", now).unwrap_err(),
        "target moment is empty; set it in [time] target of config.toml"
    );
    assert_eq!(parse_target("25:00", now).unwrap_err(), "time out of range: \"25:00\"");
    assert_eq!(
        parse_target("nonsense", now).unwrap_err(),
        "unrecognized time format: \"nonsense\" (examples: 2026-01-01T09:30:00 / 2026-01-01 09:30 / 09:30 / +1h30m)"
    );
}

#[test]
fn split_delta_rounds_the_right_way() {
    assert_eq!(split_delta(0), ('-', 0));
    assert_eq!(split_delta(400), ('-', 1));
    assert_eq!(split_delta(-400), ('+', 0));
    assert_eq!(split_delta(-12_900), ('+', 12));
    assert_eq!(split_delta(12_900), ('-', 13));
}

#[test]
fn hms_pads_every_field() {
    assert_eq!(format_hms(0, true), "00:00:00");
    assert_eq!(format_hms(59, true), "00:00:59");
    assert_eq!(format_hms(3661, true), "01:01:01");
    assert_eq!(format_hms(90000, true), "01:01:00:00");
    assert_eq!(format_hms(90000, false), "25:00:00");
    assert_eq!(format_hms(-5, true), "00:00:00");
}

#[test]
fn human_duration_is_compact() {
    assert_eq!(format_human(0), "0s");
    assert_eq!(format_human(45), "45s");
    assert_eq!(format_human(120), "2m");
    assert_eq!(format_human(5400), "1h 30m");
    assert_eq!(format_human(90061), "1d 1h 1m");
    assert_eq!(format_human(3725), "1h 2m 5s");
    assert_eq!(format_human(-5), "0s");
}

#[test]
fn info_line_renders_tokens() {
    let target = dt(2026, 9, 19, 20, 29, 0);
    let mark = dt(2026, 9, 19, 22, 29, 0);
    assert_eq!(render_info("{time} | {delta}", target, mark, 7_200_000, true), "20:29:00 | +02:00:00");
    assert_eq!(render_info("{delta_human}", target, mark, -300_000, true), "-5m");
    assert_eq!(render_info("{date} {mark}", target, mark, 7_200_000, true), "2026-09-19 22:29:00");
    assert_eq!(render_info("{nope} {time}", target, mark, 0, true), "{nope} 20:29:00");
    assert_eq!(render_info("   ", target, mark, 0, true), "");
}

#[test]
fn info_line_rounds_the_offset_to_seconds() {
    let target = dt(2026, 9, 19, 20, 29, 0);
    let mark = dt(2026, 9, 19, 22, 29, 0);
    assert_eq!(render_info("{delta}", target, mark, 1_500, true), "+00:00:02");
    assert_eq!(render_info("{delta}", target, mark, 1_499, true), "+00:00:01");
    assert_eq!(render_info("{datetime}|{mark_datetime}", target, mark, 0, true), "2026-09-19 20:29:00|2026-09-19 22:29:00");
}

#[test]
fn datetime_normalization_and_time_fields() {
    assert_eq!(normalize_datetime("2026/09/19 20:29"), "2026-09-19T20:29");
    assert_eq!(normalize_datetime("2026.09.19"), "2026-09-19");
    assert_eq!(normalize_datetime("2026-09-19 "), "2026-09-19");
    assert_eq!(parse_time_only("7:05"), Some((7, 5, 0)));
    assert_eq!(parse_time_only("22:30:15"), Some((22, 30, 15)));
    assert_eq!(parse_time_only("123:00"), None);
    assert_eq!(parse_time_only("12"), None);
    assert_eq!(parse_time_only("1:2:3:4"), None);
}

#[test]
fn moments_cover_the_calendar_range() {
    assert!(Moment::from_ymd_hms(262142, 12, 31, 23, 59, 59).is_some());
    assert!(Moment::from_ymd_hms(-262143, 1, 1, 0, 0, 0).is_some());
    assert_eq!(Moment::from_ymd_hms(1970, 1, 1, 0, 0, 0).unwrap().millis, 0);
    assert!(Moment::from_ymd_hms(2026, 2, 30, 0, 0, 0).is_none());
    assert!(Moment::from_ymd_hms(2026, 2, 1, 24, 0, 0).is_none());
    let m = Moment::from_ymd_hms(2026, 9, 19, 20, 29, 0).unwrap();
    assert_eq!(m.plus_millis(60_000).unwrap(), Moment::from_ymd_hms(2026, 9, 19, 20, 30, 0).unwrap());
}

#[test]
fn a_leap_second_past_the_last_day_is_out_of_range() {
    let now = dt(2026, 9, 19, 20, 0, 0);
    assert_eq!(
        parse_target("+262142-12-31 23:59:60", now).unwrap_err(),
        "time out of range: \"+262142-12-31 23:59:60\""
    );
    assert!(parse_target("+262142-12-31 23:59:59", now).is_ok());
}

#[test]
fn the_clock_text_reads_back() {
    for &s in &[0i64, 59, 3600, 86399, 86400, 90061, 1_000_000_000_000] {
        for &days in &[true, false] {
            assert_eq!(parse_duration(&format_hms(s, days)), Ok(s * 1000), "{s} {days}");
        }
    }
}

#[test]
fn a_command_line_splits_back() {
    let args = ["plain", "", "two words", "say \"hi\"", "trail\\", "a\\\\\"b"];
    let joined: Vec<String> = args.iter().map(|a| float_clock::windows::quote(a)).collect();
    assert_eq!(
        joined.join(" "),
        "plain \"\" \"two words\" \"say \\\"hi\\\"\" trail\\ \"a\\\\\\\\\\\"b\""
    );
}

#[test]
fn long_fractions_are_accepted() {
    assert_eq!(parse_duration("0.0000000000000000001"), Ok(0));
    assert_eq!(parse_duration("1.0000000000000000000009"), Ok(1000));
    assert_eq!(parse_duration("0.00049999999999999999999"), Ok(0));
    assert_eq!(parse_duration("0.0005000000000000000001"), Ok(1));
}

#[test]
fn a_tiny_relative_target_is_now() {
    let now = dt(2026, 9, 19, 20, 0, 0);
    assert_eq!(parse_target("+0.0001s", now), Ok(now));
    assert!(parse_target("+0s", now).is_err());
}
