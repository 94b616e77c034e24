use float_clock::moment::Moment;
use float_clock::pixmap::Color;
use float_clock::render::{compose, plan_overlay, OverlayPlan, OverlayStyle};

fn dt(hh: u32, mm: u32, ss: u32) -> Moment {
    Moment::from_ymd_hms(2026, 9, 19, hh, mm, ss).unwrap()
}

fn style() -> OverlayStyle {
    OverlayStyle {
        main_template: "T{sign}{clock}".into(),
        sub_template: "T{sign}{clock}".into(),
        info_template: "{time} · {delta}".into(),
        info_style: "auto".into(),
        color: "#00FF66".into(),
        sub_color: String::new(),
        info_color: String::new(),
        border_color: String::new(),
        lock_indicator: "border".into(),
        border_width: 2,
        show_days: true,
        solid_when_locked: true,
    }
}

fn scenario(style: &OverlayStyle, now: Moment, locked: bool) -> OverlayPlan {
    plan_overlay(style, dt(20, 29, 0), dt(22, 29, 0), now, locked).unwrap()
}

#[test]
fn main_title_shows_the_offset_countdown() {
    let plan = scenario(&style(), dt(20, 0, 0), false);
    assert_eq!(plan.lines[0].text, "T-02:29:00");
    assert_eq!(plan.lines[1].text, "T-00:29:00");
    assert_eq!(plan.lines[2].text, "20:29:00 · +02:00:00");
}

#[test]
fn signs_flip_once_the_moment_passed() {
    let plan = scenario(&style(), dt(21, 0, 0), false);
    assert_eq!(plan.lines[0].text, "T-01:29:00");
    assert_eq!(plan.lines[1].text, "T+00:31:00");
}

#[test]
fn every_field_is_zero_padded() {
    let plan = scenario(&style(), dt(22, 28, 59), false);
    assert_eq!(plan.lines[0].text, "T-00:00:01");
    assert_eq!(plan.lines[1].text, "T+01:59:59");
}

#[test]
fn third_line_is_a_green_block_with_knocked_out_glyphs() {
    let plan = scenario(&style(), dt(20, 0, 0), false);
    assert!(plan.lines[2].knockout);
    assert_eq!(plan.lines[2].color, Color::rgb(0, 255, 102));
}

#[test]
fn info_style_text_disables_knockout() {
    let mut style = style();
    style.info_style = "text".into();
    let plan = scenario(&style, dt(20, 0, 0), false);
    assert!(!plan.lines[2].knockout);
}

#[test]
fn empty_info_template_drops_the_third_line() {
    let mut style = style();
    style.info_template = String::new();
    let plan = plan_overlay(&style, dt(20, 29, 0), dt(22, 29, 0), dt(20, 0, 0), false).unwrap();
    assert_eq!(plan.lines.len(), 2);
}

#[test]
fn locked_draws_a_solid_border() {
    let plan = scenario(&style(), dt(20, 0, 0), true);
    assert!(plan.border_on);
    assert!(!plan.border_dashed, "锁定时应该是实线");
}

#[test]
fn unlocked_draws_a_dashed_border() {
    let plan = scenario(&style(), dt(20, 0, 0), false);
    assert!(plan.border_on);
    assert!(plan.border_dashed, "解锁时应该是虚线");
}

#[test]
fn lock_indicator_none_removes_the_border() {
    let mut style = style();
    style.lock_indicator = "none".into();
    let plan = scenario(&style, dt(20, 0, 0), true);
    assert!(!plan.border_on, "不该有边框");
    let mut thin = self::style();
    thin.border_width = 0;
    assert!(!scenario(&thin, dt(20, 0, 0), true).border_on);
}

#[test]
fn bad_color_is_reported() {
    let mut style = style();
    style.color = "不是颜色".into();
    let result = plan_overlay(&style, dt(20, 29, 0), dt(22, 29, 0), dt(20, 0, 0), false);
    assert!(result.is_err());
}

#[test]
fn line_colours_fall_back_to_the_main_colour() {
    let mut style = style();
    style.sub_color = "#FF0000".into();
    style.border_color = "  ".into();
    let plan = scenario(&style, dt(20, 0, 0), false);
    assert_eq!(plan.lines[0].color, Color::rgb(0, 255, 102));
    assert_eq!(plan.lines[1].color, Color::rgb(255, 0, 0));
    assert_eq!(plan.border_color, Color::rgb(0, 255, 102));
    style.info_color = "12345".into();
    let err = plan_overlay(&style, dt(20, 29, 0), dt(22, 29, 0), dt(20, 0, 0), false).unwrap_err();
    assert_eq!(err, "颜色需要 3、6 或 8 位 16 进制：\"12345\"");
}

#[test]
fn titles_fill_sign_then_clock() {
    assert_eq!(compose("T{sign}{clock}", '+', "00:00:01"), "T+00:00:01");
    assert_eq!(compose("{clock} {nope}", '-', "{sign}"), "{sign} {nope}");
    assert_eq!(compose("[{sign}]", '-', "x"), "[-]");
}

#[test]
fn long_countdowns_show_days() {
    let mut style = style();
    let plan = plan_overlay(&style, dt(20, 29, 0), Moment::from_ymd_hms(2026, 9, 21, 22, 29, 0).unwrap(), dt(20, 0, 0), false).unwrap();
    assert_eq!(plan.lines[0].text, "T-02:02:29:00");
    style.show_days = false;
    let plan = plan_overlay(&style, dt(20, 29, 0), Moment::from_ymd_hms(2026, 9, 21, 22, 29, 0).unwrap(), dt(20, 0, 0), false).unwrap();
    assert_eq!(plan.lines[0].text, "T-50:29:00");
}
