use float_clock::config::NotifyConfig;
use float_clock::moment::Moment;
use float_clock::notifier::{render_copy, MomentNotifier};

fn dt(hh: u32, mm: u32, ss: u32) -> Moment {
    Moment::from_ymd_hms(2026, 9, 19, hh, mm, ss).unwrap()
}

fn notifier() -> MomentNotifier {
    MomentNotifier::new(NotifyConfig {
        before: vec![120, 60, 10],
        after: vec![1, 60],
        at_moment: true,
        ..Default::default()
    })
}

fn titles(sent: &[float_clock::notifier::Notice]) -> Vec<String> {
    sent.iter().map(|n| n.title.clone()).collect()
}

#[test]
fn arms_expected_number_of_events() {
    let mut notifier = notifier();
    notifier.arm(vec![("Target moment".into(), dt(20, 29, 0))], dt(20, 0, 0));
    // 3 before + the exact moment + 2 after
    assert_eq!(notifier.events.len(), 6);
    assert_eq!(notifier.events[0].fire_at, dt(20, 27, 0));
    let upcoming = notifier.upcoming(dt(20, 0, 0), 10);
    assert_eq!(upcoming[0].1, "Target moment");
    assert_eq!(upcoming[0].2, "[T-00:02:00] Target moment");
}

#[test]
fn upcoming_keeps_moments_apart() {
    let mut notifier = notifier();
    notifier.arm(
        vec![
            ("Target moment".into(), dt(20, 29, 0)),
            ("Offset moment".into(), dt(22, 29, 0)),
        ],
        dt(20, 0, 0),
    );
    let upcoming = notifier.upcoming(dt(20, 0, 0), 100);
    let labels: Vec<&str> = upcoming.iter().map(|(_, label, _)| label.as_str()).collect();
    assert!(labels.contains(&"Target moment"));
    assert!(labels.contains(&"Offset moment"));
    let titles: Vec<&str> = upcoming
        .iter()
        .filter(|(_, label, _)| label == "Target moment")
        .map(|(_, _, title)| title.as_str())
        .collect();
    let mut unique = titles.clone();
    unique.sort_unstable();
    unique.dedup();
    assert_eq!(unique.len(), titles.len());
}

#[test]
fn tick_fires_only_once() {
    let mut notifier = notifier();
    notifier.arm(vec![("X".into(), dt(20, 29, 0))], dt(20, 0, 0));
    assert!(!notifier.tick(dt(20, 27, 0)).is_empty());
    assert!(notifier.tick(dt(20, 27, 0)).is_empty());
    assert!(notifier.tick(dt(20, 27, 1)).is_empty());
}

#[test]
fn does_not_fire_events_older_than_startup() {
    let mut notifier = notifier();
    notifier.arm(vec![("X".into(), dt(20, 29, 0))], dt(20, 28, 30));
    let sent = notifier.tick(dt(20, 28, 30));
    assert!(sent.is_empty(), "reminders from before startup must not be re-sent: {:?}", titles(&sent));
}

#[test]
fn rearm_same_moments_keeps_fired_state() {
    let mut notifier = notifier();
    let moments: Vec<(String, Moment)> = vec![("X".into(), dt(20, 29, 0))];
    notifier.arm(moments.clone(), dt(20, 0, 0));
    notifier.tick(dt(20, 27, 0));
    let before = notifier.fired.len();
    notifier.arm(moments, dt(20, 27, 1));
    assert_eq!(notifier.fired.len(), before);
    assert!(notifier.tick(dt(20, 27, 2)).is_empty());
}

#[test]
fn rearm_changed_moments_resets() {
    let mut notifier = notifier();
    notifier.arm(vec![("X".into(), dt(20, 29, 0))], dt(20, 0, 0));
    notifier.tick(dt(20, 27, 0));
    assert!(!notifier.fired.is_empty());
    notifier.arm(vec![("X".into(), dt(21, 0, 0))], dt(20, 30, 0));
    assert!(notifier.fired.is_empty());
}

#[test]
fn disabled_notifier_is_silent() {
    let mut notifier = notifier();
    notifier.config.enabled = false;
    notifier.arm(vec![("X".into(), dt(20, 29, 0))], dt(20, 0, 0));
    assert!(notifier.tick(dt(20, 29, 0)).is_empty());
}

#[test]
fn copy_has_no_emoji_and_uses_brackets() {
    let config = NotifyConfig::default();
    let values: Vec<(&str, String)> = vec![
        ("label", "Offset moment".into()),
        ("sign", "-".into()),
        ("clock", "00:02:00".into()),
        ("human", "2m".into()),
        ("time", "20:29:00".into()),
    ];
    let title = render_copy(&config.title_template, &values);
    let body = render_copy(&config.body_before, &values);
    assert_eq!(title, "[T-00:02:00] Offset moment");
    assert!(body.contains("Offset moment"), "{body}");
    assert!(body.contains("2m"), "{body}");
    assert!(!body.contains('{') && !body.contains('}'), "{body}");
    assert_eq!(render_copy("In {human}: {label}", &values), "In 2m: Offset moment");
    for text in [&title, &body] {
        for ch in text.chars() {
            let code = ch as u32;
            let is_emoji = matches!(code,
                0x2190..=0x21FF
                | 0x2300..=0x27BF
                | 0x2B00..=0x2BFF
                | 0x1F000..=0x1FAFF
                | 0xFE0F
                | 0x200D);
            assert!(!is_emoji, "notification copy must not contain emoji: {ch:?} in {text}");
        }
    }
    assert!(title.contains('[') && title.contains(']'));
}

#[test]
fn unknown_placeholder_is_left_alone() {
    assert_eq!(render_copy("{nope} {human}", &[("human", "1m".into())]), "{nope} 1m");
}

#[test]
fn tick_sends_the_due_reminder_with_its_wording() {
    let mut notifier = notifier();
    notifier.arm(vec![("X".into(), dt(20, 29, 0))], dt(20, 0, 0));
    let sent = notifier.tick(dt(20, 28, 0));
    // 20:27:00 and 20:28:00 are both due and both after startup
    assert_eq!(titles(&sent), vec!["[T-00:02:00] X", "[T-00:01:00] X"]);
    assert_eq!(sent[0].body, "距离X还有 2m");
    assert_eq!(sent[0].sound.as_deref(), Some("Glass"));
    assert_eq!(sent[0].key, "X|-120");
    // the ten-second reminder fell due in between
    let at = notifier.tick(dt(20, 29, 0));
    assert_eq!(titles(&at), vec!["[T-00:00:10] X", "[T-00:00:00] X"]);
    assert_eq!(at[1].body, "X已到 · 20:29:00");
    let after = notifier.tick(dt(20, 29, 1));
    assert_eq!(titles(&after), vec!["[T+00:00:01] X"]);
    assert_eq!(after[0].body, "X已过去 1s");
}

#[test]
fn reminders_are_queued_in_firing_order_without_duplicates() {
    let mut notifier = MomentNotifier::new(NotifyConfig {
        before: vec![60, 0, -5, 60, 120],
        after: vec![30],
        at_moment: false,
        sound: false,
        ..Default::default()
    });
    assert!(notifier.can_arm(&vec![("X".into(), dt(20, 29, 0))]));
    notifier.arm(vec![("X".into(), dt(20, 29, 0))], dt(20, 0, 0));
    let times: Vec<Moment> = notifier.events.iter().map(|e| e.fire_at).collect();
    assert_eq!(times, vec![dt(20, 27, 0), dt(20, 28, 0), dt(20, 29, 30)]);
    let sent = notifier.tick(dt(20, 30, 0));
    assert_eq!(sent.len(), 3);
    assert!(sent.iter().all(|n| n.sound.is_none()));
}

#[test]
fn reminders_outside_the_calendar_cannot_be_armed() {
    let notifier = MomentNotifier::new(NotifyConfig {
        before: vec![i64::MAX],
        ..Default::default()
    });
    assert!(!notifier.can_arm(&vec![("X".into(), dt(20, 29, 0))]));
}

#[test]
fn editing_the_lead_times_rearms_the_queue() {
    let mut n = MomentNotifier::new(NotifyConfig {
        before: vec![120],
        after: vec![],
        at_moment: false,
        ..Default::default()
    });
    n.arm(vec![("X".into(), dt(20, 29, 0))], dt(20, 0, 0));
    assert!(!n.needs_rebuild(&vec![("X".into(), dt(20, 29, 0))]));
    n.config_mut().before = vec![300];
    assert!(n.needs_rebuild(&vec![("X".into(), dt(20, 29, 0))]));
    n.arm(vec![("X".into(), dt(20, 29, 0))], dt(20, 0, 1));
    let upcoming = n.upcoming(dt(20, 0, 1), 10);
    assert_eq!(upcoming, vec![(dt(20, 24, 0), "X".to_string(), "[T-00:05:00] X".to_string())]);
}

#[test]
fn rearming_after_an_edit_sends_nothing_twice() {
    let mut n = notifier();
    n.arm(vec![("X".into(), dt(20, 29, 0))], dt(20, 26, 0));
    assert_eq!(titles(&n.tick(dt(20, 27, 0))), vec!["[T-00:02:00] X"]);
    n.config_mut().after = vec![1];
    n.arm(vec![("X".into(), dt(20, 29, 0))], dt(20, 27, 0));
    assert!(n.tick(dt(20, 27, 0)).is_empty());
}
