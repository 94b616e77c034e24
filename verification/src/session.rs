//! One run of the overlay: the options it starts with, the two moments it
//! counts towards, what the command line makes it do, how it reacts to the
//! user, and the `--print` report. Windows, files and processes are the
//! caller's part; this module decides.

use vstd::prelude::*;
use core::time::Duration;
use std::path::PathBuf;
use crate::chars::{chars_of, debug_quoted, decimal, push_all, push_decimal, quote_debug, string_of, trim, trim_bounds, copy_range};
use crate::cli::Args;
use crate::config::TimeConfig;
use crate::moment::{Moment, MAX_MILLIS, MIN_MILLIS, formatted};
use crate::pixmap::{color_result, Color};
use crate::timefmt::{
    datetime_of, duration_error, duration_millis, format_hms, hms_text, parse_duration, parse_target,
    target_message, target_result,
};
use crate::tray::TrayCommand;

verus! {

#[verifier::external_type_specification]
#[verifier::external_body]
pub struct ExPathBuf(std::path::PathBuf);

/// How the window starts, and the diagnostics it runs.
#[derive(Debug, Clone)]
pub struct RunOptions {
    pub open_settings: bool,
    /// Diagnostics: force an opaque background.
    pub force_opaque: bool,
    /// Diagnostics: after the window has been up this long, read the real
    /// pixels back once, print a report and exit.
    pub probe_after: Option<Duration>,
    /// Diagnostics: write the read-back pixels to this PNG.
    pub probe_png: Option<PathBuf>,
}

impl Default for RunOptions {
    fn default() -> (r: RunOptions)
        ensures
            !r.open_settings,
            !r.force_opaque,
            r.probe_after is None,
            r.probe_png is None,
    {
        RunOptions { open_settings: false, force_opaque: false, probe_after: None, probe_png: None }
    }
}

/// The moments of a run: the target T, the offset moment M = T + offset,
/// and the offset in milliseconds; the first setting that does not parse,
/// or an M outside the calendar, is the error.
pub open spec fn moments_result(time: TimeConfig, now: Moment) -> Result<(int, int, int), Seq<char>> {
    match target_result(time.target@, now) {
        Err(fault) => Err(target_message(fault, time.target@)),
        Ok(t) => match duration_millis(time.offset@) {
            Some(d) => if !(i64::MIN <= d <= i64::MAX) {
                Err(duration_error(time.offset@))
            } else if MIN_MILLIS <= t + d <= MAX_MILLIS {
                Ok((t, t + d, d))
            } else {
                Err("time out of range: "@ + debug_quoted(time.offset@))
            },
            None => Err(duration_error(time.offset@)),
        },
    }
}

/// The target T, the offset moment M and the offset (ms) of `time` at `now`.
pub fn moments_of(time: &TimeConfig, now: Moment) -> (r: Result<(Moment, Moment, i64), String>)
    requires
        now.wf(),
    ensures
        match r {
            Ok((t, m, d)) => t.wf() && m.wf() && moments_result(*time, now) == Ok::<(int, int, int), Seq<char>>(
                (t.millis as int, m.millis as int, d as int),
            ),
            Err(e) => moments_result(*time, now) == Err::<(int, int, int), Seq<char>>(e@),
        },
{
    let target = match parse_target(time.target.as_str(), now) {
        Ok(t) => t,
        Err(e) => return Err(e),
    };
    let offset = match parse_duration(time.offset.as_str()) {
        Ok(d) => d,
        Err(e) => return Err(e),
    };
    match target.plus_millis(offset) {
        Some(mark) => Ok((target, mark, offset)),
        None => {
            let mut msg = chars_of("time out of range: ");
            push_all(&mut msg, &quote_debug(&chars_of(time.offset.as_str())));
            Err(string_of(&msg))
        },
    }
}

/// How many of `entries` carry `label`.
pub open spec fn label_count(entries: Seq<(Moment, String, String)>, label: Seq<char>) -> nat
    decreases entries.len(),
{
    if entries.len() == 0 {
        0
    } else {
        label_count(entries.drop_last(), label) + if entries.last().1@ == label { 1nat } else { 0nat }
    }
}

/// The `--print` preview of the first `n` upcoming reminders: the two
/// moments' reminders are interleaved, so each moment shows only its
/// nearest `per_moment`, as (fire time, title).
pub open spec fn preview_of(entries: Seq<(Moment, String, String)>, per_moment: nat, n: int) -> Seq<(Moment, Seq<char>)>
    decreases n,
{
    if n <= 0 {
        Seq::empty()
    } else {
        let e = entries[n - 1];
        let rest = preview_of(entries, per_moment, n - 1);
        if label_count(entries.take(n - 1), e.1@) < per_moment {
            rest.push((e.0, e.2@))
        } else {
            rest
        }
    }
}

/// Group the upcoming reminders by moment and keep the nearest
/// `per_moment` of each, in order.
pub fn preview(upcoming: &Vec<(Moment, String, String)>, per_moment: usize) -> (r: Vec<(Moment, String)>)
    ensures
        r@.map_values(|p: (Moment, String)| (p.0, p.1@)) == preview_of(upcoming@, per_moment as nat, upcoming.len() as int),
{
    let mut r: Vec<(Moment, String)> = Vec::new();
    let mut i: usize = 0;
    while i < upcoming.len()
        invariant
            i <= upcoming.len(),
            r@.map_values(|p: (Moment, String)| (p.0, p.1@)) == preview_of(upcoming@, per_moment as nat, i as int),
        decreases upcoming.len() - i,
    {
        let label = chars_of(upcoming[i].1.as_str());
        let mut count: usize = 0;
        let mut j: usize = 0;
        while j < i
            invariant
                j <= i < upcoming.len(),
                label@ == upcoming@[i as int].1@,
                count == label_count(upcoming@.take(j as int), label@),
                count <= j,
            decreases i - j,
        {
            assert(upcoming@.take(j + 1).drop_last() =~= upcoming@.take(j as int));
            if same_text(&chars_of(upcoming[j].1.as_str()), &label) {
                count = count + 1;
            }
            j = j + 1;
        }
        let ghost before = r@.map_values(|p: (Moment, String)| (p.0, p.1@));
        if count < per_moment {
            let title = upcoming[i].2.clone();
            r.push((upcoming[i].0, title));
            assert(r@.map_values(|p: (Moment, String)| (p.0, p.1@)) =~= before.push((upcoming@[i as int].0, upcoming@[i as int].2@)));
        }
        i = i + 1;
    }
    r
}

fn same_text(a: &Vec<char>, b: &Vec<char>) -> (r: bool)
    ensures
        r == (a@ == b@),
{
    crate::chars::same(a, b)
}

/// `{:<width}`: the text followed by spaces up to `width` characters.
pub open spec fn pad_right(s: Seq<char>, width: nat) -> Seq<char> {
    if s.len() >= width {
        s
    } else {
        s + Seq::new((width - s.len()) as nat, |i: int| ' ')
    }
}

/// Whole seconds from `now` until `when`, none once it has passed.
pub open spec fn seconds_until(when: Moment, now: Moment) -> int {
    let d = when.millis - now.millis;
    if d <= 0 {
        0
    } else {
        d / 1000
    }
}

/// An offset in milliseconds rounded to whole seconds, halves away from
/// zero.
pub open spec fn rounded_seconds(ms: int) -> int {
    if ms >= 0 {
        (ms + 500) / 1000
    } else {
        -((-ms + 500) / 1000)
    }
}

/// What the overlay shows, for the report: the lines' text, and whether
/// the third is knocked out.
pub type ReportLines = Seq<(Seq<char>, bool)>;

/// The `--print` report, line by line.
pub open spec fn status_text(
    now: Moment,
    target: Moment,
    mark: Moment,
    offset_ms: int,
    lines: ReportLines,
    width: u32,
    height: u32,
    locked: bool,
    backend: Seq<char>,
    upcoming: Seq<(Moment, Seq<char>)>,
) -> Seq<Seq<char>> {
    let dt = |m: Moment| formatted(m.millis as int, "%Y-%m-%d %H:%M:%S"@);
    seq![
        "now          : "@ + dt(now),
        "target  T    : "@ + dt(target),
        "offset  M    : "@ + dt(mark) + "   (offset "@ + hms_text(rounded_seconds(offset_ms), true) + ")"@,
        "main title   : "@ + lines[0].0,
        "subtitle     : "@ + lines[1].0,
    ] + (if lines.len() > 2 {
        seq![
            "third line   : "@ + lines[2].0 + if lines[2].1 {
                " (knocked out of a green bar)"@
            } else {
                " (plain green text)"@
            },
        ]
    } else {
        Seq::empty()
    }) + seq![
        "window size  : "@ + decimal(width as nat) + " x "@ + decimal(height as nat) + " pixels"@,
        "lock state   : "@ + if locked {
            "locked (solid frame)"@
        } else {
            "unlocked (dashed frame)"@
        },
        "notify via   : "@ + backend,
        "upcoming reminders:"@,
    ] + upcoming.map_values(
        |u: (Moment, Seq<char>)| "    +"@ + pad_right(hms_text(seconds_until(u.0, now), true), 10) + " "@ + u.1,
    )
}

fn line_of(parts: &Vec<&str>) -> (r: String)
    ensures
        r@ == concat_strs(parts@),
{
    let mut out: Vec<char> = Vec::new();
    let mut i: usize = 0;
    while i < parts.len()
        invariant
            i <= parts.len(),
            out@ == concat_strs(parts@.take(i as int)),
        decreases parts.len() - i,
    {
        assert(parts@.take(i + 1).drop_last() =~= parts@.take(i as int));
        push_all(&mut out, &chars_of(parts[i]));
        i = i + 1;
    }
    assert(parts@.take(parts.len() as int) =~= parts@);
    string_of(&out)
}

/// The pieces, one after the other.
pub open spec fn concat_strs(parts: Seq<&str>) -> Seq<char>
    decreases parts.len(),
{
    if parts.len() == 0 {
        Seq::empty()
    } else {
        concat_strs(parts.drop_last()) + parts.last()@
    }
}

/// The `--print` report for a run at `now`: the moments, what the overlay
/// shows (`lines`, each with whether it is knocked out; at least the two
/// titles), its size and lock state, the notification backend, and the
/// upcoming reminders from [`preview`].
pub fn status_report(
    now: Moment,
    target: Moment,
    mark: Moment,
    offset_ms: i64,
    lines: &Vec<(String, bool)>,
    width: u32,
    height: u32,
    locked: bool,
    backend: &str,
    upcoming: &Vec<(Moment, String)>,
) -> (r: Vec<String>)
    requires
        now.wf(),
        target.wf(),
        mark.wf(),
        lines.len() >= 2,
        forall|i: int| 0 <= i < upcoming.len() ==> (#[trigger] upcoming@[i]).0.wf(),
    ensures
        r@.map_values(|s: String| s@) == status_text(
            now,
            target,
            mark,
            offset_ms as int,
            lines@.map_values(|l: (String, bool)| (l.0@, l.1)),
            width,
            height,
            locked,
            backend@,
            upcoming@.map_values(|u: (Moment, String)| (u.0, u.1@)),
        ),
{
    let ghost lv = lines@.map_values(|l: (String, bool)| (l.0@, l.1));
    let ghost uv = upcoming@.map_values(|u: (Moment, String)| (u.0, u.1@));
    let ghost expected = status_text(now, target, mark, offset_ms as int, lv, width, height, locked, backend@, uv);
    let mut r: Vec<String> = Vec::new();
    let now_text = datetime_of(now);
    let target_text = datetime_of(target);
    let mark_text = datetime_of(mark);
    let rounded: i64 = if offset_ms >= 0 {
        ((offset_ms as i128 + 500) / 1000) as i64
    } else {
        (-((-(offset_ms as i128) + 500) / 1000)) as i64
    };
    let offset_text = format_hms(rounded, true);
    r.push(line_of(&vec!["now          : ", now_text.as_str()]));
    r.push(line_of(&vec!["target  T    : ", target_text.as_str()]));
    r.push(line_of(&vec!["offset  M    : ", mark_text.as_str(), "   (offset ", offset_text.as_str(), ")"]));
    r.push(line_of(&vec!["main title   : ", lines[0].0.as_str()]));
    r.push(line_of(&vec!["subtitle     : ", lines[1].0.as_str()]));
    if lines.len() > 2 {
        let tail = if lines[2].1 {
            " (knocked out of a green bar)"
        } else {
            " (plain green text)"
        };
        r.push(line_of(&vec!["third line   : ", lines[2].0.as_str(), tail]));
    }
    let mut size: Vec<char> = chars_of("window size  : ");
    push_decimal(&mut size, width as u64);
    push_all(&mut size, &chars_of(" x "));
    push_decimal(&mut size, height as u64);
    push_all(&mut size, &chars_of(" pixels"));
    r.push(string_of(&size));
    let lock_text = if locked {
        "locked (solid frame)"
    } else {
        "unlocked (dashed frame)"
    };
    r.push(line_of(&vec!["lock state   : ", lock_text]));
    r.push(line_of(&vec!["notify via   : ", backend]));
    r.push(String::from_str("upcoming reminders:"));
    let head_len = r.len();
    proof {
        reveal_with_fuel(concat_strs, 6);
        assert(r@.map_values(|s: String| s@) =~= expected.take(head_len as int));
    }
    let mut i: usize = 0;
    while i < upcoming.len()
        invariant
            i <= upcoming.len(),
            head_len + uv.len() == expected.len(),
            uv == upcoming@.map_values(|u: (Moment, String)| (u.0, u.1@)),
            forall|k: int| 0 <= k < upcoming.len() ==> (#[trigger] upcoming@[k]).0.wf(),
            now.wf(),
            expected == status_text(now, target, mark, offset_ms as int, lv, width, height, locked, backend@, uv),
            r@.map_values(|s: String| s@) == expected.take(head_len + i),
        decreases upcoming.len() - i,
    {
        let when = upcoming[i].0;
        let d = when.millis - now.millis;
        let secs: i64 = if d <= 0 { 0 } else { d / 1000 };
        let clock = chars_of(format_hms(secs, true).as_str());
        let mut line = chars_of("    +");
        push_all(&mut line, &clock);
        let mut pad = clock.len();
        let ghost padded_from = line@;
        while pad < 10
            invariant
                clock.len() <= pad <= 10 || (pad == clock.len() && pad >= 10),
                line@ == padded_from + Seq::new((pad - clock.len()) as nat, |k: int| ' '),
            decreases 10 - pad,
        {
            line.push(' ');
            pad = pad + 1;
            assert(line@ =~= padded_from + Seq::new((pad - clock.len()) as nat, |k: int| ' '));
        }
        assert(line@ =~= "    +"@ + pad_right(clock@, 10));
        push_all(&mut line, &chars_of(" "));
        push_all(&mut line, &chars_of(upcoming[i].1.as_str()));
        let ghost lv2 = line@;
        let ghost before_rows = r@.map_values(|s: String| s@);
        r.push(string_of(&line));
        proof {
            assert(r@.map_values(|s: String| s@) =~= before_rows.push(lv2));
            assert(uv[i as int].1 == upcoming@[i as int].1@);
            assert(lv2 == "    +"@ + pad_right(clock@, 10) + " "@ + uv[i as int].1);
            assert(clock@ == hms_text(seconds_until(when, now), true));
            assert(expected[head_len + i] == "    +"@ + pad_right(hms_text(seconds_until(when, now), true), 10) + " "@ + uv[i as int].1);
            assert(r@.map_values(|s: String| s@) =~= expected.take(head_len + i + 1));
        }
        i = i + 1;
    }
    assert(expected.take(expected.len() as int) =~= expected);
    r
}

/// What a run does first.
#[derive(Debug, Clone, Copy, PartialEq, Eq, Structural)]
pub enum Startup {
    /// `--config-path`: print the file that would be used, then exit.
    PrintConfigPath,
    /// `--init-config` over an existing file without `--force`: refuse.
    RefuseInit,
    /// `--init-config`: write the default file, then exit.
    InitConfig,
    /// No file yet (a double-click, most likely): write the default one so
    /// that a dragged position has somewhere to go, then carry on.
    FirstRun,
    /// Load the file and carry on.
    Load,
}

/// The first step of a run, from the command line and whether the
/// configuration file exists.
pub fn startup(args: &Args, config_exists: bool) -> (r: Startup)
    ensures
        r == if args.config_path {
            Startup::PrintConfigPath
        } else if args.init_config {
            if config_exists && !args.force {
                Startup::RefuseInit
            } else {
                Startup::InitConfig
            }
        } else if !config_exists {
            Startup::FirstRun
        } else {
            Startup::Load
        },
{
    if args.config_path {
        Startup::PrintConfigPath
    } else if args.init_config {
        if config_exists && !args.force {
            Startup::RefuseInit
        } else {
            Startup::InitConfig
        }
    } else if !config_exists {
        Startup::FirstRun
    } else {
        Startup::Load
    }
}

/// The message refusing to overwrite an existing file.
pub fn refuse_init_message(path: &str) -> (r: String)
    ensures
        r@ == path@ + " already exists (pass --force to overwrite it)"@,
{
    let mut out = chars_of(path);
    push_all(&mut out, &chars_of(" already exists (pass --force to overwrite it)"));
    string_of(&out)
}

/// What a run does once the configuration is loaded.
#[derive(Debug, Clone, Copy, PartialEq, Eq, Structural)]
pub enum Mode {
    TestNotify,
    Diagnose,
    Print,
    RenderPng,
    Window,
}

/// The first of `--test-notify`, `--diagnose`, `--print`, `--render-png`
/// given; the overlay window otherwise.
pub fn mode_of(args: &Args) -> (r: Mode)
    ensures
        r == if args.test_notify {
            Mode::TestNotify
        } else if args.diagnose {
            Mode::Diagnose
        } else if args.print {
            Mode::Print
        } else if args.render_png is Some {
            Mode::RenderPng
        } else {
            Mode::Window
        },
{
    if args.test_notify {
        Mode::TestNotify
    } else if args.diagnose {
        Mode::Diagnose
    } else if args.print {
        Mode::Print
    } else if args.render_png.is_some() {
        Mode::RenderPng
    } else {
        Mode::Window
    }
}

/// The settings window opens at start when asked for, and on the first run
/// (unless that is switched off), since otherwise the only way to find the
/// settings is to read the source.
pub fn open_settings_at_start(asked: bool, first_run: bool, setup_suppressed: bool) -> (r: bool)
    ensures
        r == (asked || (first_run && !setup_suppressed)),
{
    asked || (first_run && !setup_suppressed)
}

/// The `[time]` settings with the command line's `--target` / `--offset`
/// in place of the file's.
pub fn with_overrides(time: TimeConfig, target: &Option<String>, offset: &Option<String>) -> (r: TimeConfig)
    ensures
        r.target@ == match target {
            Some(t) => t@,
            None => time.target@,
        },
        r.offset@ == match offset {
            Some(o) => o@,
            None => time.offset@,
        },
{
    let mut r = time;
    if let Some(t) = target {
        r.target = t.clone();
    }
    if let Some(o) = offset {
        r.offset = o.clone();
    }
    r
}

/// The state of the overlay window the user can change.
#[derive(Debug, Clone, Copy, PartialEq, Eq, Structural)]
pub struct OverlayState {
    pub locked: bool,
    pub visible: bool,
    pub settings_open: bool,
    /// frames drawn, for the periodic check of the configuration file
    pub ticks: u64,
}

/// Something the user did, or a new frame.
#[derive(Debug, Clone, Copy, PartialEq, Eq, Structural)]
pub enum UiEvent {
    Frame,
    Tray(TrayCommand),
    /// right-click on the overlay
    SecondaryClick,
    DoubleClick,
    /// Cmd/Ctrl+L
    LockKey,
    /// Cmd/Ctrl+R
    ReloadKey,
    /// Cmd/Ctrl+,
    SettingsKey,
    /// Cmd/Ctrl+H
    HideKey,
    /// Cmd/Ctrl+Q
    QuitKey,
}

/// What the window layer carries out, in order.
#[derive(Debug, Clone, Copy, PartialEq, Eq, Structural)]
pub enum UiAction {
    /// write `window.locked` back into the configuration file
    SaveLocked(bool),
    /// tick or untick the tray's lock entry
    TrayLocked(bool),
    ShowWindow(bool),
    /// relabel the tray's first entry
    TrayVisible(bool),
    /// fill the settings form from the configuration
    ResetDraft,
    /// reload the configuration if the file changed
    CheckConfigFile,
    Reload,
    OpenConfig,
    RevealConfig,
    Close,
    Repaint,
}

/// Flip the lock: the new state is saved and shown.
pub open spec fn toggled_lock(s: OverlayState) -> (OverlayState, Seq<UiAction>) {
    let l = !s.locked;
    (OverlayState { locked: l, ..s }, seq![UiAction::SaveLocked(l), UiAction::TrayLocked(l), UiAction::Repaint])
}

/// Show or hide the overlay; nothing to do when it already is.
pub open spec fn set_visible(s: OverlayState, v: bool) -> (OverlayState, Seq<UiAction>) {
    if s.visible == v {
        (s, Seq::empty())
    } else {
        (OverlayState { visible: v, ..s }, seq![UiAction::ShowWindow(v), UiAction::TrayVisible(v), UiAction::Repaint])
    }
}

/// Open the settings window over a visible overlay, the form filled from
/// the configuration.
pub open spec fn opened_settings(s: OverlayState) -> (OverlayState, Seq<UiAction>) {
    let shown = set_visible(s, true);
    (OverlayState { settings_open: true, ..shown.0 }, shown.1.push(UiAction::ResetDraft))
}

/// How the overlay reacts to an event: the new state and the actions.
pub open spec fn react(s: OverlayState, e: UiEvent) -> (OverlayState, Seq<UiAction>) {
    match e {
        UiEvent::Frame => {
            let t = if s.ticks == u64::MAX { 0u64 } else { (s.ticks + 1) as u64 };
            (OverlayState { ticks: t, ..s }, if t % 5 == 0 { seq![UiAction::CheckConfigFile] } else { Seq::empty() })
        },
        UiEvent::Tray(TrayCommand::ToggleLock) | UiEvent::SecondaryClick | UiEvent::LockKey => toggled_lock(s),
        UiEvent::Tray(TrayCommand::ToggleVisible) | UiEvent::HideKey => set_visible(s, !s.visible),
        UiEvent::Tray(TrayCommand::OpenSettings) | UiEvent::DoubleClick | UiEvent::SettingsKey => opened_settings(s),
        UiEvent::Tray(TrayCommand::OpenConfig) => (s, seq![UiAction::OpenConfig]),
        UiEvent::Tray(TrayCommand::RevealConfig) => (s, seq![UiAction::RevealConfig]),
        UiEvent::Tray(TrayCommand::ReloadConfig) | UiEvent::ReloadKey => (s, seq![UiAction::Reload]),
        UiEvent::Tray(TrayCommand::Quit) | UiEvent::QuitKey => (s, seq![UiAction::Close]),
    }
}

fn toggle_lock_actions(state: &mut OverlayState) -> (r: Vec<UiAction>)
    ensures
        (*final(state), r@) == toggled_lock(*old(state)),
{
    state.locked = !state.locked;
    let l = state.locked;
    let r = vec![UiAction::SaveLocked(l), UiAction::TrayLocked(l), UiAction::Repaint];
    assert(r@ =~= seq![UiAction::SaveLocked(l), UiAction::TrayLocked(l), UiAction::Repaint]);
    r
}

fn set_visible_actions(state: &mut OverlayState, v: bool) -> (r: Vec<UiAction>)
    ensures
        (*final(state), r@) == set_visible(*old(state), v),
{
    if state.visible == v {
        let r: Vec<UiAction> = Vec::new();
        assert(r@ =~= Seq::<UiAction>::empty());
        return r;
    }
    state.visible = v;
    let r = vec![UiAction::ShowWindow(v), UiAction::TrayVisible(v), UiAction::Repaint];
    assert(r@ =~= seq![UiAction::ShowWindow(v), UiAction::TrayVisible(v), UiAction::Repaint]);
    r
}

impl OverlayState {
    /// The state a window starts in.
    pub fn start(locked: bool, settings_open: bool) -> (r: OverlayState)
        ensures
            r == (OverlayState { locked, visible: true, settings_open, ticks: 0 }),
    {
        OverlayState { locked, visible: true, settings_open, ticks: 0 }
    }

    /// React to `event`: update the state and return what the window layer
    /// has to do, in order.
    pub fn react(&mut self, event: UiEvent) -> (r: Vec<UiAction>)
        ensures
            (*final(self), r@) == react(*old(self), event),
    {
        match event {
            UiEvent::Frame => {
                self.ticks = self.ticks.wrapping_add(1);
                if self.ticks % 5 == 0 {
                    let r = vec![UiAction::CheckConfigFile];
                    assert(r@ =~= seq![UiAction::CheckConfigFile]);
                    r
                } else {
                    let r: Vec<UiAction> = Vec::new();
                    assert(r@ =~= Seq::<UiAction>::empty());
                    r
                }
            },
            UiEvent::Tray(TrayCommand::ToggleLock) | UiEvent::SecondaryClick | UiEvent::LockKey => toggle_lock_actions(self),
            UiEvent::Tray(TrayCommand::ToggleVisible) | UiEvent::HideKey => {
                let v = !self.visible;
                set_visible_actions(self, v)
            },
            UiEvent::Tray(TrayCommand::OpenSettings) | UiEvent::DoubleClick | UiEvent::SettingsKey => {
                let mut r = set_visible_actions(self, true);
                self.settings_open = true;
                r.push(UiAction::ResetDraft);
                r
            },
            UiEvent::Tray(TrayCommand::OpenConfig) => {
                let r = vec![UiAction::OpenConfig];
                assert(r@ =~= seq![UiAction::OpenConfig]);
                r
            },
            UiEvent::Tray(TrayCommand::RevealConfig) => {
                let r = vec![UiAction::RevealConfig];
                assert(r@ =~= seq![UiAction::RevealConfig]);
                r
            },
            UiEvent::Tray(TrayCommand::ReloadConfig) | UiEvent::ReloadKey => {
                let r = vec![UiAction::Reload];
                assert(r@ =~= seq![UiAction::Reload]);
                r
            },
            UiEvent::Tray(TrayCommand::Quit) | UiEvent::QuitKey => {
                let r = vec![UiAction::Close];
                assert(r@ =~= seq![UiAction::Close]);
                r
            },
        }
    }
}

/// Locking twice leaves the lock as it was; what is saved is always the
/// lock the overlay then has.
pub proof fn lemma_lock_twice(s: OverlayState)
    ensures
        toggled_lock(toggled_lock(s).0).0 == s,
        toggled_lock(s).1[0] == UiAction::SaveLocked(toggled_lock(s).0.locked),
{
}

/// Opening the settings always leaves the overlay visible with the window
/// open, whatever the overlay was.
pub proof fn lemma_settings_show_the_overlay(s: OverlayState)
    ensures
        opened_settings(s).0.visible,
        opened_settings(s).0.settings_open,
        opened_settings(s).0.locked == s.locked,
{
}

/// The schedule part of the settings form: the target and offset, trimmed,
/// when both parse at `now`.
pub open spec fn schedule_check(target: Seq<char>, offset: Seq<char>, now: Moment) -> Result<(Seq<char>, Seq<char>), Seq<char>> {
    let t = trim(target);
    let o = trim(offset);
    match target_result(t, now) {
        Err(fault) => Err(target_message(fault, t)),
        Ok(_) => match duration_millis(o) {
            Some(d) => if i64::MIN <= d <= i64::MAX {
                Ok((t, o))
            } else {
                Err(duration_error(o))
            },
            None => Err(duration_error(o)),
        },
    }
}

/// Check the target and offset typed into the settings form.
pub fn check_schedule(target: &str, offset: &str, now: Moment) -> (r: Result<(String, String), String>)
    requires
        now.wf(),
    ensures
        match r {
            Ok((t, o)) => schedule_check(target@, offset@, now) == Ok::<(Seq<char>, Seq<char>), Seq<char>>((t@, o@)),
            Err(e) => schedule_check(target@, offset@, now) == Err::<(Seq<char>, Seq<char>), Seq<char>>(e@),
        },
{
    let t = trimmed(target);
    let o = trimmed(offset);
    match parse_target(t.as_str(), now) {
        Ok(_) => {},
        Err(e) => return Err(e),
    }
    match parse_duration(o.as_str()) {
        Ok(_) => {},
        Err(e) => return Err(e),
    }
    Ok((t, o))
}

/// The colour typed into the settings form: empty means the default green.
pub open spec fn color_check(color: Seq<char>) -> Result<Seq<char>, Seq<char>> {
    if trim(color).len() == 0 {
        Ok("#00FF66"@)
    } else {
        match color_result(color) {
            Ok(_) => Ok(trim(color)),
            Err(e) => Err(e),
        }
    }
}

/// Check the colour typed into the settings form.
pub fn check_color(color: &str) -> (r: Result<String, String>)
    ensures
        match r {
            Ok(c) => color_check(color@) == Ok::<Seq<char>, Seq<char>>(c@),
            Err(e) => color_check(color@) == Err::<Seq<char>, Seq<char>>(e@),
        },
{
    let t = trimmed(color);
    if chars_of(t.as_str()).len() == 0 {
        proof {
            reveal_strlit("#00FF66");
        }
        return Ok(String::from_str("#00FF66"));
    }
    match Color::parse(color) {
        Ok(_) => Ok(t),
        Err(e) => Err(e),
    }
}

/// `str::trim`, as a new string.
fn trimmed(s: &str) -> (r: String)
    ensures
        r@ == trim(s@),
{
    let v = chars_of(s);
    let (a, b) = trim_bounds(&v, 0, v.len());
    assert(v@.subrange(0, v.len() as int) =~= v@);
    string_of(&copy_range(&v, a, b))
}

} // verus!
