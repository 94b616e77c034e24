//! Configuration values the library works with, and the text side of the
//! configuration file: value rendering, comment-preserving write-back and
//! the default file.

use vstd::prelude::*;
use crate::chars::{chars_of, decimal_int, push_int, replace, replace_all, string_of, trim, trim_bounds};
use crate::platform::Platform;
use crate::moment::{format_moment, formatted, Moment, MAX_MILLIS, MIN_MILLIS};

verus! {

/// `[time]`: the target moment and the offset, as written.
#[derive(Debug, Clone)]
pub struct TimeConfig {
    pub target: String,
    pub offset: String,
}

impl TimeConfig {
    /// Both settings empty.
    pub fn empty() -> (r: TimeConfig)
        ensures
            r.target@ == Seq::<char>::empty(),
            r.offset@ == Seq::<char>::empty(),
    {
        TimeConfig { target: String::new(), offset: String::new() }
    }
}

impl Default for TimeConfig {
    fn default() -> (r: TimeConfig)
        ensures
            r.target@ == Seq::<char>::empty(),
            r.offset@ == Seq::<char>::empty(),
    {
        TimeConfig::empty()
    }
}

/// `[notify]`: which reminders fire around each moment, and their wording.
#[derive(Debug, Clone)]
pub struct NotifyConfig {
    pub enabled: bool,
    /// seconds before a moment at which to remind
    pub before: Vec<i64>,
    /// seconds after a moment at which to remind
    pub after: Vec<i64>,
    pub at_moment: bool,
    pub sound: bool,
    pub sound_name: String,
    pub title_template: String,
    pub body_before: String,
    pub body_at: String,
    pub body_after: String,
}

impl NotifyConfig {
    /// The shipped reminder schedule and wording.
    pub fn standard() -> (r: NotifyConfig)
        ensures
            r.enabled,
            r.before@ == seq![3600i64, 1800, 900, 600, 300, 180, 120, 60, 30, 10, 5, 3, 2, 1],
            r.after@ == seq![1i64, 5, 30, 60, 300],
            r.at_moment,
            r.sound,
            r.sound_name@ == "Glass"@,
            r.title_template@ == "[T{sign}{clock}] {label}"@,
            r.body_before@ == "距离{label}还有 {human}"@,
            r.body_at@ == "{label}已到 · {time}"@,
            r.body_after@ == "{label}已过去 {human}"@,
    {
        NotifyConfig {
            enabled: true,
            before: vec![3600, 1800, 900, 600, 300, 180, 120, 60, 30, 10, 5, 3, 2, 1],
            after: vec![1, 5, 30, 60, 300],
            at_moment: true,
            sound: true,
            sound_name: String::from_str("Glass"),
            title_template: String::from_str("[T{sign}{clock}] {label}"),
            body_before: String::from_str("距离{label}还有 {human}"),
            body_at: String::from_str("{label}已到 · {time}"),
            body_after: String::from_str("{label}已过去 {human}"),
        }
    }
}

impl Default for NotifyConfig {
    fn default() -> (r: NotifyConfig)
        ensures
            r.enabled,
            r.before@ == seq![3600i64, 1800, 900, 600, 300, 180, 120, 60, 30, 10, 5, 3, 2, 1],
            r.after@ == seq![1i64, 5, 30, 60, 300],
            r.at_moment,
            r.sound,
            r.sound_name@ == "Glass"@,
            r.title_template@ == "[T{sign}{clock}] {label}"@,
            r.body_before@ == "距离{label}还有 {human}"@,
            r.body_at@ == "{label}已到 · {time}"@,
            r.body_after@ == "{label}已过去 {human}"@,
    {
        NotifyConfig::standard()
    }
}

/// The file name of the configuration.
pub const DEFAULT_CONFIG_NAME: &'static str = "config.toml";

/// The default left edge of the overlay.
pub fn default_x() -> (r: i32)
    ensures
        r == 80,
{
    80
}

/// The default top edge of the overlay.
pub fn default_y() -> (r: i32)
    ensures
        r == 80,
{
    80
}

/// The default of the switches that start out on.
pub fn default_true() -> (r: bool)
    ensures
        r,
{
    true
}

/// A colour setting left empty follows the main colour.
pub fn color_or_main<'a>(specific: &'a str, main: &'a str) -> (r: &'a str)
    ensures
        r@ == if trim(specific@).len() == 0 { main@ } else { specific@ },
{
    let v = chars_of(specific);
    let (a, b) = trim_bounds(&v, 0, v.len());
    assert(v@.subrange(0, v.len() as int) =~= v@);
    if a == b {
        main
    } else {
        specific
    }
}

/// The refresh interval: as configured, but never below 50 ms.
pub fn interval_ms(configured: u64) -> (r: u64)
    ensures
        r == if configured < 50 { 50 } else { configured },
{
    if configured < 50 {
        50
    } else {
        configured
    }
}

/// Milliseconds per hour.
pub const HOUR_MILLIS: i64 = 3_600_000;

/// The next full hour after `m`: an hour later, minutes and seconds
/// dropped.
pub open spec fn next_hour(m: int) -> int {
    ((m + HOUR_MILLIS) / (HOUR_MILLIS as int)) * HOUR_MILLIS
}

/// The default target moment: the next full hour, as
/// `YYYY-MM-DDTHH:MM:SS`.
pub fn default_target(now: Moment) -> (r: String)
    requires
        now.wf(),
        now.millis + HOUR_MILLIS <= MAX_MILLIS,
    ensures
        r@ == formatted(next_hour(now.millis as int), "%Y-%m-%dT%H:%M:%S"@),
{
    let shifted = now.millis + HOUR_MILLIS;
    let hours = if shifted >= 0 {
        shifted / HOUR_MILLIS
    } else {
        -((-(shifted + 1)) / HOUR_MILLIS) - 1
    };
    proof {
        if shifted < 0 {
            let q = -((-(shifted + 1)) / (HOUR_MILLIS as int)) - 1;
            let r0 = (-(shifted + 1)) % (HOUR_MILLIS as int);
            assert(-(shifted + 1) == ((-(shifted + 1)) / (HOUR_MILLIS as int)) * HOUR_MILLIS + r0);
            vstd::arithmetic::div_mod::lemma_fundamental_div_mod_converse_div(
                shifted as int,
                HOUR_MILLIS as int,
                q,
                HOUR_MILLIS - 1 - r0,
            );
        }
    }
    assert(hours == (shifted as int) / (HOUR_MILLIS as int));
    assert(MIN_MILLIS <= hours * HOUR_MILLIS <= shifted);
    let start = Moment { millis: hours * HOUR_MILLIS };
    proof {
        reveal_strlit("%Y-%m-%dT%H:%M:%S");
    }
    format_moment(start, "%Y-%m-%dT%H:%M:%S")
}

/// The default target is a full hour, after `now` and at most an hour away.
pub proof fn lemma_next_hour(now: int)
    ensures
        next_hour(now) % (HOUR_MILLIS as int) == 0,
        now < next_hour(now) <= now + HOUR_MILLIS,
{
    let h = HOUR_MILLIS as int;
    let q = (now + h) / h;
    let r = (now + h) % h;
    vstd::arithmetic::div_mod::lemma_fundamental_div_mod(now + h, h);
    assert(next_hour(now) == q * h);
    vstd::arithmetic::div_mod::lemma_mod_multiples_basic(q, h);
}

/// The commented default configuration file, with `@@X@@`, `@@Y@@`,
/// `@@TARGET@@` and `@@OFFSET@@` to fill in.
pub const TEMPLATE: &'static str = r##"# FloatClock 悬浮倒计时配置
# 改完保存即可，程序约 1 秒内自动重载（无需重启）。
# 命令行 --target / --offset 可临时覆盖本文件。

[window]
# 浮窗左上角坐标（拖动后会自动写回这里）
x = @@X@@
y = @@Y@@
# 去掉标题栏，配合透明背景实现「只有文字」的悬浮效果
borderless = true
# 永远置顶
topmost = true
# 锁定后不能拖动（右键随时切换；锁定状态也会写回这里）
locked = false
# 整体不透明度 0.05~1.0（透明背景已够用，一般保持 1.0）
opacity = 1.0

[display]
# 等宽字体；留空自动挑选系统等宽字体（Menlo / Consolas / DejaVu Sans Mono ...）
font_family = ""
# 主标题（距离偏移还有多久）字号，单位 pt
main_size = 46.0
# 副标题（距离目标时间点过去了多久）字号
sub_size = 18.0
# 绿色粗体
color = "#00FF66"
# 副标题颜色，留空表示跟主标题一致
sub_color = ""
bold = true
# 超过一天时显示 DD:HH:MM:SS（所有位都补 0 对齐）
show_days = true
# 主副标题之间的间距（像素）
gap = 2
# 第三行：目标时间点 + 偏移（绿底镂空字）。设成空字符串 "" 则整行不显示。
# 可用占位符：
#   {date} {time} {datetime}     目标时间点 T
#   {mark} {mark_datetime}       偏移时刻 M = T + offset
#   {delta}                      偏移的补零写法，如 +02:00:00
#   {delta_human}                偏移的中文写法，如 +2 小时
info_template = "{time} · {delta}"
# 第三行字号
info_size = 14.0
# 第三行颜色，留空 = 跟主标题一致（绿色）
info_color = ""
# 第三行样式：
#   "auto"     = 强制镂空（绿块 + 抠掉字），拿不到字体时退回普通绿字
#   "knockout" = 同上
#   "text"     = 普通绿字、透明底
info_style = "auto"
# 不支持透明背景的平台（老 X11）上用的底色
background = "#101010"
# 刷新间隔（毫秒）
interval_ms = 200
# 锁定状态指示：border = 用外框线表示（实线=锁定，虚线=可拖动），none = 不显示
lock_indicator = "border"
# 外框线颜色，留空 = 跟文字同色
border_color = ""
# 外框线宽（像素）
border_width = 2
# true：锁定时实线、解锁时虚线；false 反过来
solid_when_locked = true
# 文字渲染倍率上限（Retina / HiDPI 上自动跟随显示器缩放，此项只是上限）
max_scale = 2.0
# 显示模板：{sign} 就是 + / -，{clock} 是补零时间
main_template = "T{sign}{clock}"
sub_template = "T{sign}{clock}"

[time]
# 目标时间点。支持：
#   2026-01-01T09:30:00   2026-01-01 09:30   2026-01-01
#   09:30:00（今天该时刻，已过则自动顺延到明天 —— 每天重复的日程用这种写法）
#   +1h30m（相对现在）
# 绝对时间点过去之后，显示会自然翻转成 T+…
target = "@@TARGET@@"
# 偏移。主标题倒计时指向的时刻 = 目标时间点 + 偏移。
# 支持 -00:05:00 / 5:00 / 1h30m / -300 / 0 等写法
offset = "@@OFFSET@@"

[notify]
# 总开关
enabled = true
# 在每个时间点【之前】这些秒数各提醒一次
before = [3600, 1800, 900, 600, 300, 180, 120, 60, 30, 10, 5, 3, 2, 1]
# 在每个时间点【之后】这些秒数各提醒一次
after = [1, 5, 30, 60, 300]
# 正点提醒
at_moment = true
# 通知声音
sound = true
# macOS 提示音：Glass / Ping / Pop / Funk / Basso / Blow / Bottle / Frog / Hero / Morse / Purr / Sosumi / Submarine / Tink
sound_name = "Glass"
# 通知文案模板（纯文本，不带 emoji，用 [] 这类符号做装饰）。占位符：
#   {label} 时间点名称   {sign} - 或 +   {clock} 补零时间   {human} 人话时长
#   {time} 该时刻 HH:MM:SS   {datetime} 该时刻完整时间
title_template = "[T{sign}{clock}] {label}"
body_before = "距离{label}还有 {human}"
body_at = "{label}已到 · {time}"
body_after = "{label}已过去 {human}"
"##;

/// The target written into a new configuration: the given one, or the
/// next full hour when it is blank.
pub open spec fn target_for(target: Seq<char>, now: Moment) -> Seq<char> {
    if trim(target).len() == 0 {
        formatted(next_hour(now.millis as int), "%Y-%m-%dT%H:%M:%S"@)
    } else {
        target
    }
}

/// The text of a new configuration file, the placeholders filled in one
/// after the other.
pub open spec fn config_text(x: i32, y: i32, target: Seq<char>, offset: Seq<char>, now: Moment) -> Seq<char> {
    replace_all(
        replace_all(
            replace_all(replace_all(TEMPLATE@, "@@X@@"@, decimal_int(x as int)), "@@Y@@"@, decimal_int(y as int)),
            "@@TARGET@@"@,
            target_for(target, now),
        ),
        "@@OFFSET@@"@,
        offset,
    )
}

/// The default configuration file for a window at (x, y), the given target
/// (the next full hour when blank) and offset.
pub fn default_config_text(x: i32, y: i32, target: &str, offset: &str, now: Moment) -> (r: String)
    requires
        trim(target@).len() == 0 ==> now.wf() && now.millis + HOUR_MILLIS <= MAX_MILLIS,
    ensures
        r@ == config_text(x, y, target@, offset@, now),
{
    let tv = chars_of(target);
    let (a, b) = trim_bounds(&tv, 0, tv.len());
    assert(tv@.subrange(0, tv.len() as int) =~= tv@);
    let chosen = if a == b {
        chars_of(default_target(now).as_str())
    } else {
        tv
    };
    let mut xs: Vec<char> = Vec::new();
    push_int(&mut xs, x as i64);
    let mut ys: Vec<char> = Vec::new();
    push_int(&mut ys, y as i64);
    let t0 = chars_of(TEMPLATE);
    let px = chars_of("@@X@@");
    let py = chars_of("@@Y@@");
    let pt = chars_of("@@TARGET@@");
    let po = chars_of("@@OFFSET@@");
    proof {
        reveal_strlit("@@X@@");
        reveal_strlit("@@Y@@");
        reveal_strlit("@@TARGET@@");
        reveal_strlit("@@OFFSET@@");
    }
    let t1 = replace(&t0, &px, &xs);
    let t2 = replace(&t1, &py, &ys);
    let t3 = replace(&t2, &pt, &chosen);
    let t4 = replace(&t3, &po, &chars_of(offset));
    string_of(&t4)
}

/// The environment setting a per-user configuration directory starts from.
#[derive(Debug, Clone, Copy, PartialEq, Eq, Structural)]
pub enum ConfigRoot {
    /// `HOME`
    Home,
    /// `APPDATA`
    AppData,
    /// `XDG_CONFIG_HOME`
    XdgConfigHome,
}

/// Where the per-user configuration directory is, by each platform's own
/// convention: the variable it starts from and the path below it.
///
/// * macOS `~/Library/Application Support/FloatClock`
/// * Windows `%APPDATA%\FloatClock` (else under `HOME`)
/// * elsewhere `$XDG_CONFIG_HOME/float-clock`, by default
///   `~/.config/float-clock`
///
/// `None` when none of the variables it needs is set.
pub fn user_config_dir_parts(platform: Platform, has_home: bool, has_appdata: bool, has_xdg: bool) -> (r: Option<(ConfigRoot, &'static str)>)
    ensures
        platform == Platform::MacOs ==> r == if has_home {
            Some((ConfigRoot::Home, "Library/Application Support/FloatClock"))
        } else {
            None
        },
        platform == Platform::Windows ==> r == if has_appdata {
            Some((ConfigRoot::AppData, "FloatClock"))
        } else if has_home {
            Some((ConfigRoot::Home, "FloatClock"))
        } else {
            None
        },
        platform == Platform::Other ==> r == if has_xdg {
            Some((ConfigRoot::XdgConfigHome, "float-clock"))
        } else if has_home {
            Some((ConfigRoot::Home, ".config/float-clock"))
        } else {
            None
        },
{
    match platform {
        Platform::MacOs => if has_home {
            Some((ConfigRoot::Home, "Library/Application Support/FloatClock"))
        } else {
            None
        },
        Platform::Windows => if has_appdata {
            Some((ConfigRoot::AppData, "FloatClock"))
        } else if has_home {
            Some((ConfigRoot::Home, "FloatClock"))
        } else {
            None
        },
        Platform::Other => if has_xdg {
            Some((ConfigRoot::XdgConfigHome, "float-clock"))
        } else if has_home {
            Some((ConfigRoot::Home, ".config/float-clock"))
        } else {
            None
        },
    }
}

/// Which configuration file is used when none is given on the command line.
#[derive(Debug, Clone, Copy, PartialEq, Eq, Structural)]
pub enum ConfigSource {
    /// the file named by `FLOAT_CLOCK_CONFIG`
    Environment,
    /// `config.toml` in the current directory
    Local,
    /// `config.toml` in the per-user configuration directory
    UserDir,
}

/// The order in which the configuration file is looked for: a non-empty
/// `FLOAT_CLOCK_CONFIG`, then an existing `config.toml` in the current
/// directory, then the per-user directory, and the current directory when
/// there is no per-user directory either.
pub fn config_source(env_nonempty: bool, local_exists: bool, user_dir_known: bool) -> (r: ConfigSource)
    ensures
        r == if env_nonempty {
            ConfigSource::Environment
        } else if local_exists || !user_dir_known {
            ConfigSource::Local
        } else {
            ConfigSource::UserDir
        },
{
    if env_nonempty {
        ConfigSource::Environment
    } else if local_exists {
        ConfigSource::Local
    } else if user_dir_known {
        ConfigSource::UserDir
    } else {
        ConfigSource::Local
    }
}

} // verus!
