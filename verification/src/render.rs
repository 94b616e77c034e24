//! What the overlay shows: the text of its three lines, their colours,
//! whether the third line is knocked out of a coloured bar, and the lock
//! frame. Laying the glyphs out and rasterising them is the caller's part.

use vstd::prelude::*;
use crate::chars::{chars_of, replace, replace_all, same, string_of, trim, trim_bounds};
use crate::config::color_or_main;
use crate::moment::Moment;
use crate::pixmap::{color_result, Color};
use crate::timefmt::{format_hms, hms_text, info_text, render_info, split_delta};

verus! {

/// `{sign}` and then `{clock}` filled into a title template.
pub open spec fn composed(template: Seq<char>, sign: char, clock: Seq<char>) -> Seq<char> {
    replace_all(replace_all(template, "{sign}"@, seq![sign]), "{clock}"@, clock)
}

/// Fill a main or sub title template: `{sign}` is `+` / `-`, `{clock}` the
/// zero-padded time.
pub fn compose(template: &str, sign: char, clock: &str) -> (r: String)
    ensures
        r@ == composed(template@, sign, clock@),
{
    proof {
        reveal_strlit("{sign}");
        reveal_strlit("{clock}");
    }
    let mut s: Vec<char> = Vec::new();
    s.push(sign);
    let step = replace(&chars_of(template), &chars_of("{sign}"), &s);
    let done = replace(&step, &chars_of("{clock}"), &chars_of(clock));
    string_of(&done)
}

/// The T± title counting towards a moment `delta_millis` away: `-` and the
/// remaining seconds rounded up before it, `+` and the elapsed seconds
/// rounded down after it.
pub open spec fn countdown_text(template: Seq<char>, delta_millis: int, show_days: bool) -> Seq<char> {
    if delta_millis >= 0 {
        composed(template, '-', hms_text((delta_millis + 999) / 1000, show_days))
    } else {
        composed(template, '+', hms_text((-delta_millis) / 1000, show_days))
    }
}

/// The display settings the overlay's text and frame depend on.
#[derive(Debug)]
pub struct OverlayStyle {
    pub main_template: String,
    pub sub_template: String,
    pub info_template: String,
    /// `auto` | `knockout` | `text`
    pub info_style: String,
    pub color: String,
    pub sub_color: String,
    pub info_color: String,
    pub border_color: String,
    /// `border` | `none`
    pub lock_indicator: String,
    pub border_width: i32,
    pub show_days: bool,
    pub solid_when_locked: bool,
}

/// One line of the overlay.
#[derive(Debug)]
pub struct LinePlan {
    pub text: String,
    pub color: Color,
    /// drawn as a coloured bar with the glyphs knocked out
    pub knockout: bool,
}

/// Everything the overlay shows, before layout.
#[derive(Debug)]
pub struct OverlayPlan {
    pub lines: Vec<LinePlan>,
    pub border_on: bool,
    /// dashed when unlocked (or when locked, if `solid_when_locked` is off)
    pub border_dashed: bool,
    pub border_color: Color,
}

/// A line as (text, colour, knockout).
pub type LineModel = (Seq<char>, Color, bool);

pub open spec fn line_view(l: LinePlan) -> LineModel {
    (l.text@, l.color, l.knockout)
}

/// The colour setting a line uses.
pub open spec fn line_color(specific: Seq<char>, main: Seq<char>) -> Seq<char> {
    if trim(specific).len() == 0 {
        main
    } else {
        specific
    }
}

/// What the overlay shows for `target` T and `mark` M at `now`: the main
/// title counts towards M, the subtitle towards T, the third line (left out
/// when it is blank) fills the info template; every colour must parse, the
/// first that does not is the error.
pub open spec fn overlay_plan(style: OverlayStyle, target: Moment, mark: Moment, now: Moment, locked: bool) -> Result<
    (Seq<LineModel>, bool, bool, Color),
    Seq<char>,
> {
    let main = countdown_text(style.main_template@, mark.millis - now.millis, style.show_days);
    let sub = countdown_text(style.sub_template@, target.millis - now.millis, style.show_days);
    let info = info_text(style.info_template@, target, mark, mark.millis - target.millis, style.show_days);
    let c_main = color_result(style.color@);
    let c_sub = color_result(line_color(style.sub_color@, style.color@));
    let c_info = color_result(line_color(style.info_color@, style.color@));
    let c_border = color_result(line_color(style.border_color@, style.color@));
    if c_main is Err {
        Err(c_main->Err_0)
    } else if c_sub is Err {
        Err(c_sub->Err_0)
    } else if c_info is Err {
        Err(c_info->Err_0)
    } else if c_border is Err {
        Err(c_border->Err_0)
    } else {
        let knockout = style.info_style@ != "text"@ && trim(info).len() > 0;
        let two = seq![(main, c_main->Ok_0, false), (sub, c_sub->Ok_0, false)];
        let lines = if trim(info).len() == 0 {
            two
        } else {
            two.push((info, c_info->Ok_0, knockout))
        };
        Ok(
            (
                lines,
                style.lock_indicator@ == "border"@ && style.border_width > 0,
                locked != style.solid_when_locked,
                c_border->Ok_0,
            ),
        )
    }
}

fn is_blank(v: &Vec<char>) -> (r: bool)
    ensures
        r == (trim(v@).len() == 0),
{
    let (a, b) = trim_bounds(v, 0, v.len());
    assert(v@.subrange(0, v.len() as int) =~= v@);
    a == b
}

/// The countdown title towards a moment.
fn countdown(template: &str, moment: Moment, now: Moment, show_days: bool) -> (r: String)
    requires
        moment.wf(),
        now.wf(),
    ensures
        r@ == countdown_text(template@, moment.millis - now.millis, show_days),
{
    let (sign, secs) = split_delta(moment.millis - now.millis);
    let clock = format_hms(secs, show_days);
    compose(template, sign, clock.as_str())
}

/// Work out what the overlay shows; an unparsable colour is an error.
pub fn plan_overlay(style: &OverlayStyle, target: Moment, mark: Moment, now: Moment, locked: bool) -> (r: Result<OverlayPlan, String>)
    requires
        target.wf(),
        mark.wf(),
        now.wf(),
    ensures
        match r {
            Ok(p) => overlay_plan(*style, target, mark, now, locked) == Ok::<(Seq<LineModel>, bool, bool, Color), Seq<char>>(
                (p.lines@.map_values(|l: LinePlan| line_view(l)), p.border_on, p.border_dashed, p.border_color),
            ),
            Err(e) => overlay_plan(*style, target, mark, now, locked) == Err::<(Seq<LineModel>, bool, bool, Color), Seq<char>>(e@),
        },
{
    let main = countdown(style.main_template.as_str(), mark, now, style.show_days);
    let sub = countdown(style.sub_template.as_str(), target, now, style.show_days);
    let info = render_info(style.info_template.as_str(), target, mark, mark.millis - target.millis, style.show_days);
    let main_color = match Color::parse(style.color.as_str()) {
        Ok(c) => c,
        Err(e) => return Err(e),
    };
    let sub_color = match Color::parse(color_or_main(style.sub_color.as_str(), style.color.as_str())) {
        Ok(c) => c,
        Err(e) => return Err(e),
    };
    let info_color = match Color::parse(color_or_main(style.info_color.as_str(), style.color.as_str())) {
        Ok(c) => c,
        Err(e) => return Err(e),
    };
    let border_color = match Color::parse(color_or_main(style.border_color.as_str(), style.color.as_str())) {
        Ok(c) => c,
        Err(e) => return Err(e),
    };
    let info_chars = chars_of(info.as_str());
    let blank = is_blank(&info_chars);
    let knockout = !same(&chars_of(style.info_style.as_str()), &chars_of("text")) && !blank;
    let mut lines: Vec<LinePlan> = Vec::new();
    lines.push(LinePlan { text: main, color: main_color, knockout: false });
    lines.push(LinePlan { text: sub, color: sub_color, knockout: false });
    if !blank {
        lines.push(LinePlan { text: info, color: info_color, knockout });
    }
    let border_on = same(&chars_of(style.lock_indicator.as_str()), &chars_of("border")) && style.border_width > 0;
    let border_dashed = locked != style.solid_when_locked;
    let plan = OverlayPlan { lines, border_on, border_dashed, border_color };
    assert(plan.lines@.map_values(|l: LinePlan| line_view(l)) =~= overlay_plan(*style, target, mark, now, locked)->Ok_0.0);
    Ok(plan)
}

} // verus!
