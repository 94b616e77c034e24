//! Moments of naive local time, and the calendar work handed to `chrono`.
//!
//! A [`Moment`] is a count of milliseconds since 1970-01-01 00:00:00 of the
//! machine's local (naive) calendar. Adding durations, taking the time of
//! day or the start of the day are plain arithmetic on that count; so are
//! its calendar date, building a moment from a date and its rendering,
//! against the calendar of [`crate::calendar`]. Parsing calendar text is
//! what `chrono` does for us.

use vstd::prelude::*;
use crate::calendar::{civil_day, civil_from_days, days_from_civil, lemma_civil_exists, lemma_civil_unique, lemma_year_bounds, month_days, valid_date};
use crate::chars::{chars_of, decimal, pad2, push_decimal, push_pad2, same, string_of};

verus! {

/// Milliseconds per day.
pub const DAY_MILLIS: i64 = 86_400_000;

/// The earliest moment `chrono` represents: -262143-01-01 00:00:00.
pub const MIN_MILLIS: i64 = -8_334_601_315_200_000;

/// The last millisecond `chrono` represents: 262142-12-31 23:59:59.999.
pub const MAX_MILLIS: i64 = 8_210_266_876_799_999;

/// A moment of naive local time, in milliseconds since 1970-01-01 00:00:00.
#[derive(Clone, Copy, Debug, PartialEq, Eq, Structural)]
pub struct Moment {
    pub millis: i64,
}

impl Moment {
    /// Within the calendar range `chrono` can represent.
    pub open spec fn wf(self) -> bool {
        MIN_MILLIS <= self.millis <= MAX_MILLIS
    }

    /// Milliseconds since the start of the day.
    pub open spec fn time_of_day(self) -> int {
        (self.millis as int) % (DAY_MILLIS as int)
    }

    /// The start of the day the moment falls on.
    pub open spec fn day_start(self) -> int {
        self.millis - self.time_of_day()
    }

    /// The moment `millis` milliseconds after the epoch, when it is in range.
    pub fn from_millis(millis: i64) -> (r: Option<Moment>)
        ensures
            r is Some <==> MIN_MILLIS <= millis <= MAX_MILLIS,
            r matches Some(m) ==> m.millis == millis,
    {
        if MIN_MILLIS <= millis && millis <= MAX_MILLIS {
            Some(Moment { millis })
        } else {
            None
        }
    }

    /// The moment `delta` milliseconds later (earlier when negative), when
    /// it stays in range.
    pub fn plus_millis(self, delta: i64) -> (r: Option<Moment>)
        requires
            self.wf(),
        ensures
            r is Some <==> MIN_MILLIS <= self.millis + delta <= MAX_MILLIS,
            r matches Some(m) ==> m.millis == self.millis + delta,
    {
        let sum = self.millis as i128 + delta as i128;
        if MIN_MILLIS as i128 <= sum && sum <= MAX_MILLIS as i128 {
            Some(Moment { millis: sum as i64 })
        } else {
            None
        }
    }

    /// Milliseconds from `earlier` to `self` (negative when `self` is earlier).
    pub fn millis_since(self, earlier: Moment) -> (r: i64)
        requires
            self.wf(),
            earlier.wf(),
        ensures
            r == self.millis - earlier.millis,
    {
        self.millis - earlier.millis
    }

    /// The calendar moment `year-month-day hour:minute:second`, when it exists.
    pub fn from_ymd_hms(year: i32, month: u32, day: u32, hour: u32, minute: u32, second: u32) -> (r:
        Option<Moment>)
        ensures
            r is Some <==> civil_millis(
                year as int,
                month as int,
                day as int,
                hour as int,
                minute as int,
                second as int,
            ) is Some,
            r matches Some(m) ==> {
                &&& m.wf()
                &&& Some(m.millis as int) == civil_millis(
                    year as int,
                    month as int,
                    day as int,
                    hour as int,
                    minute as int,
                    second as int,
                )
                &&& m.time_of_day() == hour * 3_600_000 + minute * 60_000 + second * 1000
            },
    {
        match calendar_millis(year, month, day, hour, minute, second) {
            Some(ms) => Some(Moment { millis: ms }),
            None => None,
        }
    }
}

/// The milliseconds since the epoch of a calendar date and time, `None`
/// for dates and times that do not exist or lie outside the years `chrono`
/// represents (-262143 to 262142).
pub open spec fn civil_millis(year: int, month: int, day: int, hour: int, minute: int, second: int) -> Option<int> {
    if -262143 <= year <= 262142 && valid_date(year, month, day) && 0 <= hour < 24 && 0 <= minute < 60 && 0 <= second
        < 60 {
        Some(civil_day(year, month, day) * DAY_MILLIS + hour * 3_600_000 + minute * 60_000 + second * 1000)
    } else {
        None
    }
}

/// `NaiveDate::from_ymd_opt(..).and_hms_opt(..)` followed by
/// `timestamp_millis`, computed here from the calendar: a date exists when
/// its year is one `chrono` represents, its month is 1 to 12 and its day
/// lies in the month; the hour is below 24, minutes and seconds below 60.
fn calendar_millis(year: i32, month: u32, day: u32, hour: u32, minute: u32, second: u32) -> (r:
    Option<i64>)
    ensures
        r matches Some(ms) ==> Some(ms as int) == civil_millis(
            year as int,
            month as int,
            day as int,
            hour as int,
            minute as int,
            second as int,
        ),
        r is None ==> civil_millis(
            year as int,
            month as int,
            day as int,
            hour as int,
            minute as int,
            second as int,
        ) is None,
        r matches Some(ms) ==> MIN_MILLIS <= ms <= MAX_MILLIS && hour < 24 && minute < 60 && second
            < 60 && (ms as int) % (DAY_MILLIS as int) == hour * 3_600_000 + minute * 60_000 + second
            * 1000,
{
    if year < -262143 || year > 262142 || month < 1 || month > 12 || hour >= 24 || minute >= 60 || second >= 60 {
        return None;
    }
    let y = year as i64;
    let m = month as i64;
    if day < 1 || (day as i64) > month_days(y, m) {
        return None;
    }
    let d = day as i64;
    let days = days_from_civil(y, m, d);
    proof {
        lemma_year_bounds(y as int, m as int, d as int);
    }
    let tod = (hour as i64) * 3_600_000 + (minute as i64) * 60_000 + (second as i64) * 1000;
    let ms = days * DAY_MILLIS + tod;
    proof {
        vstd::arithmetic::div_mod::lemma_fundamental_div_mod_converse(ms as int, DAY_MILLIS as int, days as int, tod as int);
    }
    Some(ms)
}

/// The format strings this library hands to `chrono`.
pub open spec fn known_format(fmt: Seq<char>) -> bool {
    ||| fmt == "%Y-%m-%d %H:%M:%S"@
    ||| fmt == "%Y-%m-%d"@
    ||| fmt == "%H:%M:%S"@
    ||| fmt == "%Y-%m-%dT%H:%M:%S"@
}

/// `{:04}`: decimal, zero-padded to at least four digits.
pub open spec fn pad4(n: nat) -> Seq<char> {
    if n < 10 {
        seq!['0', '0', '0'] + decimal(n)
    } else if n < 100 {
        seq!['0', '0'] + decimal(n)
    } else if n < 1000 {
        seq!['0'] + decimal(n)
    } else {
        decimal(n)
    }
}

/// `%Y`: four digits for years 0 to 9999, otherwise a sign and at least
/// four digits.
pub open spec fn year_text(y: int) -> Seq<char> {
    if 0 <= y <= 9999 {
        pad4(y as nat)
    } else if y < 0 {
        seq!['-'] + pad4((-y) as nat)
    } else {
        seq!['+'] + pad4(y as nat)
    }
}

/// `%Y-%m-%d` of the date a moment falls on.
pub open spec fn date_text(millis: int) -> Seq<char> {
    year_text(year_of(millis)) + seq!['-'] + pad2(month_of(millis) as nat) + seq!['-'] + pad2(day_of(millis) as nat)
}

/// `%H:%M:%S` of the time of day of a moment.
pub open spec fn time_text(millis: int) -> Seq<char> {
    let s = (millis % (DAY_MILLIS as int)) / 1000;
    pad2((s / 3600) as nat) + seq![':'] + pad2(((s % 3600) / 60) as nat) + seq![':'] + pad2((s % 60) as nat)
}

/// A moment rendered with one of the [`known_format`]s, as `chrono`'s
/// `strftime` renders it.
pub open spec fn formatted(millis: int, fmt: Seq<char>) -> Seq<char> {
    if fmt == "%Y-%m-%d %H:%M:%S"@ {
        date_text(millis) + seq![' '] + time_text(millis)
    } else if fmt == "%Y-%m-%d"@ {
        date_text(millis)
    } else if fmt == "%H:%M:%S"@ {
        time_text(millis)
    } else if fmt == "%Y-%m-%dT%H:%M:%S"@ {
        date_text(millis) + seq!['T'] + time_text(millis)
    } else {
        Seq::empty()
    }
}

fn push_pad4(out: &mut Vec<char>, n: u64)
    ensures
        final(out)@ == old(out)@ + pad4(n as nat),
{
    if n < 10 {
        out.push('0');
        out.push('0');
        out.push('0');
    } else if n < 100 {
        out.push('0');
        out.push('0');
    } else if n < 1000 {
        out.push('0');
    }
    let ghost before = out@;
    push_decimal(out, n);
    assert(out@ =~= old(out)@ + pad4(n as nat));
}

/// The day a moment falls on (days since 1970-01-01) and its time of day.
fn day_and_time(m: Moment) -> (r: (i64, i64))
    requires
        m.wf(),
    ensures
        r.0 == day_index(m.millis as int),
        r.1 == m.time_of_day(),
        -100_000_000 <= r.0 <= 100_000_000,
{
    let tod = m.millis % DAY_MILLIS;
    let tod: i64 = if tod < 0 { tod + DAY_MILLIS } else { tod };
    assert(tod == m.time_of_day());
    let day = (m.millis - tod) / DAY_MILLIS;
    proof {
        vstd::arithmetic::div_mod::lemma_fundamental_div_mod(m.millis as int, DAY_MILLIS as int);
        assert(m.millis - tod == (m.millis as int / DAY_MILLIS as int) * DAY_MILLIS) by (nonlinear_arith)
            requires
                m.millis as int == DAY_MILLIS * (m.millis as int / DAY_MILLIS as int) + (m.millis as int % DAY_MILLIS as int),
                tod == m.millis as int % DAY_MILLIS as int,
        ;
        vstd::arithmetic::div_mod::lemma_fundamental_div_mod_converse_div(
            m.millis - tod,
            DAY_MILLIS as int,
            m.millis as int / DAY_MILLIS as int,
            0,
        );
    }
    (day, tod)
}

/// `NaiveDateTime::format(fmt).to_string()` for the [`known_format`]s,
/// computed here from the calendar.
#[verifier::rlimit(30)]
pub(crate) fn format_moment(m: Moment, fmt: &str) -> (s: String)
    requires
        m.wf(),
        known_format(fmt@),
    ensures
        s@ == formatted(m.millis as int, fmt@),
{
    let (day, tod) = day_and_time(m);
    let (y, mo, d) = civil_from_days(day);
    proof {
        lemma_calendar_of(m.millis as int);
        lemma_civil_unique(y as int, mo as int, d as int, year_of(m.millis as int), month_of(m.millis as int), day_of(m.millis as int));
    }
    let mut date: Vec<char> = Vec::new();
    if 0 <= y && y <= 9999 {
        push_pad4(&mut date, y as u64);
    } else if y < 0 {
        date.push('-');
        push_pad4(&mut date, (-y) as u64);
    } else {
        date.push('+');
        push_pad4(&mut date, y as u64);
    }
    date.push('-');
    push_pad2(&mut date, mo as u64);
    date.push('-');
    push_pad2(&mut date, d as u64);
    assert(date@ =~= date_text(m.millis as int));
    let secs = (tod / 1000) as u64;
    let mut time: Vec<char> = Vec::new();
    push_pad2(&mut time, secs / 3600);
    time.push(':');
    push_pad2(&mut time, (secs % 3600) / 60);
    time.push(':');
    push_pad2(&mut time, secs % 60);
    assert(time@ =~= time_text(m.millis as int));
    let f = chars_of(fmt);
    let mut out = date.clone();
    assert(out@ =~= date@);
    if same(&f, &chars_of("%Y-%m-%d %H:%M:%S")) {
        out.push(' ');
        for_each_push(&mut out, &time);
        assert(out@ =~= formatted(m.millis as int, fmt@));
    } else if same(&f, &chars_of("%Y-%m-%d")) {
        assert(out@ =~= formatted(m.millis as int, fmt@));
    } else if same(&f, &chars_of("%H:%M:%S")) {
        out = time;
        assert(out@ =~= formatted(m.millis as int, fmt@));
    } else {
        out.push('T');
        for_each_push(&mut out, &time);
        assert(out@ =~= formatted(m.millis as int, fmt@));
    }
    string_of(&out)
}

fn for_each_push(out: &mut Vec<char>, more: &Vec<char>)
    ensures
        final(out)@ == old(out)@ + more@,
{
    let mut i: usize = 0;
    while i < more.len()
        invariant
            i <= more.len(),
            out@ == old(out)@ + more@.take(i as int),
        decreases more.len() - i,
    {
        out.push(more[i]);
        i = i + 1;
        assert(out@ =~= old(out)@ + more@.take(i as int));
    }
    assert(more@.take(more.len() as int) =~= more@);
}

/// Name for `NaiveDateTime::parse_from_str(text, fmt)`, in milliseconds
/// (sub-millisecond digits dropped), `None` when it refuses the text.
pub uninterp spec fn parsed_datetime(text: Seq<char>, fmt: Seq<char>) -> Option<int>;

/// `NaiveDateTime::parse_from_str`, then `timestamp_millis`. Nothing is
/// claimed of the range: `chrono` accepts second 60, which counts as the
/// second after.
#[verifier::external_body]
pub(crate) fn parse_datetime(text: &str, fmt: &str) -> (r: Option<i64>)
    ensures
        r matches Some(ms) ==> Some(ms as int) == parsed_datetime(text@, fmt@),
        r is None ==> parsed_datetime(text@, fmt@) is None,
{
    chrono::NaiveDateTime::parse_from_str(text, fmt).ok().map(|moment| moment.and_utc().timestamp_millis())
}

/// Name for `NaiveDate::parse_from_str(text, fmt)` at midnight, in
/// milliseconds, `None` when it refuses the text.
pub uninterp spec fn parsed_date(text: Seq<char>, fmt: Seq<char>) -> Option<int>;

/// `NaiveDate::parse_from_str(..).and_hms_opt(0, 0, 0)`; midnight always
/// exists and lies in range.
#[verifier::external_body]
pub(crate) fn parse_date(text: &str, fmt: &str) -> (r: Option<Moment>)
    ensures
        r matches Some(m) ==> Some(m.millis as int) == parsed_date(text@, fmt@) && m.wf()
            && m.time_of_day() == 0,
        r is None ==> parsed_date(text@, fmt@) is None,
{
    match chrono::NaiveDate::parse_from_str(text, fmt) {
        Ok(date) => date.and_hms_opt(0, 0, 0).map(|moment| Moment { millis: moment.and_utc().timestamp_millis() }),
        Err(_) => None,
    }
}

/// The day a moment falls on, counted from 1970-01-01.
pub open spec fn day_index(millis: int) -> int {
    millis / (DAY_MILLIS as int)
}

/// The calendar date (year, month 1 to 12, day) a moment falls on.
pub open spec fn civil_of(millis: int) -> (int, int, int) {
    choose|y: int, m: int, d: int| valid_date(y, m, d) && civil_day(y, m, d) == day_index(millis)
}

/// The calendar year of a moment.
pub open spec fn year_of(millis: int) -> int {
    civil_of(millis).0
}

/// The calendar month (1 to 12) of a moment.
pub open spec fn month_of(millis: int) -> int {
    civil_of(millis).1
}

/// The day of the month of a moment.
pub open spec fn day_of(millis: int) -> int {
    civil_of(millis).2
}

/// The year, month and day of a moment are the one date that exists and
/// lies that many days after 1970-01-01: any date counted to the moment's
/// day is that date.
pub proof fn lemma_calendar_of(millis: int)
    ensures
        valid_date(year_of(millis), month_of(millis), day_of(millis)),
        civil_day(year_of(millis), month_of(millis), day_of(millis)) == day_index(millis),
        forall|y: int, m: int, d: int|
            valid_date(y, m, d) && #[trigger] civil_day(y, m, d) == day_index(millis) ==> y == year_of(millis) && m
                == month_of(millis) && d == day_of(millis),
{
    let w = lemma_civil_exists(day_index(millis));
    assert(valid_date(w.0, w.1, w.2) && civil_day(w.0, w.1, w.2) == day_index(millis));
    let c = civil_of(millis);
    assert(valid_date(c.0, c.1, c.2) && civil_day(c.0, c.1, c.2) == day_index(millis));
    assert forall|y: int, m: int, d: int|
        valid_date(y, m, d) && #[trigger] civil_day(y, m, d) == day_index(millis) implies y == year_of(millis) && m
            == month_of(millis) && d == day_of(millis) by {
        lemma_civil_unique(y, m, d, c.0, c.1, c.2);
    }
}

/// A moment's calendar date and clock build the moment back, to the whole
/// second: year, month and day from [`year_of`], [`month_of`] and
/// [`day_of`], hours, minutes and seconds from its time of day (for every
/// moment from -262143-01-01 on).
pub proof fn lemma_date_builds_moment(m: Moment)
    requires
        m.wf(),
        day_index(m.millis as int) >= -96465292,
    ensures
        ({
            let s = m.time_of_day() / 1000;
            civil_millis(year_of(m.millis as int), month_of(m.millis as int), day_of(m.millis as int), s / 3600, (s % 3600) / 60, s % 60)
                == Some(m.millis - m.millis % 1000)
        }),
{
    let t = m.millis as int;
    lemma_calendar_of(t);
    let (y, mo, d) = (year_of(t), month_of(t), day_of(t));
    assert(civil_day(-262143, 1, 1) == -96465292);
    assert(civil_day(262143, 1, 1) == 95026237);
    crate::calendar::lemma_date_in_year(y, mo, d);
    if y < -262143 {
        crate::calendar::lemma_years_ordered(y, -262143);
    }
    if y > 262142 {
        crate::calendar::lemma_years_ordered(262142, y);
        crate::calendar::lemma_year_step(262142);
    }
    vstd::arithmetic::div_mod::lemma_fundamental_div_mod(t, DAY_MILLIS as int);
    vstd::arithmetic::div_mod::lemma_mod_bound(t, DAY_MILLIS as int);
    let tod = m.time_of_day();
    let s = tod / 1000;
    assert(0 <= s < 86400);
    assert(s / 3600 * 3_600_000 + (s % 3600) / 60 * 60_000 + s % 60 * 1000 == s * 1000);
    vstd::arithmetic::div_mod::lemma_fundamental_div_mod(tod, 1000);
    vstd::arithmetic::div_mod::lemma_mod_bound(tod, 1000);
    assert(t == day_index(t) * DAY_MILLIS + tod) by (nonlinear_arith)
        requires
            t == DAY_MILLIS * (t / DAY_MILLIS as int) + t % (DAY_MILLIS as int),
            day_index(t) == t / DAY_MILLIS as int,
            tod == t % (DAY_MILLIS as int),
    ;
    assert(t % 1000 == tod % 1000) by {
        vstd::arithmetic::div_mod::lemma_fundamental_div_mod_converse(
            t,
            1000,
            day_index(t) * 86400 + tod / 1000,
            tod % 1000,
        );
    }
}

/// The year and the month (1 to 12) of a moment.
pub(crate) fn year_month(m: Moment) -> (r: (i32, u32))
    requires
        m.wf(),
    ensures
        r.0 == year_of(m.millis as int),
        r.1 == month_of(m.millis as int),
        1 <= r.1 <= 12,
{
    let (day, _) = day_and_time(m);
    let (y, mo, d) = civil_from_days(day);
    proof {
        lemma_calendar_of(m.millis as int);
    }
    (y as i32, mo as u32)
}

} // verus!
