//! System-notification scheduling for the moments on screen, with
//! de-duplication and "re-arming never re-announces" protection.
//!
//! The notifier decides which reminders are due; sending them is left to the
//! caller, which performs the returned [`Notice`]s.

use vstd::prelude::*;
use crate::chars::{chars_of, decimal, push_all, push_decimal, same, string_of};
use crate::config::NotifyConfig;
use crate::moment::{MAX_MILLIS, MIN_MILLIS, Moment, formatted};
use crate::timefmt::{
    clock_of, clock_text, datetime_of, fill, fill_all, format_hms, format_human, hms_text,
    human_text,
};

verus! {

/// A placeholder name wrapped in braces: `{name}`.
pub open spec fn braced(name: Seq<char>) -> Seq<char> {
    seq!['{'] + name + seq!['}']
}

/// Notification copy: each `{name}` replaced in turn by its value; unknown
/// placeholders stay verbatim.
pub open spec fn copy_text(template: Seq<char>, names: Seq<Seq<char>>, values: Seq<Seq<char>>) -> Seq<char> {
    fill(template, names.map_values(|n: Seq<char>| braced(n)), values, names.len())
}

/// `{name}` as characters.
fn braced_chars(name: &str) -> (r: Vec<char>)
    ensures
        r@ == braced(name@),
{
    let mut r: Vec<char> = Vec::new();
    r.push('{');
    push_all(&mut r, &chars_of(name));
    r.push('}');
    assert(r@ =~= braced(name@));
    r
}

/// Render notification copy by placeholder; unknown placeholders are kept verbatim.
pub fn render_copy(template: &str, values: &[(&str, String)]) -> (text: String)
    ensures
        text@ == copy_text(
            template@,
            values@.map_values(|p: (&str, String)| p.0@),
            values@.map_values(|p: (&str, String)| p.1@),
        ),
{
    let mut keys: Vec<Vec<char>> = Vec::new();
    let mut vals: Vec<Vec<char>> = Vec::new();
    let ghost names = values@.map_values(|p: (&str, String)| p.0@);
    let ghost texts = values@.map_values(|p: (&str, String)| p.1@);
    let mut i: usize = 0;
    while i < values.len()
        invariant
            i <= values.len(),
            names == values@.map_values(|p: (&str, String)| p.0@),
            texts == values@.map_values(|p: (&str, String)| p.1@),
            keys.len() == i,
            vals.len() == i,
            forall|j: int| 0 <= j < i ==> (#[trigger] keys@[j])@ == braced(names[j]),
            forall|j: int| 0 <= j < i ==> (#[trigger] vals@[j])@ == texts[j],
        decreases values.len() - i,
    {
        let (name, value) = &values[i];
        keys.push(braced_chars(name));
        vals.push(chars_of(value.as_str()));
        i = i + 1;
    }
    assert(keys@.map_values(|k: Vec<char>| k@) =~= names.map_values(|n: Seq<char>| braced(n)));
    assert(vals@.map_values(|k: Vec<char>| k@) =~= texts);
    let text = chars_of(template);
    let filled = fill_all(&text, &keys, &vals);
    string_of(&filled)
}

// ---------------------------------------------------------------------------
// Lead and trail times
// ---------------------------------------------------------------------------

/// How many leading entries of a sorted schedule lie below `x`.
pub open spec fn count_below(s: Seq<i64>, x: i64) -> nat
    decreases s.len(),
{
    if s.len() > 0 && s[0] < x {
        1 + count_below(s.drop_first(), x)
    } else {
        0
    }
}

/// Add one configured value to a schedule: positive values not yet present
/// go in at their sorted place; others are dropped.
pub open spec fn insert_lead(s: Seq<i64>, x: i64) -> Seq<i64> {
    if x <= 0 || s.contains(x) {
        s
    } else {
        let k = count_below(s, x) as int;
        s.take(k) + seq![x] + s.skip(k)
    }
}

/// The schedule of configured reminder offsets: the positive values,
/// ascending, each once (`filter`, `sort`, `dedup`).
pub open spec fn schedule(values: Seq<i64>) -> Seq<i64>
    decreases values.len(),
{
    if values.len() == 0 {
        Seq::empty()
    } else {
        insert_lead(schedule(values.drop_last()), values.last())
    }
}

pub open spec fn strictly_ascending(s: Seq<i64>) -> bool {
    forall|i: int, j: int| 0 <= i < j < s.len() ==> s[i] < s[j]
}

proof fn lemma_count_below(s: Seq<i64>, x: i64)
    requires
        strictly_ascending(s),
    ensures
        count_below(s, x) <= s.len(),
        forall|i: int| 0 <= i < count_below(s, x) ==> s[i] < x,
        forall|i: int| count_below(s, x) <= i < s.len() ==> s[i] >= x,
    decreases s.len(),
{
    if s.len() > 0 && s[0] < x {
        assert(strictly_ascending(s.drop_first()));
        lemma_count_below(s.drop_first(), x);
        assert forall|i: int| 0 <= i < count_below(s, x) implies s[i] < x by {
            if i > 0 {
                assert(s[i] == s.drop_first()[i - 1]);
            }
        }
        assert forall|i: int| count_below(s, x) <= i < s.len() implies s[i] >= x by {
            assert(s[i] == s.drop_first()[i - 1]);
        }
    } else if s.len() > 0 {
        assert forall|i: int| 0 <= i < s.len() implies s[i] >= x by {
            if i > 0 {
                assert(s[0] < s[i]);
            }
        }
    }
}

/// The schedule holds exactly the positive configured values, ascending and
/// each once.
pub proof fn lemma_schedule(values: Seq<i64>)
    ensures
        strictly_ascending(schedule(values)),
        forall|x: i64| schedule(values).contains(x) <==> (values.contains(x) && x > 0),
    decreases values.len(),
{
    if values.len() > 0 {
        let prev = schedule(values.drop_last());
        let x = values.last();
        lemma_schedule(values.drop_last());
        if !(x <= 0 || prev.contains(x)) {
            lemma_count_below(prev, x);
            let k = count_below(prev, x) as int;
            let next = prev.take(k) + seq![x] + prev.skip(k);
            assert(next.len() == prev.len() + 1);
            assert forall|i: int, j: int| 0 <= i < j < next.len() implies next[i] < next[j] by {
                if j < k {
                    assert(next[i] == prev[i] && next[j] == prev[j]);
                } else if j == k {
                    assert(next[i] == prev[i]);
                } else if i < k {
                    assert(next[i] == prev[i] && next[j] == prev[j - 1]);
                    assert(prev[j - 1] >= x);
                    if prev[j - 1] == x {
                        assert(prev.contains(x));
                    }
                } else if i == k {
                    assert(next[j] == prev[j - 1]);
                    if prev[j - 1] == x {
                        assert(prev.contains(x));
                    }
                } else {
                    assert(next[i] == prev[i - 1] && next[j] == prev[j - 1]);
                }
            }
            assert forall|y: i64| next.contains(y) <==> (values.contains(y) && y > 0) by {
                if next.contains(y) {
                    let q = choose|q: int| 0 <= q < next.len() && next[q] == y;
                    if q < k {
                        assert(prev[q] == y);
                        assert(prev.contains(y));
                        assert(values.drop_last().contains(y));
                        let p = choose|p: int| 0 <= p < values.drop_last().len() && values.drop_last()[p] == y;
                        assert(values.drop_last()[p] == values[p]);
                        assert(values.contains(y));
                    } else if q == k {
                        assert(values[values.len() - 1] == y);
                    } else {
                        assert(prev[q - 1] == y);
                        assert(prev.contains(y));
                        assert(values.drop_last().contains(y));
                        let p = choose|p: int| 0 <= p < values.drop_last().len() && values.drop_last()[p] == y;
                        assert(values.drop_last()[p] == values[p]);
                        assert(values.contains(y));
                    }
                }
                if values.contains(y) && y > 0 {
                    let p = choose|p: int| 0 <= p < values.len() && values[p] == y;
                    if p == values.len() - 1 {
                        assert(next[k] == y);
                    } else {
                        assert(values.drop_last()[p] == y);
                        assert(values.drop_last().contains(y));
                        let q = choose|q: int| 0 <= q < prev.len() && prev[q] == y;
                        if q < k {
                            assert(next[q] == y);
                        } else {
                            assert(next[q + 1] == y);
                        }
                    }
                }
            }
        } else {
            assert forall|y: i64| prev.contains(y) <==> (values.contains(y) && y > 0) by {
                if prev.contains(y) {
                    assert(values.drop_last().contains(y));
                    let p = choose|p: int| 0 <= p < values.drop_last().len() && values.drop_last()[p] == y;
                    assert(values.drop_last()[p] == values[p]);
                    assert(values.contains(y));
                }
                if values.contains(y) && y > 0 {
                    let p = choose|p: int| 0 <= p < values.len() && values[p] == y;
                    if p < values.len() - 1 {
                        assert(values.drop_last()[p] == y);
                        assert(values.drop_last().contains(y));
                    }
                }
            }
        }
    }
}

/// The schedule of configured reminder offsets (see [`schedule`]).
fn schedule_of(values: &Vec<i64>) -> (r: Vec<i64>)
    ensures
        r@ == schedule(values@),
{
    let mut s: Vec<i64> = Vec::new();
    let mut i: usize = 0;
    while i < values.len()
        invariant
            i <= values.len(),
            s@ == schedule(values@.take(i as int)),
        decreases values.len() - i,
    {
        let x = values[i];
        assert(values@.take(i + 1).drop_last() =~= values@.take(i as int));
        let ghost prev = s@;
        if x > 0 {
            let mut present = false;
            let mut k: usize = 0;
            while k < s.len()
                invariant
                    k <= s.len(),
                    s@ == prev,
                    present == (exists|q: int| 0 <= q < k && s@[q] == x),
                decreases s.len() - k,
            {
                if s[k] == x {
                    present = true;
                }
                k = k + 1;
            }
            if !present {
                let mut pos: usize = 0;
                assert(prev.skip(0) =~= prev);
                while pos < s.len() && s[pos] < x
                    invariant
                        pos <= s.len(),
                        s@ == prev,
                        count_below(prev, x) == pos + count_below(prev.skip(pos as int), x),
                    decreases s.len() - pos,
                {
                    assert(prev.skip(pos as int).drop_first() =~= prev.skip(pos + 1));
                    pos = pos + 1;
                }
                s.insert(pos, x);
                assert(s@ =~= prev.take(pos as int) + seq![x] + prev.skip(pos as int));
            }
        }
        i = i + 1;
    }
    assert(values@.take(values.len() as int) =~= values@);
    s
}


// ---------------------------------------------------------------------------
// Reminder events
// ---------------------------------------------------------------------------

/// One scheduled reminder.
#[derive(Debug)]
pub struct Event {
    pub fire_at: Moment,
    /// identifies the reminder across re-arming: `label|-120`, `label|0`, `label|+60`
    pub key: String,
    /// which moment the reminder belongs to
    pub label: String,
    pub title: String,
    pub body: String,
}

/// (fire time, key, label, title, body)
pub type EventModel = (int, Seq<char>, Seq<char>, Seq<char>, Seq<char>);

pub open spec fn event_view(e: Event) -> EventModel {
    (e.fire_at.millis as int, e.key@, e.label@, e.title@, e.body@)
}

pub open spec fn events_view(v: Seq<Event>) -> Seq<EventModel> {
    v.map_values(|e: Event| event_view(e))
}

/// Which side of its moment a reminder is on.
#[derive(Clone, Copy, Debug, PartialEq, Eq, Structural)]
pub enum Side {
    Before,
    At,
    After,
}

/// The placeholders of notification copy, in the order they are filled in.
pub open spec fn reminder_names() -> Seq<Seq<char>> {
    seq!["label"@, "time"@, "datetime"@, "sign"@, "clock"@, "human"@]
}

/// The values of the placeholders of one reminder.
pub open spec fn reminder_values(label: Seq<char>, m: Moment, side: Side, offset: int) -> Seq<Seq<char>> {
    seq![
        label,
        clock_text(m),
        formatted(m.millis as int, "%Y-%m-%d %H:%M:%S"@),
        if side == Side::After { "+"@ } else { "-"@ },
        hms_text(offset, true),
        if side == Side::At { "0s"@ } else { human_text(offset) },
    ]
}

/// The reminder `offset` seconds before (or after, or at) a moment.
pub open spec fn reminder(cfg: NotifyConfig, label: Seq<char>, m: Moment, side: Side, offset: int) -> EventModel {
    let values = reminder_values(label, m, side, offset);
    let fire_at = match side {
        Side::Before => m.millis - offset * 1000,
        Side::At => m.millis as int,
        Side::After => m.millis + offset * 1000,
    };
    let key = match side {
        Side::Before => label + "|-"@ + decimal(offset as nat),
        Side::At => label + "|0"@,
        Side::After => label + "|+"@ + decimal(offset as nat),
    };
    let body = match side {
        Side::Before => cfg.body_before@,
        Side::At => cfg.body_at@,
        Side::After => cfg.body_after@,
    };
    (
        fire_at,
        key,
        label,
        copy_text(cfg.title_template@, reminder_names(), values),
        copy_text(body, reminder_names(), values),
    )
}

/// The reminders of one moment: the leads (ascending), the moment itself,
/// then the trails (ascending).
pub open spec fn moment_events(cfg: NotifyConfig, label: Seq<char>, m: Moment) -> Seq<EventModel> {
    schedule(cfg.before@).map_values(|lead: i64| reminder(cfg, label, m, Side::Before, lead as int))
        + (if cfg.at_moment { seq![reminder(cfg, label, m, Side::At, 0)] } else { Seq::empty() })
        + schedule(cfg.after@).map_values(|trail: i64| reminder(cfg, label, m, Side::After, trail as int))
}

/// (label, moment) pairs by value.
pub open spec fn moments_view(v: Seq<(String, Moment)>) -> Seq<(Seq<char>, Moment)> {
    v.map_values(|p: (String, Moment)| (p.0@, p.1))
}

/// The reminders of every moment, moment by moment.
pub open spec fn all_events(cfg: NotifyConfig, moments: Seq<(Seq<char>, Moment)>) -> Seq<EventModel>
    decreases moments.len(),
{
    if moments.len() == 0 {
        Seq::empty()
    } else {
        all_events(cfg, moments.drop_last()) + moment_events(cfg, moments.last().0, moments.last().1)
    }
}

/// How many leading entries fire no later than `t`.
pub open spec fn count_not_later(s: Seq<EventModel>, t: int) -> nat
    decreases s.len(),
{
    if s.len() > 0 && s[0].0 <= t {
        1 + count_not_later(s.drop_first(), t)
    } else {
        0
    }
}

/// Insert after every entry that fires no later.
pub open spec fn insert_by_time(s: Seq<EventModel>, e: EventModel) -> Seq<EventModel> {
    let k = count_not_later(s, e.0) as int;
    s.take(k) + seq![e] + s.skip(k)
}

/// Stable sort by firing time (`sort_by_key(|event| event.fire_at)`).
pub open spec fn sort_by_time(s: Seq<EventModel>) -> Seq<EventModel>
    decreases s.len(),
{
    if s.len() == 0 {
        Seq::empty()
    } else {
        insert_by_time(sort_by_time(s.drop_last()), s.last())
    }
}

pub open spec fn by_time(s: Seq<EventModel>) -> bool {
    forall|i: int, j: int| 0 <= i <= j < s.len() ==> s[i].0 <= s[j].0
}

/// The reminders fire in time order and none is lost or invented.
pub proof fn lemma_sort_by_time(s: Seq<EventModel>)
    ensures
        by_time(sort_by_time(s)),
        sort_by_time(s).to_multiset() == s.to_multiset(),
    decreases s.len(),
{
    if s.len() > 0 {
        let prev = sort_by_time(s.drop_last());
        let e = s.last();
        lemma_sort_by_time(s.drop_last());
        lemma_count_not_later(prev, e.0);
        let k = count_not_later(prev, e.0) as int;
        let next = prev.take(k) + seq![e] + prev.skip(k);
        assert forall|i: int, j: int| 0 <= i <= j < next.len() implies next[i].0 <= next[j].0 by {
            if j < k {
                assert(next[i] == prev[i] && next[j] == prev[j]);
            } else if j == k {
                if i < k {
                    assert(next[i] == prev[i]);
                }
            } else if i < k {
                assert(next[i] == prev[i] && next[j] == prev[j - 1]);
            } else if i == k {
                assert(next[j] == prev[j - 1]);
            } else {
                assert(next[i] == prev[i - 1] && next[j] == prev[j - 1]);
            }
        }
        assert(next =~= prev.insert(k, e));
        vstd::seq_lib::to_multiset_insert(prev, k, e);
        assert(s =~= s.drop_last().push(e));
        vstd::seq_lib::to_multiset_build(s.drop_last(), e);
        assert(sort_by_time(s) == next);
        assert(sort_by_time(s).to_multiset() =~= s.to_multiset());
    } else {
        assert(s =~= Seq::<EventModel>::empty());
    }
}

proof fn lemma_count_not_later(s: Seq<EventModel>, t: int)
    requires
        by_time(s),
    ensures
        count_not_later(s, t) <= s.len(),
        forall|i: int| 0 <= i < count_not_later(s, t) ==> s[i].0 <= t,
        forall|i: int| count_not_later(s, t) <= i < s.len() ==> s[i].0 > t,
    decreases s.len(),
{
    if s.len() > 0 && s[0].0 <= t {
        assert(by_time(s.drop_first()));
        lemma_count_not_later(s.drop_first(), t);
        assert forall|i: int| 0 <= i < count_not_later(s, t) implies s[i].0 <= t by {
            if i > 0 {
                assert(s[i] == s.drop_first()[i - 1]);
            }
        }
        assert forall|i: int| count_not_later(s, t) <= i < s.len() implies s[i].0 > t by {
            assert(s[i] == s.drop_first()[i - 1]);
        }
    } else if s.len() > 0 {
        assert forall|i: int| 0 <= i < s.len() implies s[i].0 > t by {
            assert(s[0].0 <= s[i].0);
        }
    }
}


/// Largest lead or trail `chrono` turns into a duration (`i64::MAX` ms).
pub const OFFSET_MAX: i64 = 9_223_372_036_854_775;

/// Every reminder of every moment lands inside the calendar.
pub open spec fn arm_fits(cfg: NotifyConfig, moments: Seq<(String, Moment)>) -> bool {
    forall|j: int|
        0 <= j < moments.len() ==> {
            &&& (#[trigger] moments[j]).1.wf()
            &&& forall|x: i64|
                cfg.before@.contains(x) && x > 0 ==> x <= OFFSET_MAX && MIN_MILLIS <= moments[j].1.millis
                    - x * 1000
            &&& forall|x: i64|
                cfg.after@.contains(x) && x > 0 ==> x <= OFFSET_MAX && moments[j].1.millis + x * 1000
                    <= MAX_MILLIS
        }
}

/// Build one reminder.
fn make_reminder(cfg: &NotifyConfig, label: &String, m: Moment, side: Side, offset: i64) -> (e: Event)
    requires
        m.wf(),
        0 <= offset <= OFFSET_MAX,
        side == Side::At ==> offset == 0,
        side == Side::Before ==> MIN_MILLIS <= m.millis - offset * 1000,
        side == Side::After ==> m.millis + offset * 1000 <= MAX_MILLIS,
    ensures
        event_view(e) == reminder(*cfg, label@, m, side, offset as int),
        e.fire_at.wf(),
{
    let names: Vec<Vec<char>> = vec![
        braced_chars("label"),
        braced_chars("time"),
        braced_chars("datetime"),
        braced_chars("sign"),
        braced_chars("clock"),
        braced_chars("human"),
    ];
    let sign = if side == Side::After { chars_of("+") } else { chars_of("-") };
    let human = if side == Side::At { chars_of("0s") } else { chars_of(format_human(offset).as_str()) };
    let values: Vec<Vec<char>> = vec![
        chars_of(label.as_str()),
        chars_of(clock_of(m).as_str()),
        chars_of(datetime_of(m).as_str()),
        sign,
        chars_of(format_hms(offset, true).as_str()),
        human,
    ];
    let ghost name_seq = names@.map_values(|k: Vec<char>| k@);
    assert(name_seq =~= reminder_names().map_values(|n: Seq<char>| braced(n)));
    assert(values@.map_values(|k: Vec<char>| k@) =~= reminder_values(label@, m, side, offset as int));
    assert forall|i: int| 0 <= i < names.len() implies (#[trigger] names@[i])@.len() > 0 by {
        assert(name_seq[i] == names@[i]@);
    }
    let title = fill_all(&chars_of(cfg.title_template.as_str()), &names, &values);
    let body_template = match side {
        Side::Before => &cfg.body_before,
        Side::At => &cfg.body_at,
        Side::After => &cfg.body_after,
    };
    let body = fill_all(&chars_of(body_template.as_str()), &names, &values);
    let mut key = chars_of(label.as_str());
    let fire_millis = match side {
        Side::Before => {
            push_all(&mut key, &chars_of("|-"));
            push_decimal(&mut key, offset as u64);
            m.millis - offset * 1000
        },
        Side::At => {
            push_all(&mut key, &chars_of("|0"));
            m.millis
        },
        Side::After => {
            push_all(&mut key, &chars_of("|+"));
            push_decimal(&mut key, offset as u64);
            m.millis + offset * 1000
        },
    };
    Event {
        fire_at: Moment { millis: fire_millis },
        key: string_of(&key),
        label: label.clone(),
        title: string_of(&title),
        body: string_of(&body),
    }
}

/// Insert after every event that fires no later (keeps the queue sorted and stable).
fn insert_by_fire_time(events: &mut Vec<Event>, e: Event)
    ensures
        events_view(final(events)@) == insert_by_time(events_view(old(events)@), event_view(e)),
{
    let ghost before = events_view(events@);
    let t = e.fire_at.millis;
    let mut k: usize = 0;
    assert(before.skip(0) =~= before);
    while k < events.len() && events[k].fire_at.millis <= t
        invariant
            k <= events.len(),
            events_view(events@) == before,
            count_not_later(before, t as int) == k + count_not_later(before.skip(k as int), t as int),
        decreases events.len() - k,
    {
        assert(before[k as int] == event_view(events@[k as int]));
        assert(before.skip(k as int).drop_first() =~= before.skip(k + 1));
        k = k + 1;
    }
    if k < events.len() {
        assert(before.skip(k as int)[0] == event_view(events@[k as int]));
    }
    events.insert(k, e);
    assert(events_view(events@) =~= before.take(k as int) + seq![event_view(e)] + before.skip(k as int));
}

/// One notification to send.
#[derive(Debug)]
pub struct Notice {
    pub key: String,
    pub title: String,
    pub body: String,
    pub sound: Option<String>,
}

/// Build the reminder queue for a set of moments; `tick` hands back the ones
/// that are due.
#[derive(Debug)]
pub struct MomentNotifier {
    pub config: NotifyConfig,
    pub moments: Vec<(String, Moment)>,
    /// the queue, in firing order
    pub events: Vec<Event>,
    /// keys of the reminders already sent
    pub fired: Vec<String>,
    pub armed_at: Option<Moment>,
    /// the reminder settings the queue was built from
    pub built_from: NotifyConfig,
}

/// The settings a queue is built from: the lead and trail times, whether the
/// moment itself is announced, and the wording.
pub open spec fn schedule_view(c: NotifyConfig) -> (Seq<i64>, Seq<i64>, bool, Seq<char>, Seq<char>, Seq<char>, Seq<char>) {
    (c.before@, c.after@, c.at_moment, c.title_template@, c.body_before@, c.body_at@, c.body_after@)
}

/// Whether [`MomentNotifier::arm`] with these moments rebuilds the queue:
/// the moments changed, or the reminder settings differ from those the
/// queue was built from.
pub open spec fn rebuilds(n: MomentNotifier, moments: Seq<(String, Moment)>) -> bool {
    moments_view(moments) != moments_view(n.moments@) || schedule_view(n.config) != schedule_view(n.built_from)
}

pub open spec fn keys_view(v: Seq<String>) -> Seq<Seq<char>> {
    v.map_values(|k: String| k@)
}

/// Whether a reminder is due at `now`, and not older than the startup grace.
pub open spec fn due(e: EventModel, now: int, cutoff: int) -> bool {
    now >= e.0 && e.0 >= cutoff
}

/// The fired keys after a tick has looked at the first `n` events.
pub open spec fn fired_after(events: Seq<EventModel>, fired: Seq<Seq<char>>, now: int, cutoff: int, n: nat) -> Seq<Seq<char>>
    decreases n,
{
    if n == 0 {
        fired
    } else {
        let f = fired_after(events, fired, now, cutoff, (n - 1) as nat);
        let e = events[n - 1];
        if !f.contains(e.1) && due(e, now, cutoff) {
            f.push(e.1)
        } else {
            f
        }
    }
}

/// The events a tick sends among the first `n`, in queue order.
pub open spec fn sent_after(events: Seq<EventModel>, fired: Seq<Seq<char>>, now: int, cutoff: int, n: nat) -> Seq<EventModel>
    decreases n,
{
    if n == 0 {
        Seq::empty()
    } else {
        let f = fired_after(events, fired, now, cutoff, (n - 1) as nat);
        let e = events[n - 1];
        let s = sent_after(events, fired, now, cutoff, (n - 1) as nat);
        if !f.contains(e.1) && due(e, now, cutoff) {
            s.push(e)
        } else {
            s
        }
    }
}

/// What a tick sends: every sent reminder is due, was not sent before, and is
/// sent once; the sent keys are appended to the record, which only grows; and
/// afterwards every due reminder among those looked at is on record.
pub proof fn lemma_tick_sends_once(
    events: Seq<EventModel>,
    fired: Seq<Seq<char>>,
    now: int,
    cutoff: int,
    n: nat,
)
    requires
        n <= events.len(),
    ensures
        fired_after(events, fired, now, cutoff, n) == fired + sent_after(events, fired, now, cutoff, n).map_values(
            |e: EventModel| e.1,
        ),
        forall|i: int|
            0 <= i < sent_after(events, fired, now, cutoff, n).len() ==> {
                &&& due(#[trigger] sent_after(events, fired, now, cutoff, n)[i], now, cutoff)
                &&& !fired.contains(sent_after(events, fired, now, cutoff, n)[i].1)
            },
        forall|i: int, j: int|
            0 <= i < j < sent_after(events, fired, now, cutoff, n).len() ==> (#[trigger] sent_after(
                events,
                fired,
                now,
                cutoff,
                n,
            )[i]).1 != (#[trigger] sent_after(events, fired, now, cutoff, n)[j]).1,
        forall|k: int|
            0 <= k < n && due(#[trigger] events[k], now, cutoff) ==> fired_after(events, fired, now, cutoff, n).contains(
                events[k].1,
            ),
    decreases n,
{
    if n > 0 {
        let m = (n - 1) as nat;
        lemma_tick_sends_once(events, fired, now, cutoff, m);
        let f = fired_after(events, fired, now, cutoff, m);
        let s = sent_after(events, fired, now, cutoff, m);
        let e = events[m as int];
        if !f.contains(e.1) && due(e, now, cutoff) {
            assert(s.push(e).map_values(|x: EventModel| x.1) =~= s.map_values(|x: EventModel| x.1).push(e.1));
            assert(f.push(e.1) =~= fired + s.push(e).map_values(|x: EventModel| x.1));
            assert forall|i: int| 0 <= i < s.len() implies (#[trigger] s[i]).1 != e.1 by {
                assert(f[fired.len() + i] == s.map_values(|x: EventModel| x.1)[i]);
            }
            assert forall|i: int| 0 <= i < fired.len() implies fired[i] != e.1 by {
                assert(f[i] == fired[i]);
            }
            let s2 = s.push(e);
            assert forall|i: int, j: int| 0 <= i < j < s2.len() implies (#[trigger] s2[i]).1 != (
            #[trigger] s2[j]).1 by {
                if j == s.len() {
                    assert(s2[i] == s[i]);
                } else {
                    assert(s2[i] == s[i] && s2[j] == s[j]);
                }
            }
            assert forall|k: int| 0 <= k < n && due(#[trigger] events[k], now, cutoff) implies f.push(
                e.1,
            ).contains(events[k].1) by {
                if k < m {
                    let w = choose|w: int| 0 <= w < f.len() && f[w] == events[k].1;
                    assert(f.push(e.1)[w] == events[k].1);
                } else {
                    assert(f.push(e.1)[f.len() as int] == e.1);
                }
            }
        } else {
            assert forall|k: int| 0 <= k < n && due(#[trigger] events[k], now, cutoff) implies f.contains(
                events[k].1,
            ) by {
                if k == m {
                    assert(events[k] == e);
                }
            }
        }
    } else {
        assert(fired + Seq::<EventModel>::empty().map_values(|e: EventModel| e.1) =~= fired);
    }
}

/// The sent record after ticks at each of `nows` in turn, from `fired`.
pub open spec fn ticks_fired(events: Seq<EventModel>, fired: Seq<Seq<char>>, nows: Seq<int>, cutoff: int) -> Seq<Seq<char>>
    decreases nows.len(),
{
    if nows.len() == 0 {
        fired
    } else {
        fired_after(events, ticks_fired(events, fired, nows.drop_last(), cutoff), nows.last(), cutoff, events.len())
    }
}

/// Everything those ticks send, tick after tick.
pub open spec fn ticks_sent(events: Seq<EventModel>, fired: Seq<Seq<char>>, nows: Seq<int>, cutoff: int) -> Seq<EventModel>
    decreases nows.len(),
{
    if nows.len() == 0 {
        Seq::empty()
    } else {
        ticks_sent(events, fired, nows.drop_last(), cutoff) + sent_after(
            events,
            ticks_fired(events, fired, nows.drop_last(), cutoff),
            nows.last(),
            cutoff,
            events.len(),
        )
    }
}

/// Nothing is sent twice over any run of ticks on one queue, whatever the
/// times: every reminder sent is sent once, none that was on record before
/// is sent again, and the record is what it was plus what was sent.
pub proof fn lemma_ticks_send_once(events: Seq<EventModel>, fired: Seq<Seq<char>>, nows: Seq<int>, cutoff: int)
    ensures
        ticks_fired(events, fired, nows, cutoff) == fired + ticks_sent(events, fired, nows, cutoff).map_values(
            |e: EventModel| e.1,
        ),
        forall|i: int, j: int|
            0 <= i < j < ticks_sent(events, fired, nows, cutoff).len() ==> (#[trigger] ticks_sent(
                events,
                fired,
                nows,
                cutoff,
            )[i]).1 != (#[trigger] ticks_sent(events, fired, nows, cutoff)[j]).1,
        forall|i: int|
            0 <= i < ticks_sent(events, fired, nows, cutoff).len() ==> !fired.contains(
                (#[trigger] ticks_sent(events, fired, nows, cutoff)[i]).1,
            ),
    decreases nows.len(),
{
    if nows.len() == 0 {
        assert(fired + Seq::<EventModel>::empty().map_values(|e: EventModel| e.1) =~= fired);
    } else {
        let prev = nows.drop_last();
        lemma_ticks_send_once(events, fired, prev, cutoff);
        let f = ticks_fired(events, fired, prev, cutoff);
        let s = ticks_sent(events, fired, prev, cutoff);
        let t = sent_after(events, f, nows.last(), cutoff, events.len());
        lemma_tick_sends_once(events, f, nows.last(), cutoff, events.len());
        let all = ticks_sent(events, fired, nows, cutoff);
        assert(all == s + t);
        let key = |e: EventModel| e.1;
        assert((s + t).map_values(key) =~= s.map_values(key) + t.map_values(key));
        assert(ticks_fired(events, fired, nows, cutoff) =~= fired + all.map_values(key));
        assert forall|i: int| 0 <= i < s.len() implies f.contains(#[trigger] s[i].1) by {
            assert(f[fired.len() + i] == s.map_values(key)[i]);
        }
        assert forall|i: int| 0 <= i < fired.len() implies f.contains(#[trigger] fired[i]) by {
            assert(f[i] == fired[i]);
        }
        assert forall|i: int, j: int| 0 <= i < j < all.len() implies (#[trigger] all[i]).1 != (#[trigger] all[j]).1 by {
            if j < s.len() {
                assert(all[i] == s[i] && all[j] == s[j]);
            } else if i < s.len() {
                assert(all[i] == s[i] && all[j] == t[j - s.len()]);
                assert(f.contains(s[i].1));
            } else {
                assert(all[i] == t[i - s.len()] && all[j] == t[j - s.len()]);
            }
        }
        assert forall|i: int| 0 <= i < all.len() implies !fired.contains((#[trigger] all[i]).1) by {
            if i < s.len() {
                assert(all[i] == s[i]);
            } else {
                assert(all[i] == t[i - s.len()]);
                if fired.contains(t[i - s.len()].1) {
                    let k = choose|k: int| 0 <= k < fired.len() && fired[k] == t[i - s.len()].1;
                    assert(f.contains(fired[k]));
                }
            }
        }
    }
}

/// A notifier as plain values: its moments, its queue, the keys on record
/// as sent, and when it was armed (milliseconds).
pub struct NotifierModel {
    pub moments: Seq<(Seq<char>, Moment)>,
    pub events: Seq<EventModel>,
    pub fired: Seq<Seq<char>>,
    pub armed: Option<int>,
}

pub open spec fn model_of(n: MomentNotifier) -> NotifierModel {
    NotifierModel {
        moments: moments_view(n.moments@),
        events: events_view(n.events@),
        fired: keys_view(n.fired@),
        armed: match n.armed_at {
            Some(a) => Some(a.millis as int),
            None => None,
        },
    }
}

/// One call on a notifier: arming with these moments at `now`, after which
/// the queue is `events` (kept or rebuilt, whichever the settings call
/// for); or a tick at `now` with reminders switched on or off.
pub enum Step {
    Arm(Seq<(Seq<char>, Moment)>, Seq<EventModel>, int),
    Tick(int, bool),
}

/// The notifier after one call: arming keeps the record while the moments
/// stay, and clears it when they change; a tick of an armed, enabled
/// notifier records what it sends.
pub open spec fn step_state(m: NotifierModel, s: Step) -> NotifierModel {
    match s {
        Step::Arm(ms, evs, now) => NotifierModel {
            moments: ms,
            events: evs,
            fired: if ms == m.moments { m.fired } else { Seq::empty() },
            armed: Some(now),
        },
        Step::Tick(now, enabled) => match m.armed {
            Some(a) => if enabled {
                NotifierModel {
                    fired: fired_after(m.events, m.fired, now, a - GRACE_MILLIS, m.events.len()),
                    ..m
                }
            } else {
                m
            },
            None => m,
        },
    }
}

/// The keys one call sends.
pub open spec fn step_sent(m: NotifierModel, s: Step) -> Seq<Seq<char>> {
    match s {
        Step::Arm(..) => Seq::empty(),
        Step::Tick(now, enabled) => match m.armed {
            Some(a) => if enabled {
                sent_after(m.events, m.fired, now, a - GRACE_MILLIS, m.events.len()).map_values(|e: EventModel| e.1)
            } else {
                Seq::empty()
            },
            None => Seq::empty(),
        },
    }
}

/// A history of calls from `m0`: the notifier at the end, the record as it
/// stood when the moments last changed (or at the start), and the keys sent
/// since then, in order.
pub open spec fn run(m0: NotifierModel, steps: Seq<Step>) -> (NotifierModel, Seq<Seq<char>>, Seq<Seq<char>>)
    decreases steps.len(),
{
    if steps.len() == 0 {
        (m0, m0.fired, Seq::empty())
    } else {
        let prev = run(m0, steps.drop_last());
        let m = prev.0;
        let s = steps.last();
        let next = step_state(m, s);
        match s {
            Step::Arm(ms, _, _) => if ms != m.moments {
                (next, Seq::empty(), Seq::empty())
            } else {
                (next, prev.1, prev.2)
            },
            Step::Tick(..) => (next, prev.1, prev.2 + step_sent(m, s)),
        }
    }
}

/// Nothing is sent twice, over any history of arming and ticking: since the
/// moments last changed, every key sent is sent once, none was on record
/// at that change, and the record is that record plus what was sent.
/// Dragging the window or reloading the configuration only re-arms with
/// the same moments, which keeps the record.
pub proof fn lemma_history_sends_once(m0: NotifierModel, steps: Seq<Step>)
    ensures
        run(m0, steps).0.fired == run(m0, steps).1 + run(m0, steps).2,
        forall|i: int, j: int|
            0 <= i < j < run(m0, steps).2.len() ==> #[trigger] run(m0, steps).2[i] != #[trigger] run(m0, steps).2[j],
        forall|i: int| 0 <= i < run(m0, steps).2.len() ==> !run(m0, steps).1.contains(#[trigger] run(m0, steps).2[i]),
    decreases steps.len(),
{
    if steps.len() == 0 {
        assert(m0.fired + Seq::<Seq<char>>::empty() =~= m0.fired);
    } else {
        lemma_history_sends_once(m0, steps.drop_last());
        let prev = run(m0, steps.drop_last());
        let m = prev.0;
        let base = prev.1;
        let sent = prev.2;
        match steps.last() {
            Step::Arm(ms, evs, now) => {
                if ms != m.moments {
                    assert(Seq::<Seq<char>>::empty() + Seq::<Seq<char>>::empty() =~= Seq::<Seq<char>>::empty());
                }
            },
            Step::Tick(now, enabled) => {
                let s = steps.last();
                let t = step_sent(m, s);
                assert(run(m0, steps) == (step_state(m, s), base, sent + t));
                match m.armed {
                    Some(a) => {
                        if enabled {
                            let cutoff = a - GRACE_MILLIS;
                            let ev = m.events;
                            lemma_tick_sends_once(ev, m.fired, now, cutoff, ev.len());
                            let te = sent_after(ev, m.fired, now, cutoff, ev.len());
                            assert(t == te.map_values(|e: EventModel| e.1));
                            assert(step_state(m, s).fired == m.fired + t);
                            assert(m.fired + t =~= base + (sent + t));
                            assert forall|i: int| 0 <= i < sent.len() implies m.fired.contains(#[trigger] sent[i]) by {
                                assert(m.fired[base.len() + i] == sent[i]);
                            }
                            assert forall|i: int| 0 <= i < base.len() implies m.fired.contains(#[trigger] base[i]) by {
                                assert(m.fired[i] == base[i]);
                            }
                            let all = sent + t;
                            assert forall|i: int, j: int| 0 <= i < j < all.len() implies #[trigger] all[i] != #[trigger] all[j] by {
                                if j >= sent.len() {
                                    assert(all[j] == te[j - sent.len()].1);
                                    assert(!m.fired.contains(te[j - sent.len()].1));
                                    if i < sent.len() {
                                        assert(all[i] == sent[i]);
                                    } else {
                                        assert(all[i] == te[i - sent.len()].1);
                                    }
                                } else {
                                    assert(all[i] == sent[i] && all[j] == sent[j]);
                                }
                            }
                            assert forall|i: int| 0 <= i < all.len() implies !base.contains(#[trigger] all[i]) by {
                                if i >= sent.len() {
                                    assert(all[i] == te[i - sent.len()].1);
                                    assert(!m.fired.contains(te[i - sent.len()].1));
                                    if base.contains(all[i]) {
                                        let k = choose|k: int| 0 <= k < base.len() && base[k] == all[i];
                                        assert(m.fired.contains(base[k]));
                                    }
                                } else {
                                    assert(all[i] == sent[i]);
                                }
                            }
                        } else {
                            assert(sent + t =~= sent);
                        }
                    },
                    None => {
                        assert(sent + t =~= sent);
                    },
                }
            },
        }
    }
}

proof fn lemma_pending_unrecorded(events: Seq<EventModel>, now: int, e: EventModel)
    ensures
        pending(events, Seq::empty(), now).contains(e) <==> (events.contains(e) && e.0 >= now),
    decreases events.len(),
{
    if events.len() > 0 {
        let d = events.drop_last();
        lemma_pending_unrecorded(d, now, e);
        let r = pending(d, Seq::empty(), now);
        assert(!Seq::<Seq<char>>::empty().contains(events.last().1));
        assert(events =~= d.push(events.last()));
        if events.contains(e) && e.0 >= now && !d.contains(e) {
            let k = choose|k: int| 0 <= k < events.len() && events[k] == e;
            if k < d.len() {
                assert(d[k] == e);
            }
            assert(e == events.last());
            assert(r.push(e)[r.len() as int] == e);
        }
        if d.contains(e) {
            let k = choose|k: int| 0 <= k < d.len() && d[k] == e;
            assert(events[k] == e);
        }
        if pending(events, Seq::empty(), now).contains(e) && !r.contains(e) {
            let k = choose|k: int| 0 <= k < pending(events, Seq::empty(), now).len() && pending(events, Seq::empty(), now)[k] == e;
            assert(events[events.len() - 1] == events.last());
        }
        if r.contains(e) {
            let k = choose|k: int| 0 <= k < r.len() && r[k] == e;
            assert(r.push(events.last())[k] == e);
        }
    }
}

/// Re-arming: with the same moments and the queue kept (the reminder
/// settings unchanged), every list of pending reminders and the sent record
/// stay as they were, so what was sent stays sent; with new moments the
/// record is cleared, and every reminder of the rebuilt queue that fires at
/// or after `t` is pending.
pub proof fn lemma_rearm(m: NotifierModel, moments: Seq<(Seq<char>, Moment)>, events: Seq<EventModel>, now: int, t: int)
    ensures
        moments == m.moments && events == m.events ==> {
            let after = step_state(m, Step::Arm(moments, events, now));
            &&& after.fired == m.fired
            &&& pending(after.events, after.fired, t) == pending(m.events, m.fired, t)
        },
        moments != m.moments ==> {
            let after = step_state(m, Step::Arm(moments, events, now));
            &&& after.fired.len() == 0
            &&& forall|e: EventModel| #[trigger] pending(after.events, after.fired, t).contains(e) <==> (events.contains(e) && e.0 >= t)
        },
{
    if moments != m.moments {
        assert forall|e: EventModel| #[trigger] pending(events, Seq::<Seq<char>>::empty(), t).contains(e) <==> (events.contains(e) && e.0 >= t) by {
            lemma_pending_unrecorded(events, t, e);
        }
    }
}

/// A second tick at the same moment sends nothing: every reminder that was
/// due is on record after the first.
pub proof fn lemma_tick_again_is_silent(
    events: Seq<EventModel>,
    fired: Seq<Seq<char>>,
    now: int,
    cutoff: int,
)
    ensures
        sent_after(
            events,
            fired_after(events, fired, now, cutoff, events.len()),
            now,
            cutoff,
            events.len(),
        ).len() == 0,
{
    let f1 = fired_after(events, fired, now, cutoff, events.len());
    lemma_tick_sends_once(events, fired, now, cutoff, events.len());
    lemma_nothing_new(events, f1, now, cutoff, events.len());
}

proof fn lemma_nothing_new(events: Seq<EventModel>, f1: Seq<Seq<char>>, now: int, cutoff: int, n: nat)
    requires
        n <= events.len(),
        forall|k: int| 0 <= k < events.len() && due(#[trigger] events[k], now, cutoff) ==> f1.contains(events[k].1),
    ensures
        sent_after(events, f1, now, cutoff, n).len() == 0,
        fired_after(events, f1, now, cutoff, n) == f1,
    decreases n,
{
    if n > 0 {
        lemma_nothing_new(events, f1, now, cutoff, (n - 1) as nat);
        let e = events[n - 1];
        if due(e, now, cutoff) {
            assert(f1.contains(e.1));
        }
    }
}

/// (key, title, body) of a notice.
pub open spec fn notice_view(n: Notice) -> (Seq<char>, Seq<char>, Seq<char>) {
    (n.key@, n.title@, n.body@)
}

/// The reminders not fired yet that fire at or after `now`, in queue order.
pub open spec fn pending(events: Seq<EventModel>, fired: Seq<Seq<char>>, now: int) -> Seq<EventModel>
    decreases events.len(),
{
    if events.len() == 0 {
        Seq::empty()
    } else {
        let r = pending(events.drop_last(), fired, now);
        let e = events.last();
        if !fired.contains(e.1) && e.0 >= now {
            r.push(e)
        } else {
            r
        }
    }
}

/// Seconds of grace before the arming time: reminders older than that are
/// never sent.
pub const GRACE_MILLIS: i64 = 1000;

impl MomentNotifier {
    pub fn new(config: NotifyConfig) -> (r: MomentNotifier)
        ensures
            r.config == config,
            r.moments@.len() == 0,
            r.events@.len() == 0,
            r.fired@.len() == 0,
            r.armed_at is None,
            schedule_view(r.built_from) == schedule_view(config),
    {
        let built_from = copy_schedule(&config);
        MomentNotifier {
            config,
            moments: Vec::new(),
            events: Vec::new(),
            fired: Vec::new(),
            armed_at: None,
            built_from,
        }
    }

    /// Whether [`MomentNotifier::arm`] with these moments rebuilds the queue.
    pub fn needs_rebuild(&self, moments: &Vec<(String, Moment)>) -> (r: bool)
        ensures
            r == rebuilds(*self, moments@),
    {
        !same_moments(moments, &self.moments) || !same_schedule(&self.config, &self.built_from)
    }

    /// Whether [`MomentNotifier::arm`] can schedule these moments: every
    /// reminder lands inside the calendar.
    pub fn can_arm(&self, moments: &Vec<(String, Moment)>) -> (r: bool)
        ensures
            r == arm_fits(self.config, moments@),
    {
        let mut j: usize = 0;
        while j < moments.len()
            invariant
                j <= moments.len(),
                forall|q: int| 0 <= q < j ==> {
                    &&& (#[trigger] moments@[q]).1.wf()
                    &&& forall|x: i64|
                        self.config.before@.contains(x) && x > 0 ==> x <= OFFSET_MAX && MIN_MILLIS
                            <= moments@[q].1.millis - x * 1000
                    &&& forall|x: i64|
                        self.config.after@.contains(x) && x > 0 ==> x <= OFFSET_MAX
                            && moments@[q].1.millis + x * 1000 <= MAX_MILLIS
                },
            decreases moments.len() - j,
        {
            let m = moments[j].1;
            if !(MIN_MILLIS <= m.millis && m.millis <= MAX_MILLIS) {
                return false;
            }
            let mut i: usize = 0;
            while i < self.config.before.len()
                invariant
                    i <= self.config.before.len(),
                    m.wf(),
                    j < moments.len(),
                    m == moments@[j as int].1,
                    forall|q: int| 0 <= q < i ==> (#[trigger] self.config.before@[q]) > 0 ==> self.config.before@[q] <= OFFSET_MAX
                        && MIN_MILLIS <= m.millis - self.config.before@[q] * 1000,
                decreases self.config.before.len() - i,
            {
                let x = self.config.before[i];
                if x > 0 && (x > OFFSET_MAX || m.millis - MIN_MILLIS < x * 1000) {
                    assert(self.config.before@[i as int] == x);
                    assert(self.config.before@.contains(x));
                    assert(moments@[j as int].1 == m);
                    assert(!arm_fits(self.config, moments@));
                    return false;
                }
                i = i + 1;
            }
            let mut i: usize = 0;
            while i < self.config.after.len()
                invariant
                    i <= self.config.after.len(),
                    m.wf(),
                    j < moments.len(),
                    m == moments@[j as int].1,
                    forall|q: int| 0 <= q < i ==> (#[trigger] self.config.after@[q]) > 0 ==> self.config.after@[q] <= OFFSET_MAX
                        && m.millis + self.config.after@[q] * 1000 <= MAX_MILLIS,
                decreases self.config.after.len() - i,
            {
                let x = self.config.after[i];
                if x > 0 && (x > OFFSET_MAX || MAX_MILLIS - m.millis < x * 1000) {
                    assert(self.config.after@[i as int] == x);
                    assert(self.config.after@.contains(x));
                    assert(moments@[j as int].1 == m);
                    assert(!arm_fits(self.config, moments@));
                    return false;
                }
                i = i + 1;
            }
            j = j + 1;
        }
        true
    }

    /// The configuration, for updating it in place.
    pub fn config_mut(&mut self) -> (r: &mut NotifyConfig)
        ensures
            *r == old(self).config,
            final(self).config == *final(r),
            final(self).moments == old(self).moments,
            final(self).events == old(self).events,
            final(self).fired == old(self).fired,
            final(self).armed_at == old(self).armed_at,
            final(self).built_from == old(self).built_from,
    {
        &mut self.config
    }

    /// (Re)arm. When neither the moments nor the reminder settings changed,
    /// the queue is kept. Otherwise it is rebuilt from the configuration;
    /// the sent records are kept while the moments stay the same, so the same
    /// reminder never pops up twice, and cleared when the moments change.
    #[verifier::spinoff_prover]
    #[verifier::rlimit(60)]
    pub fn arm(&mut self, moments: Vec<(String, Moment)>, now: Moment)
        requires
            rebuilds(*old(self), moments@) ==> arm_fits(old(self).config, moments@),
        ensures
            final(self).armed_at == Some(now),
            final(self).config == old(self).config,
            schedule_view(final(self).built_from) == schedule_view(old(self).config),
            !rebuilds(*old(self), moments@) ==> {
                &&& final(self).moments == old(self).moments
                &&& final(self).events == old(self).events
            },
            rebuilds(*old(self), moments@) ==> {
                &&& moments_view(final(self).moments@) == moments_view(moments@)
                &&& events_view(final(self).events@) == sort_by_time(
                    all_events(old(self).config, moments_view(moments@)),
                )
            },
            moments_view(moments@) == moments_view(old(self).moments@) ==> final(self).fired == old(self).fired,
            moments_view(moments@) != moments_view(old(self).moments@) ==> final(self).fired@.len() == 0,
            model_of(*final(self)) == step_state(
                model_of(*old(self)),
                Step::Arm(moments_view(moments@), events_view(final(self).events@), now.millis as int),
            ),
    {
        let unchanged = same_moments(&moments, &self.moments);
        if unchanged && same_schedule(&self.config, &self.built_from) {
            self.armed_at = Some(now);
            assert(model_of(*self) == step_state(
                model_of(*old(self)),
                Step::Arm(moments_view(moments@), events_view(self.events@), now.millis as int),
            ));
            return;
        }
        let ghost cfg = self.config;
        let ghost mv = moments_view(moments@);
        let leads = schedule_of(&self.config.before);
        let trails = schedule_of(&self.config.after);
        proof {
            lemma_schedule(cfg.before@);
            lemma_schedule(cfg.after@);
        }
        let mut events: Vec<Event> = Vec::new();
        let ghost mut generated: Seq<EventModel> = Seq::empty();
        let mut j: usize = 0;
        assert(mv.take(0) =~= Seq::<(Seq<char>, Moment)>::empty());
        while j < moments.len()
            invariant
                j <= moments.len(),
                cfg == self.config,
                mv == moments_view(moments@),
                arm_fits(cfg, moments@),
                leads@ == schedule(cfg.before@),
                trails@ == schedule(cfg.after@),
                strictly_ascending(schedule(cfg.before@)),
                strictly_ascending(schedule(cfg.after@)),
                forall|x: i64| schedule(cfg.before@).contains(x) <==> (cfg.before@.contains(x) && x > 0),
                forall|x: i64| schedule(cfg.after@).contains(x) <==> (cfg.after@.contains(x) && x > 0),
                generated == all_events(cfg, mv.take(j as int)),
                events_view(events@) == sort_by_time(generated),
            decreases moments.len() - j,
        {
            let label = &moments[j].0;
            let m = moments[j].1;
            assert(moments@[j as int].1.wf());
            let ghost base = generated;
            let ghost lv = label@;
            let mut q: usize = 0;
            while q < leads.len()
                invariant
                    q <= leads.len(),
                    j < moments.len(),
                    cfg == self.config,
                    m == moments@[j as int].1,
                    lv == label@,
                    m.wf(),
                    arm_fits(cfg, moments@),
                    leads@ == schedule(cfg.before@),
                    forall|x: i64| schedule(cfg.before@).contains(x) <==> (cfg.before@.contains(x) && x > 0),
                    generated == base + leads@.take(q as int).map_values(
                        |lead: i64| reminder(cfg, lv, m, Side::Before, lead as int),
                    ),
                    events_view(events@) == sort_by_time(generated),
                decreases leads.len() - q,
            {
                let lead = leads[q];
                assert(schedule(cfg.before@).contains(lead));
                assert(moments@[j as int].1 == m && cfg.before@.contains(lead));
                let e = make_reminder(&self.config, label, m, Side::Before, lead);
                let ghost ev = event_view(e);
                insert_by_fire_time(&mut events, e);
                proof {
                    assert(generated.push(ev).drop_last() =~= generated);
                    generated = generated.push(ev);
                    assert(leads@.take(q + 1).map_values(|lead: i64| reminder(cfg, lv, m, Side::Before, lead as int))
                        =~= leads@.take(q as int).map_values(|lead: i64| reminder(cfg, lv, m, Side::Before, lead as int)).push(ev));
                }
                q = q + 1;
            }
            let ghost with_leads = generated;
            if self.config.at_moment {
                let e = make_reminder(&self.config, label, m, Side::At, 0);
                let ghost ev = event_view(e);
                insert_by_fire_time(&mut events, e);
                proof {
                    assert(generated.push(ev).drop_last() =~= generated);
                    generated = generated.push(ev);
                }
            }
            let ghost with_at = generated;
            let mut q: usize = 0;
            while q < trails.len()
                invariant
                    q <= trails.len(),
                    j < moments.len(),
                    cfg == self.config,
                    m == moments@[j as int].1,
                    lv == label@,
                    m.wf(),
                    arm_fits(cfg, moments@),
                    trails@ == schedule(cfg.after@),
                    forall|x: i64| schedule(cfg.after@).contains(x) <==> (cfg.after@.contains(x) && x > 0),
                    generated == with_at + trails@.take(q as int).map_values(
                        |trail: i64| reminder(cfg, lv, m, Side::After, trail as int),
                    ),
                    events_view(events@) == sort_by_time(generated),
                decreases trails.len() - q,
            {
                let trail = trails[q];
                assert(schedule(cfg.after@).contains(trail));
                assert(moments@[j as int].1 == m && cfg.after@.contains(trail));
                let e = make_reminder(&self.config, label, m, Side::After, trail);
                let ghost ev = event_view(e);
                insert_by_fire_time(&mut events, e);
                proof {
                    assert(generated.push(ev).drop_last() =~= generated);
                    generated = generated.push(ev);
                    assert(trails@.take(q + 1).map_values(|trail: i64| reminder(cfg, lv, m, Side::After, trail as int))
                        =~= trails@.take(q as int).map_values(|trail: i64| reminder(cfg, lv, m, Side::After, trail as int)).push(ev));
                }
                q = q + 1;
            }
            proof {
                assert(leads@.take(leads.len() as int) =~= leads@);
                assert(trails@.take(trails.len() as int) =~= trails@);
                assert(mv[j as int] == (lv, m));
                assert(generated =~= base + moment_events(cfg, lv, m));
                assert(mv.take(j + 1).drop_last() =~= mv.take(j as int));
            }
            j = j + 1;
        }
        assert(mv.take(moments.len() as int) =~= mv);
        self.moments = moments;
        if !unchanged {
            self.fired = Vec::new();
        }
        self.armed_at = Some(now);
        self.events = events;
        self.built_from = copy_schedule(&self.config);
        proof {
            if !unchanged {
                assert(keys_view(self.fired@) =~= Seq::<Seq<char>>::empty());
            }
            assert(model_of(*self) == step_state(
                model_of(*old(self)),
                Step::Arm(moments_view(moments@), events_view(self.events@), now.millis as int),
            ));
        }
    }

    /// The reminders that are due at `now` and became due no earlier than a
    /// second before arming, each at most once; they are marked as sent.
    pub fn tick(&mut self, now: Moment) -> (sent: Vec<Notice>)
        ensures
            final(self).config == old(self).config,
            final(self).built_from == old(self).built_from,
            final(self).moments == old(self).moments,
            final(self).events == old(self).events,
            final(self).armed_at == old(self).armed_at,
            !old(self).config.enabled || old(self).armed_at is None ==> sent@.len() == 0
                && final(self).fired == old(self).fired,
            old(self).config.enabled && old(self).armed_at is Some ==> {
                let cutoff = old(self).armed_at->0.millis - GRACE_MILLIS;
                let ev = events_view(old(self).events@);
                &&& keys_view(final(self).fired@) == fired_after(
                    ev,
                    keys_view(old(self).fired@),
                    now.millis as int,
                    cutoff,
                    ev.len(),
                )
                &&& sent@.map_values(|n: Notice| notice_view(n)) == sent_after(
                    ev,
                    keys_view(old(self).fired@),
                    now.millis as int,
                    cutoff,
                    ev.len(),
                ).map_values(|e: EventModel| (e.1, e.3, e.4))
            },
            model_of(*final(self)) == step_state(model_of(*old(self)), Step::Tick(now.millis as int, old(self).config.enabled)),
            sent@.map_values(|n: Notice| n.key@) == step_sent(
                model_of(*old(self)),
                Step::Tick(now.millis as int, old(self).config.enabled),
            ),
            forall|i: int|
                0 <= i < sent@.len() ==> ((#[trigger] sent@[i]).sound is Some) == old(self).config.sound,
            forall|i: int|
                0 <= i < sent@.len() ==> ((#[trigger] sent@[i]).sound matches Some(s) ==> s@
                    == old(self).config.sound_name@),
    {
        let mut sent: Vec<Notice> = Vec::new();
        assert(sent@.map_values(|n: Notice| n.key@) =~= Seq::<Seq<char>>::empty());
        if !self.config.enabled {
            return sent;
        }
        let armed = match self.armed_at {
            Some(armed) => armed,
            None => return sent,
        };
        let cutoff = armed.millis as i128 - GRACE_MILLIS as i128;
        let ghost ev = events_view(self.events@);
        let ghost f0 = keys_view(self.fired@);
        let mut i: usize = 0;
        while i < self.events.len()
            invariant
                i <= self.events.len(),
                ev == events_view(self.events@),
                cutoff == armed.millis - GRACE_MILLIS,
                self.config == old(self).config,
                self.events == old(self).events,
                self.moments == old(self).moments,
                self.built_from == old(self).built_from,
                self.armed_at == old(self).armed_at,
                self.armed_at == Some(armed),
                self.config.enabled,
                f0 == keys_view(old(self).fired@),
                keys_view(self.fired@) == fired_after(ev, f0, now.millis as int, cutoff as int, i as nat),
                sent@.map_values(|n: Notice| notice_view(n)) == sent_after(ev, f0, now.millis as int, cutoff as int, i as nat).map_values(
                    |e: EventModel| (e.1, e.3, e.4),
                ),
                forall|k: int| 0 <= k < sent@.len() ==> ((#[trigger] sent@[k]).sound is Some) == self.config.sound,
                forall|k: int| 0 <= k < sent@.len() ==> ((#[trigger] sent@[k]).sound matches Some(s) ==> s@ == self.config.sound_name@),
            decreases self.events.len() - i,
        {
            let event = &self.events[i];
            assert(ev[i as int] == event_view(*event));
            let seen = contains_key(&self.fired, &event.key);
            let fire = event.fire_at.millis;
            let ghost before_sent = sent@.map_values(|n: Notice| notice_view(n));
            if !seen && now.millis >= fire && fire as i128 >= cutoff {
                let key = event.key.clone();
                let title = event.title.clone();
                let body = event.body.clone();
                let k2 = event.key.clone();
                self.fired.push(key);
                let sound = if self.config.sound { Some(self.config.sound_name.clone()) } else { None };
                sent.push(Notice { key: k2, title, body, sound });
                proof {
                    assert(keys_view(self.fired@) =~= fired_after(ev, f0, now.millis as int, cutoff as int, i as nat).push(ev[i as int].1));
                    assert(sent@.map_values(|n: Notice| notice_view(n)) =~= before_sent.push((ev[i as int].1, ev[i as int].3, ev[i as int].4)));
                    assert(sent_after(ev, f0, now.millis as int, cutoff as int, (i + 1) as nat).map_values(|e: EventModel| (e.1, e.3, e.4))
                        =~= sent_after(ev, f0, now.millis as int, cutoff as int, i as nat).map_values(|e: EventModel| (e.1, e.3, e.4)).push((ev[i as int].1, ev[i as int].3, ev[i as int].4)));
                }
            }
            i = i + 1;
        }
        proof {
            let c = sent_after(ev, f0, now.millis as int, cutoff as int, ev.len()).map_values(|e: EventModel| (e.1, e.3, e.4));
            let b = sent_after(ev, f0, now.millis as int, cutoff as int, ev.len()).map_values(|e: EventModel| e.1);
            let a = sent@.map_values(|n: Notice| n.key@);
            assert(sent@.map_values(|n: Notice| notice_view(n)) == c);
            assert forall|k: int| 0 <= k < a.len() implies a[k] == b[k] by {
                assert(sent@.map_values(|n: Notice| notice_view(n))[k] == c[k]);
            }
            assert(a =~= b);
            assert(keys_view(self.fired@) == fired_after(ev, f0, now.millis as int, cutoff as int, ev.len()));
            assert(model_of(*self) == step_state(model_of(*old(self)), Step::Tick(now.millis as int, old(self).config.enabled)));
        }
        sent
    }

    /// The next few reminders that have not fired yet and fire at or after
    /// `now`, for the `--print` preview: (fire time, label, title).
    pub fn upcoming(&self, now: Moment, limit: usize) -> (r: Vec<(Moment, String, String)>)
        ensures
            r@.map_values(|t: (Moment, String, String)| (t.0.millis as int, t.1@, t.2@)) == pending(
                events_view(self.events@),
                keys_view(self.fired@),
                now.millis as int,
            ).take(
                if pending(events_view(self.events@), keys_view(self.fired@), now.millis as int).len()
                    < limit {
                    pending(events_view(self.events@), keys_view(self.fired@), now.millis as int).len() as int
                } else {
                    limit as int
                },
            ).map_values(|e: EventModel| (e.0, e.2, e.3)),
    {
        let ghost ev = events_view(self.events@);
        let ghost fk = keys_view(self.fired@);
        let mut r: Vec<(Moment, String, String)> = Vec::new();
        let mut i: usize = 0;
        assert(ev.take(0) =~= Seq::<EventModel>::empty());
        while i < self.events.len()
            invariant
                i <= self.events.len(),
                ev == events_view(self.events@),
                fk == keys_view(self.fired@),
                r@.map_values(|t: (Moment, String, String)| (t.0.millis as int, t.1@, t.2@)) == pending(
                    ev.take(i as int),
                    fk,
                    now.millis as int,
                ).take(
                    if pending(ev.take(i as int), fk, now.millis as int).len() < limit {
                        pending(ev.take(i as int), fk, now.millis as int).len() as int
                    } else {
                        limit as int
                    },
                ).map_values(|e: EventModel| (e.0, e.2, e.3)),
            decreases self.events.len() - i,
        {
            let event = &self.events[i];
            assert(ev[i as int] == event_view(*event));
            assert(ev.take(i + 1).drop_last() =~= ev.take(i as int));
            let ghost p0 = pending(ev.take(i as int), fk, now.millis as int);
            let ghost before = r@.map_values(|t: (Moment, String, String)| (t.0.millis as int, t.1@, t.2@));
            let seen = contains_key(&self.fired, &event.key);
            if !seen && event.fire_at.millis >= now.millis {
                if r.len() < limit {
                    r.push((event.fire_at, event.label.clone(), event.title.clone()));
                    proof {
                        let p1 = p0.push(ev[i as int]);
                        assert(r@.map_values(|t: (Moment, String, String)| (t.0.millis as int, t.1@, t.2@))
                            =~= before.push((ev[i as int].0, ev[i as int].2, ev[i as int].3)));
                        assert(p1.take(p1.len() as int) =~= p1);
                        assert(p0.take(p0.len() as int) =~= p0);
                    }
                } else {
                    proof {
                        let p1 = p0.push(ev[i as int]);
                        assert(before.len() == r@.len());
                        assert(p0.len() >= limit);
                        assert(p1.take(limit as int) =~= p0.take(limit as int));
                    }
                }
            }
            i = i + 1;
        }
        assert(ev.take(self.events.len() as int) =~= ev);
        r
    }
}


/// Whether `key` is among the sent keys.
fn contains_key(fired: &Vec<String>, key: &String) -> (r: bool)
    ensures
        r == keys_view(fired@).contains(key@),
{
    let mut i: usize = 0;
    while i < fired.len()
        invariant
            i <= fired.len(),
            forall|q: int| 0 <= q < i ==> fired@[q]@ != key@,
        decreases fired.len() - i,
    {
        if fired[i] == *key {
            assert(keys_view(fired@)[i as int] == key@);
            return true;
        }
        i = i + 1;
    }
    assert(!keys_view(fired@).contains(key@)) by {
        if keys_view(fired@).contains(key@) {
            let q = choose|q: int| 0 <= q < keys_view(fired@).len() && keys_view(fired@)[q] == key@;
            assert(fired@[q]@ == key@);
        }
    }
    false
}

/// Whether two lists of (label, moment) pairs are the same.
/// A copy of the settings a queue is built from.
fn copy_schedule(c: &NotifyConfig) -> (r: NotifyConfig)
    ensures
        schedule_view(r) == schedule_view(*c),
{
    let before = c.before.clone();
    let after = c.after.clone();
    assert(before@ =~= c.before@);
    assert(after@ =~= c.after@);
    NotifyConfig {
        enabled: c.enabled,
        before,
        after,
        at_moment: c.at_moment,
        sound: c.sound,
        sound_name: c.sound_name.clone(),
        title_template: c.title_template.clone(),
        body_before: c.body_before.clone(),
        body_at: c.body_at.clone(),
        body_after: c.body_after.clone(),
    }
}

fn same_numbers(a: &Vec<i64>, b: &Vec<i64>) -> (r: bool)
    ensures
        r == (a@ == b@),
{
    if a.len() != b.len() {
        return false;
    }
    let mut i: usize = 0;
    while i < a.len()
        invariant
            i <= a.len() == b.len(),
            forall|q: int| 0 <= q < i ==> a@[q] == b@[q],
        decreases a.len() - i,
    {
        if a[i] != b[i] {
            return false;
        }
        i = i + 1;
    }
    assert(a@ =~= b@);
    true
}

fn same_text(a: &String, b: &String) -> (r: bool)
    ensures
        r == (a@ == b@),
{
    same(&chars_of(a.as_str()), &chars_of(b.as_str()))
}

/// Whether two configurations build the same queue.
fn same_schedule(a: &NotifyConfig, b: &NotifyConfig) -> (r: bool)
    ensures
        r == (schedule_view(*a) == schedule_view(*b)),
{
    same_numbers(&a.before, &b.before) && same_numbers(&a.after, &b.after) && a.at_moment == b.at_moment
        && same_text(&a.title_template, &b.title_template) && same_text(&a.body_before, &b.body_before)
        && same_text(&a.body_at, &b.body_at) && same_text(&a.body_after, &b.body_after)
}

fn same_moments(a: &Vec<(String, Moment)>, b: &Vec<(String, Moment)>) -> (r: bool)
    ensures
        r == (moments_view(a@) == moments_view(b@)),
{
    if a.len() != b.len() {
        assert(moments_view(a@).len() != moments_view(b@).len());
        return false;
    }
    let mut i: usize = 0;
    while i < a.len()
        invariant
            i <= a.len() == b.len(),
            forall|q: int| 0 <= q < i ==> moments_view(a@)[q] == moments_view(b@)[q],
        decreases a.len() - i,
    {
        if a[i].0 != b[i].0 || a[i].1.millis != b[i].1.millis {
            assert(moments_view(a@)[i as int] != moments_view(b@)[i as int]);
            return false;
        }
        i = i + 1;
    }
    assert(moments_view(a@) =~= moments_view(b@));
    true
}

} // verus!
