//! Time parsing and T± formatting.

use vstd::prelude::*;
use crate::moment::{
    DAY_MILLIS, MAX_MILLIS, MIN_MILLIS, Moment, format_moment, formatted, month_of, parse_date, date_text, time_text,
    parse_datetime, parsed_date, parsed_datetime, year_month, year_of,
};
use crate::chars::{
    copy_range, dashes, dashes_range, decimal, decimal_int, is_alpha, push_decimal, push_int, replace, replace_all, matches_at,
    chars_of, same, lower_range, skip_space, trim_bounds, quote_debug, push_all,
    Class, all_digits, debug_quoted, digits_capped, digits_value, in_class, is_digit,
    lemma_digits_value_bound, lemma_prefix_len, lemma_trim_start_shorter, lower_seq, pad2,
    pow10, prefix_len, push_pad2, run_end, string_of, trim, trim_start, trim_end, digit_char, digit_value, is_space,
};

verus! {

/// `HH:MM:SS`, or `DD:HH:MM:SS` beyond a day when days are shown; negative
/// input counts as zero.
pub open spec fn hms_text(total_seconds: int, show_days: bool) -> Seq<char> {
    let s: nat = if total_seconds < 0 { 0 } else { total_seconds as nat };
    let days = s / 86400;
    let rest = s % 86400;
    let hours = rest / 3600;
    let minutes = (rest % 3600) / 60;
    let secs = rest % 60;
    if days > 0 && show_days {
        pad2(days) + seq![':'] + pad2(hours) + seq![':'] + pad2(minutes) + seq![':'] + pad2(secs)
    } else {
        pad2(days * 24 + hours) + seq![':'] + pad2(minutes) + seq![':'] + pad2(secs)
    }
}

/// Zero-padded fixed-width time string: `HH:MM:SS`, or `DD:HH:MM:SS` beyond a day.
pub fn format_hms(total_seconds: i64, show_days: bool) -> (text: String)
    ensures
        text@ == hms_text(total_seconds as int, show_days),
{
    let seconds: u64 = if total_seconds < 0 { 0 } else { total_seconds as u64 };
    let days = seconds / 86400;
    let rest = seconds % 86400;
    let hours = rest / 3600;
    let minutes = (rest % 3600) / 60;
    let secs = rest % 60;
    let mut out: Vec<char> = Vec::new();
    if days > 0 && show_days {
        push_pad2(&mut out, days);
        out.push(':');
        push_pad2(&mut out, hours);
    } else {
        push_pad2(&mut out, days * 24 + hours);
    }
    out.push(':');
    push_pad2(&mut out, minutes);
    out.push(':');
    push_pad2(&mut out, secs);
    proof {
        assert(out@ == hms_text(total_seconds as int, show_days));
    }
    string_of(&out)
}


// ---------------------------------------------------------------------------
// Durations
// ---------------------------------------------------------------------------

/// Numerals are scaled by 10^18 so that up to eighteen fractional digits
/// stay exact.
pub open spec fn atto() -> nat {
    1_000_000_000_000_000_000
}

/// The digits before the first `.` of a numeral.
pub open spec fn numeral_int(s: Seq<char>) -> Seq<char> {
    s.take(prefix_len(s, Class::NotDot) as int)
}

/// The digits after the first `.` of a numeral (empty without a `.`).
pub open spec fn numeral_frac(s: Seq<char>) -> Seq<char> {
    let d = prefix_len(s, Class::NotDot) as int;
    if d < s.len() {
        s.skip(d + 1)
    } else {
        Seq::empty()
    }
}

/// The shapes `f64::from_str` accepts for digits and dots: at most one `.`
/// and at least one digit.
pub open spec fn numeral_shape(s: Seq<char>) -> bool {
    &&& all_digits(numeral_int(s))
    &&& all_digits(numeral_frac(s))
    &&& numeral_int(s).len() + numeral_frac(s).len() >= 1
}

/// The first eighteen digits after the `.`; later ones are dropped (an
/// `f64` keeps fewer still).
pub open spec fn numeral_frac18(s: Seq<char>) -> Seq<char> {
    if numeral_frac(s).len() <= 18 {
        numeral_frac(s)
    } else {
        numeral_frac(s).take(18)
    }
}

/// The value of a numeral times 10^18, fractional digits past the
/// eighteenth dropped.
pub open spec fn numeral_scaled(s: Seq<char>) -> nat {
    digits_value(numeral_int(s)) * atto() + digits_value(numeral_frac18(s)) * pow10(
        (18 - numeral_frac18(s).len()) as nat,
    )
}

/// Seconds in one of the unit words of the `1d2h3m4s` form (0: not a unit).
pub open spec fn unit_seconds(w: Seq<char>) -> nat {
    if w == "d"@ || w == "day"@ || w == "days"@ {
        86400
    } else if w == "h"@ || w == "hr"@ || w == "hrs"@ || w == "hour"@ || w == "hours"@ {
        3600
    } else if w == "m"@ || w == "min"@ || w == "mins"@ || w == "minute"@ || w == "minutes"@ {
        60
    } else if w == "s"@ || w == "sec"@ || w == "secs"@ || w == "second"@ || w == "seconds"@ {
        1
    } else {
        0
    }
}

/// The sum of the terms of the unit form `1d 2h 3m 4s`, in milliseconds
/// times 10^18; `rest` starts at a numeral.
pub open spec fn units_scaled(rest: Seq<char>) -> Option<nat>
    decreases rest.len(),
{
    if rest.len() == 0 {
        Some(0)
    } else {
        let d = prefix_len(rest, Class::Number) as int;
        let num = rest.take(d);
        let tail = trim_start(rest.skip(d));
        let u = prefix_len(tail, Class::Letter) as int;
        let scale = unit_seconds(lower_seq(tail.take(u)));
        if d == 0 || !numeral_shape(num) || scale == 0 {
            None
        } else {
            proof {
                lemma_prefix_len(rest, Class::Number);
                lemma_trim_start_shorter(rest.skip(d));
                lemma_prefix_len(tail, Class::Letter);
                lemma_trim_start_shorter(tail.skip(u));
            }
            match units_scaled(trim_start(tail.skip(u))) {
                Some(t) => Some(numeral_scaled(num) * scale * 1000 + t),
                None => None,
            }
        }
    }
}

/// `text.split(':')`.
pub open spec fn split_colons(s: Seq<char>) -> Seq<Seq<char>>
    decreases s.len(),
{
    let i = prefix_len(s, Class::NotColon) as int;
    if i >= s.len() {
        seq![s]
    } else {
        proof {
            lemma_prefix_len(s, Class::NotColon);
        }
        seq![s.take(i)] + split_colons(s.skip(i + 1))
    }
}

/// The value of the `k`-th field counted from the right (0 = seconds).
pub open spec fn colon_field(parts: Seq<Seq<char>>, k: int) -> nat {
    if k < parts.len() {
        digits_value(trim(parts[parts.len() - 1 - k]))
    } else {
        0
    }
}

/// `SS` / `MM:SS` / `HH:MM:SS` / `DD:HH:MM:SS`, in seconds.
pub open spec fn colon_seconds(body: Seq<char>) -> Option<nat> {
    let parts = split_colons(body);
    if parts.len() <= 4 && (forall|j: int|
        0 <= j < parts.len() ==> trim(#[trigger] parts[j]).len() > 0 && all_digits(trim(parts[j]))) {
        Some(
            colon_field(parts, 0) + colon_field(parts, 1) * 60 + colon_field(parts, 2) * 3600
                + colon_field(parts, 3) * 86400,
        )
    } else {
        None
    }
}

/// A leading `-` marks a negative duration; a leading `+` is dropped.
pub open spec fn sign_split(t: Seq<char>) -> (bool, Seq<char>) {
    if t.len() > 0 && t[0] == '-' {
        (true, t.drop_first())
    } else if t.len() > 0 && t[0] == '+' {
        (false, t.drop_first())
    } else {
        (false, t)
    }
}

pub open spec fn signed(negative: bool, v: nat) -> int {
    if negative {
        -v
    } else {
        v as int
    }
}

/// Rounding a value scaled by 10^18 to the nearest integer, halves away from zero.
pub open spec fn round_scaled(a: nat) -> nat {
    (a + 500_000_000_000_000_000) / atto()
}

/// The plain-number form: an optional sign, then digits with at most one `.`.
pub open spec fn plain_number(t: Seq<char>) -> bool {
    sign_split(t).1.len() > 0 && numeral_shape(sign_split(t).1)
}

/// The size, in milliseconds, of the duration a trimmed non-empty text
/// denotes, rounded to the nearest millisecond (halves away from zero).
pub open spec fn duration_magnitude(t: Seq<char>) -> Option<nat> {
    let body = sign_split(t).1;
    if plain_number(t) {
        if numeral_shape(body) {
            Some(round_scaled(numeral_scaled(body) * 1000))
        } else {
            None
        }
    } else if t.contains(':') {
        match colon_seconds(body) {
            Some(v) => Some(v * 1000),
            None => None,
        }
    } else if trim(body).len() == 0 {
        None
    } else {
        match units_scaled(trim(body)) {
            Some(a) => Some(round_scaled(a)),
            None => None,
        }
    }
}

/// The duration a text denotes, in milliseconds, or `None` when it is not a
/// duration.
///
/// Forms: empty (zero), a plain number of seconds (`30`, `-1.5`), the colon
/// form (`-00:05:00`, `5:00`, `1:00:00:00`) and the unit form (`1h30m`,
/// `2 hours`, `-10m`); a leading `-` negates, a leading `+` is ignored.
pub open spec fn duration_millis(text: Seq<char>) -> Option<int> {
    let t = trim(text);
    if t.len() == 0 {
        Some(0)
    } else {
        match duration_magnitude(t) {
            Some(m) => Some(signed(sign_split(t).0, m)),
            None => None,
        }
    }
}

proof fn lemma_digit_char(d: nat)
    requires
        d < 10,
    ensures
        is_digit(digit_char(d)),
        digit_value(digit_char(d)) == d,
{
}

proof fn lemma_decimal_digits(n: nat)
    ensures
        decimal(n).len() >= 1,
        all_digits(decimal(n)),
        digits_value(decimal(n)) == n,
    decreases n,
{
    if n < 10 {
        lemma_digit_char(n);
        let d = seq![digit_char(n)];
        assert(d.drop_last() =~= Seq::<char>::empty());
        assert(digits_value(d) == digits_value(d.drop_last()) * 10 + digit_value(d.last()));
    } else {
        lemma_decimal_digits(n / 10);
        lemma_digit_char(n % 10);
        let d = decimal(n);
        assert(d.drop_last() =~= decimal(n / 10));
        assert(d.last() == digit_char(n % 10));
        assert(digits_value(d) == digits_value(d.drop_last()) * 10 + digit_value(d.last()));
        assert(n == (n / 10) * 10 + n % 10);
        assert forall|i: int| 0 <= i < d.len() implies is_digit(#[trigger] d[i]) by {
            if i < d.len() - 1 {
                assert(d[i] == decimal(n / 10)[i]);
            }
        }
    }
}

proof fn lemma_pad2_digits(n: nat)
    ensures
        pad2(n).len() >= 1,
        all_digits(pad2(n)),
        digits_value(pad2(n)) == n,
        !pad2(n).contains(':'),
        !is_space(pad2(n)[0]),
        !is_space(pad2(n).last()),
        pad2(n)[0] != '-' && pad2(n)[0] != '+',
        trim(pad2(n)) == pad2(n),
{
    if n < 10 {
        lemma_digit_char(n);
        let p = seq!['0', digit_char(n)];
        assert(p.drop_last() =~= seq!['0']);
        assert(seq!['0'].drop_last() =~= Seq::<char>::empty());
        assert(digit_value('0') == 0);
        assert(digits_value(seq!['0']) == digits_value(seq!['0'].drop_last()) * 10 + digit_value('0'));
        assert(digits_value(seq!['0']) == 0);
        assert(digits_value(p) == digits_value(p.drop_last()) * 10 + digit_value(p.last()));
        assert(is_digit(p[0]) && is_digit(p[1]));
    } else {
        lemma_decimal_digits(n);
    }
    let p = pad2(n);
    assert(is_digit(p[0]));
    assert(is_digit(p[p.len() - 1]));
    assert(!p.contains(':')) by {
        if p.contains(':') {
            let i = choose|i: int| 0 <= i < p.len() && p[i] == ':';
            assert(is_digit(p[i]));
        }
    }
    assert(trim_start(p) == p);
    assert(trim_end(p) == p);
}

proof fn lemma_prefix_stops(x: Seq<char>, c: char, y: Seq<char>, k: Class)
    requires
        forall|i: int| 0 <= i < x.len() ==> in_class(#[trigger] x[i], k),
        !in_class(c, k),
    ensures
        prefix_len(x + seq![c] + y, k) == x.len(),
    decreases x.len(),
{
    let s = x + seq![c] + y;
    if x.len() > 0 {
        assert(s[0] == x[0]);
        assert(s.drop_first() =~= x.drop_first() + seq![c] + y);
        assert forall|i: int| 0 <= i < x.drop_first().len() implies in_class(#[trigger] x.drop_first()[i], k) by {
            assert(x.drop_first()[i] == x[i + 1]);
        }
        lemma_prefix_stops(x.drop_first(), c, y, k);
    } else {
        assert(s[0] == c);
    }
}

proof fn lemma_prefix_all(x: Seq<char>, k: Class)
    requires
        forall|i: int| 0 <= i < x.len() ==> in_class(#[trigger] x[i], k),
    ensures
        prefix_len(x, k) == x.len(),
    decreases x.len(),
{
    if x.len() > 0 {
        assert forall|i: int| 0 <= i < x.drop_first().len() implies in_class(#[trigger] x.drop_first()[i], k) by {
            assert(x.drop_first()[i] == x[i + 1]);
        }
        lemma_prefix_all(x.drop_first(), k);
    }
}

/// `split_colons` of a field without a colon, followed by `:` and more.
proof fn lemma_split_field(x: Seq<char>, y: Seq<char>)
    requires
        !x.contains(':'),
    ensures
        split_colons(x + seq![':'] + y) == seq![x] + split_colons(y),
        split_colons(x) == seq![x],
{
    assert forall|i: int| 0 <= i < x.len() implies in_class(#[trigger] x[i], Class::NotColon) by {
        if x[i] == ':' {
            assert(x.contains(':'));
        }
    }
    lemma_prefix_stops(x, ':', y, Class::NotColon);
    lemma_prefix_all(x, Class::NotColon);
    let s = x + seq![':'] + y;
    assert(s.take(x.len() as int) =~= x);
    assert(s.skip(x.len() as int + 1) =~= y);
}

pub open spec fn clock_chars(x: Seq<char>) -> bool {
    forall|i: int| 0 <= i < x.len() ==> is_digit(#[trigger] x[i]) || x[i] == ':'
}

proof fn lemma_clock_chars_concat(a: Seq<char>, b: Seq<char>)
    requires
        clock_chars(a),
        clock_chars(b),
    ensures
        clock_chars(a + b),
{
    assert forall|i: int| 0 <= i < (a + b).len() implies is_digit(#[trigger] (a + b)[i]) || (a + b)[i] == ':' by {
        if i < a.len() {
            assert((a + b)[i] == a[i]);
        } else {
            assert((a + b)[i] == b[i - a.len()]);
        }
    }
}

/// The fields of the text [`format_hms`] writes add up to the seconds.
#[verifier::spinoff_prover]
proof fn lemma_hms_fields(s: nat, show_days: bool)
    ensures
        colon_seconds(hms_text(s as int, show_days)) == Some(s),
{
    let days = s / 86400;
    let rest = s % 86400;
    let hours = rest / 3600;
    let minutes = (rest % 3600) / 60;
    let secs = rest % 60;
    let t = hms_text(s as int, show_days);
    lemma_pad2_digits(days);
    lemma_pad2_digits(hours);
    lemma_pad2_digits(minutes);
    lemma_pad2_digits(secs);
    lemma_pad2_digits(days * 24 + hours);
    let four = days > 0 && show_days;
    let first = if four { pad2(days) } else { pad2(days * 24 + hours) };
    let tail3 = pad2(minutes) + seq![':'] + pad2(secs);
    let tail = if four { pad2(hours) + seq![':'] + tail3 } else { tail3 };
    assert(t =~= first + seq![':'] + tail);
    lemma_split_field(pad2(minutes), pad2(secs));
    lemma_split_field(pad2(secs), Seq::empty());
    lemma_split_field(pad2(hours), tail3);
    lemma_split_field(first, tail);
    let parts = split_colons(t);
    if four {
        assert(parts =~= seq![pad2(days), pad2(hours), pad2(minutes), pad2(secs)]);
    } else {
        assert(parts =~= seq![pad2(days * 24 + hours), pad2(minutes), pad2(secs)]);
    }
    assert forall|j: int| 0 <= j < parts.len() implies trim(#[trigger] parts[j]).len() > 0 && all_digits(trim(parts[j])) by {}
    assert(s == days * 86400 + hours * 3600 + minutes * 60 + secs) by (nonlinear_arith)
        requires
            days == s / 86400,
            rest == s % 86400,
            hours == rest / 3600,
            minutes == (rest % 3600) / 60,
            secs == rest % 60,
    ;
}

/// The text [`format_hms`] writes: digits and colons only, with a colon,
/// starting and ending in a digit.
#[verifier::spinoff_prover]
proof fn lemma_hms_shape(s: nat, show_days: bool)
    ensures
        clock_chars(hms_text(s as int, show_days)),
        hms_text(s as int, show_days).contains(':'),
        hms_text(s as int, show_days).len() > 0,
        is_digit(hms_text(s as int, show_days)[0]),
        is_digit(hms_text(s as int, show_days).last()),
{
    let days = s / 86400;
    let rest = s % 86400;
    let hours = rest / 3600;
    let minutes = (rest % 3600) / 60;
    let secs = rest % 60;
    let t = hms_text(s as int, show_days);
    lemma_pad2_digits(days);
    lemma_pad2_digits(hours);
    lemma_pad2_digits(minutes);
    lemma_pad2_digits(secs);
    lemma_pad2_digits(days * 24 + hours);
    let colon = seq![':'];
    assert(clock_chars(colon));
    assert(clock_chars(pad2(days)));
    assert(clock_chars(pad2(hours)));
    assert(clock_chars(pad2(minutes)));
    assert(clock_chars(pad2(secs)));
    assert(clock_chars(pad2(days * 24 + hours)));
    let four = days > 0 && show_days;
    let first = if four { pad2(days) } else { pad2(days * 24 + hours) };
    let tail3 = pad2(minutes) + colon + pad2(secs);
    lemma_clock_chars_concat(pad2(minutes), colon);
    lemma_clock_chars_concat(pad2(minutes) + colon, pad2(secs));
    let tail = if four { pad2(hours) + colon + tail3 } else { tail3 };
    if four {
        lemma_clock_chars_concat(pad2(hours), colon);
        lemma_clock_chars_concat(pad2(hours) + colon, tail3);
    }
    lemma_clock_chars_concat(first, colon);
    lemma_clock_chars_concat(first + colon, tail);
    assert(t =~= first + colon + tail);
    assert(t[first.len() as int] == ':');
    assert(t[0] == first[0]);
    assert(t.last() == pad2(secs).last());
}

/// The colon text [`format_hms`] writes reads back as the seconds written:
/// `HH:MM:SS` and `DD:HH:MM:SS` (hours past 23 included) denote exactly
/// `total_seconds` seconds, so [`parse_duration`] gives them back in
/// milliseconds.
pub proof fn lemma_hms_reads_back(total_seconds: nat, show_days: bool)
    ensures
        duration_millis(hms_text(total_seconds as int, show_days)) == Some((total_seconds * 1000) as int),
{
    let t = hms_text(total_seconds as int, show_days);
    lemma_hms_fields(total_seconds, show_days);
    lemma_hms_shape(total_seconds, show_days);
    assert(!is_space(t[0]));
    assert(!is_space(t.last()));
    assert(trim_start(t) == t);
    assert(trim_end(t) == t);
    assert(trim(t) == t);
    assert(sign_split(t) == (false, t));
    let c = choose|i: int| 0 <= i < t.len() && t[i] == ':';
    assert(!plain_number(t)) by {
        assert forall|i: int| 0 <= i < t.len() implies in_class(#[trigger] t[i], Class::NotDot) by {
            assert(is_digit(t[i]) || t[i] == ':');
        }
        lemma_prefix_all(t, Class::NotDot);
        assert(numeral_int(t) =~= t);
        assert(!is_digit(t[c]));
    }
}

/// The message of a refused duration.
pub open spec fn duration_error(text: Seq<char>) -> Seq<char> {
    let t = trim(text);
    if duration_millis(text) is Some {
        "duration out of range: "@ + debug_quoted(t)
    } else if !plain_number(t) && t.contains(':') {
        "unrecognized duration: "@ + debug_quoted(t)
    } else {
        "unrecognized duration: "@ + debug_quoted(t) + " (examples: -00:05:00 / 1h30m / 90)"@
    }
}

/// What has been added up so far: a whole number of milliseconds and a
/// fraction in units of 10^-18 ms, or the knowledge that the sum is too large.
struct Tally {
    whole: u128,
    frac: u128,
    over: bool,
}

spec fn two64() -> nat {
    0x1_0000_0000_0000_0000
}

/// The integer parts are capped at 10^20 while parsing; anything above
/// overflows every millisecond count anyway.
spec fn int_cap() -> nat {
    100_000_000_000_000_000_000
}

spec fn tally_models(t: Tally, exact: nat) -> bool {
    &&& !t.over ==> t.whole * atto() + t.frac == exact && t.frac < atto() && t.whole <= two64()
    &&& t.over ==> exact >= two64() * atto()
}

/// Add a term `(int + frac_scaled / 10^18) * ms_per_unit` to the tally.
fn add_term(
    t: &mut Tally,
    int_capped: u128,
    frac_scaled: u128,
    ms_per_unit: u128,
    Ghost(exact): Ghost<nat>,
    Ghost(int_real): Ghost<nat>,
)
    requires
        tally_models(*old(t), exact),
        int_real <= int_cap() ==> int_capped == int_real,
        int_real > int_cap() ==> int_capped == int_cap() + 1,
        frac_scaled < atto(),
        1 <= ms_per_unit <= 86_400_000,
    ensures
        tally_models(*final(t), (exact + (int_real * atto() + frac_scaled) * ms_per_unit) as nat),
{
    let ghost term = (int_real * atto() + frac_scaled) * ms_per_unit;
    let ghost a = atto();
    let ghost m = ms_per_unit as nat;
    let ghost f = frac_scaled as nat;
    if t.over {
        t.over = true;
        return;
    }
    if int_capped > 100_000_000_000_000_000_000 {
        assert(int_real * a * m + f * m >= 100_000_000_000_000_000_001 * a) by (nonlinear_arith)
            requires
                int_real >= 100_000_000_000_000_000_001,
                m >= 1,
                a >= 1,
        ;
        assert(term == int_real * a * m + f * m) by (nonlinear_arith)
            requires
                term == (int_real * a + f) * m,
        ;
        t.over = true;
        return;
    }
    let e: u128 = 1_000_000_000_000_000_000;
    assert(frac_scaled * ms_per_unit <= 1_000_000_000_000_000_000 * 86_400_000) by (nonlinear_arith)
        requires
            frac_scaled < 1_000_000_000_000_000_000,
            ms_per_unit <= 86_400_000,
    ;
    assert(int_capped * ms_per_unit <= 100_000_000_000_000_000_000 * 86_400_000) by (nonlinear_arith)
        requires
            int_capped <= 100_000_000_000_000_000_000,
            ms_per_unit <= 86_400_000,
    ;
    let scaled = frac_scaled * ms_per_unit;
    let q = scaled / e;
    let r = scaled % e;
    let old_whole = t.whole;
    let old_frac = t.frac;
    let mut whole = t.whole + int_capped * ms_per_unit + q;
    let mut frac = t.frac + r;
    assert(whole * atto() + frac == exact + term) by (nonlinear_arith)
        requires
            old_whole * atto() + old_frac == exact,
            term == (int_capped * atto() + frac_scaled) * ms_per_unit,
            scaled == frac_scaled * ms_per_unit,
            scaled == q * atto() + r,
            whole == old_whole + int_capped * ms_per_unit + q,
            frac == old_frac + r,
    ;
    if frac >= e {
        frac = frac - e;
        whole = whole + 1;
    }
    t.whole = whole;
    t.frac = frac;
    if whole > 0x1_0000_0000_0000_0000 {
        assert(exact + term >= two64() * atto()) by (nonlinear_arith)
            requires
                whole * atto() + frac == exact + term,
                whole > two64(),
        ;
        t.over = true;
    }
}

/// Whether the numeral `v[lo..hi]` has the accepted shape.
fn numeral_check(v: &Vec<char>, lo: usize, hi: usize) -> (r: bool)
    requires
        lo <= hi <= v.len(),
    ensures
        r == numeral_shape(v@.subrange(lo as int, hi as int)),
{
    let ghost s = v@.subrange(lo as int, hi as int);
    let d = run_end(v, lo, hi, Class::NotDot);
    proof {
        lemma_prefix_len(s, Class::NotDot);
    }
    assert(numeral_int(s) =~= v@.subrange(lo as int, d as int));
    let int_end = run_end(v, lo, d, Class::Digit);
    proof {
        lemma_prefix_len(v@.subrange(lo as int, d as int), Class::Digit);
    }
    let int_ok = int_end == d;
    let mut frac_ok = true;
    let mut frac_len: usize = 0;
    if d < hi {
        assert(numeral_frac(s) =~= v@.subrange(d + 1, hi as int));
        let frac_end = run_end(v, d + 1, hi, Class::Digit);
        proof {
            lemma_prefix_len(v@.subrange(d + 1, hi as int), Class::Digit);
        }
        frac_ok = frac_end == hi;
        frac_len = hi - (d + 1);
    } else {
        assert(numeral_frac(s) =~= Seq::<char>::empty());
    }
    int_ok && frac_ok && (d - lo) + frac_len >= 1
}

/// The integer part (capped) and the fraction scaled by 10^18 of a numeral.
fn numeral_eval(v: &Vec<char>, lo: usize, hi: usize) -> (r: (u128, u128))
    requires
        lo <= hi <= v.len(),
        numeral_shape(v@.subrange(lo as int, hi as int)),
    ensures
        digits_value(numeral_int(v@.subrange(lo as int, hi as int))) <= int_cap() ==> r.0
            == digits_value(numeral_int(v@.subrange(lo as int, hi as int))),
        digits_value(numeral_int(v@.subrange(lo as int, hi as int))) > int_cap() ==> r.0 == int_cap()
            + 1,
        r.1 == digits_value(numeral_frac18(v@.subrange(lo as int, hi as int))) * pow10(
            (18 - numeral_frac18(v@.subrange(lo as int, hi as int)).len()) as nat,
        ),
        r.1 < atto(),
{
    let ghost s = v@.subrange(lo as int, hi as int);
    let d = run_end(v, lo, hi, Class::NotDot);
    proof {
        lemma_prefix_len(s, Class::NotDot);
    }
    assert(numeral_int(s) =~= v@.subrange(lo as int, d as int));
    let int_part = digits_capped(v, lo, d, 100_000_000_000_000_000_000);
    if d < hi {
        assert(numeral_frac(s) =~= v@.subrange(d + 1, hi as int));
        let fe = if hi - (d + 1) > 18 { d + 19 } else { hi };
        assert(numeral_frac18(s) =~= v@.subrange(d + 1, fe as int));
        assert(all_digits(numeral_frac18(s))) by {
            assert forall|i: int| 0 <= i < numeral_frac18(s).len() implies is_digit(#[trigger] numeral_frac18(s)[i]) by {
                assert(numeral_frac18(s)[i] == numeral_frac(s)[i]);
            }
        }
        let k = fe - (d + 1);
        assert(numeral_frac18(s).len() == k);
        let f = digits_capped(v, d + 1, fe, 1_000_000_000_000_000_000);
        proof {
            lemma_digits_value_bound(numeral_frac18(s));
            lemma_pow10_mono(k as nat, 18);
            lemma_pow10_18();
        }
        let mut p: u128 = 1;
        let mut j = k;
        while j < 18
            invariant
                k <= j <= 18,
                p == pow10((j - k) as nat),
            decreases 18 - j,
        {
            proof {
                lemma_pow10_mono((j - k) as nat, 17);
                lemma_pow10_18();
                reveal_with_fuel(pow10, 2);
                lemma_pow10_mono(17, 18);
                assert(pow10(((j + 1) - k) as nat) == 10 * pow10((j - k) as nat));
            }
            p = p * 10;
            j = j + 1;
        }
        proof {
            lemma_pow10_split(k as nat, (18 - k) as nat);
            lemma_pow10_18();
            lemma_pow10_positive((18 - k) as nat);
            assert(f * p < pow10(k as nat) * p) by (nonlinear_arith)
                requires
                    f < pow10(k as nat),
                    p >= 1,
            ;
        }
        let scaled = f * p;
        assert(f == digits_value(numeral_frac18(s)));
        assert(p == pow10((18 - numeral_frac18(s).len()) as nat));
        assert(scaled == digits_value(numeral_frac18(s)) * pow10((18 - numeral_frac18(s).len()) as nat));
        (int_part, scaled)
    } else {
        assert(numeral_frac(s) =~= Seq::<char>::empty());
        assert(numeral_frac18(s) =~= Seq::<char>::empty());
        assert(digits_value(numeral_frac18(s)) == 0);
        proof {
            lemma_pow10_18();
        }
        (int_part, 0)
    }
}

pub proof fn lemma_pow10_18()
    ensures
        pow10(18) == atto(),
{
    reveal_with_fuel(pow10, 19);
}

pub proof fn lemma_pow10_positive(n: nat)
    ensures
        pow10(n) >= 1,
    decreases n,
{
    if n > 0 {
        lemma_pow10_positive((n - 1) as nat);
    }
}

pub proof fn lemma_pow10_mono(a: nat, b: nat)
    requires
        a <= b,
    ensures
        pow10(a) <= pow10(b),
    decreases b,
{
    lemma_pow10_positive(b);
    if a < b {
        lemma_pow10_mono(a, (b - 1) as nat);
    }
}

pub proof fn lemma_pow10_split(a: nat, b: nat)
    ensures
        pow10(a + b) == pow10(a) * pow10(b),
    decreases a,
{
    if a > 0 {
        let c = (a - 1) as nat;
        lemma_pow10_split(c, b);
        let x = pow10(c);
        let y = pow10(b);
        assert(c + b == (a + b - 1) as nat);
        assert(pow10(a + b) == 10 * pow10(c + b));
        assert(pow10(a) == 10 * x);
        assert(10 * (x * y) == (10 * x) * y) by (nonlinear_arith);
        assert(pow10(a + b) == pow10(a) * pow10(b));
    } else {
        assert(pow10(0) == 1);
        assert(a + b == b);
    }
}


/// Seconds in a lower-cased unit word (0 when it is not one).
fn unit_scale(word: &Vec<char>) -> (r: u64)
    ensures
        r == unit_seconds(word@),
{
    if same(word, &chars_of("d")) || same(word, &chars_of("day")) || same(word, &chars_of("days")) {
        86400
    } else if same(word, &chars_of("h")) || same(word, &chars_of("hr")) || same(word, &chars_of("hrs"))
        || same(word, &chars_of("hour")) || same(word, &chars_of("hours")) {
        3600
    } else if same(word, &chars_of("m")) || same(word, &chars_of("min")) || same(
        word,
        &chars_of("mins"),
    ) || same(word, &chars_of("minute")) || same(word, &chars_of("minutes")) {
        60
    } else if same(word, &chars_of("s")) || same(word, &chars_of("sec")) || same(
        word,
        &chars_of("secs"),
    ) || same(word, &chars_of("second")) || same(word, &chars_of("seconds")) {
        1
    } else {
        0
    }
}

/// Add up the unit form `v[lo..hi]` (which starts at a numeral).
fn units_tally(v: &Vec<char>, lo: usize, hi: usize) -> (r: Option<Tally>)
    requires
        lo <= hi <= v.len(),
    ensures
        r is None <==> units_scaled(v@.subrange(lo as int, hi as int)) is None,
        r matches Some(t) ==> tally_models(t, units_scaled(v@.subrange(lo as int, hi as int))->0),
{
    let mut t = Tally { whole: 0, frac: 0, over: false };
    let ghost mut acc: nat = 0;
    let mut i = lo;
    while i < hi
        invariant
            lo <= i <= hi <= v.len(),
            tally_models(t, acc),
            units_scaled(v@.subrange(lo as int, hi as int)) == match units_scaled(
                v@.subrange(i as int, hi as int),
            ) {
                Some(x) => Some(acc + x),
                None => None,
            },
        decreases hi - i,
    {
        let ghost rest = v@.subrange(i as int, hi as int);
        let d = run_end(v, i, hi, Class::Number);
        if d == i {
            return None;
        }
        assert(rest.take(d - i) =~= v@.subrange(i as int, d as int));
        assert(rest.skip(d - i) =~= v@.subrange(d as int, hi as int));
        let ok = numeral_check(v, i, d);
        let t0 = skip_space(v, d, hi);
        let ghost tail = v@.subrange(t0 as int, hi as int);
        let u = run_end(v, t0, hi, Class::Letter);
        assert(tail.take(u - t0) =~= v@.subrange(t0 as int, u as int));
        assert(tail.skip(u - t0) =~= v@.subrange(u as int, hi as int));
        let word = lower_range(v, t0, u);
        let scale = unit_scale(&word);
        if !ok || scale == 0 {
            return None;
        }
        let ghost num = v@.subrange(i as int, d as int);
        let (int_part, frac_scaled) = numeral_eval(v, i, d);
        let ghost int_real = digits_value(numeral_int(num));
        let ghost term: nat = ((int_real * atto() + frac_scaled) * ((scale * 1000) as nat)) as nat;
        add_term(&mut t, int_part, frac_scaled as u128, (scale as u128) * 1000, Ghost(acc), Ghost(int_real));
        assert(term == numeral_scaled(num) * (scale as nat) * 1000) by (nonlinear_arith)
            requires
                term == (int_real * atto() + frac_scaled) * ((scale * 1000) as nat),
                numeral_scaled(num) == int_real * atto() + frac_scaled,
        ;
        proof {
            acc = (acc + term) as nat;
        }
        i = skip_space(v, u, hi);
    }
    assert(v@.subrange(i as int, hi as int) =~= Seq::<char>::empty());
    Some(t)
}

/// The pieces of `text.split(':')` as index ranges.
spec fn pieces(v: Seq<char>, starts: Seq<usize>, ends: Seq<usize>) -> Seq<Seq<char>> {
    Seq::new(starts.len(), |j: int| v.subrange(starts[j] as int, ends[j] as int))
}

/// The pieces of `v[lo..hi].split(':')`, as start and end indices.
fn split_colon_ranges(v: &Vec<char>, lo: usize, hi: usize) -> (r: (Vec<usize>, Vec<usize>))
    requires
        lo <= hi <= v.len(),
    ensures
        r.0.len() == r.1.len(),
        forall|j: int| 0 <= j < r.0.len() ==> lo <= #[trigger] r.0@[j] <= r.1@[j] <= hi,
        pieces(v@, r.0@, r.1@) == split_colons(v@.subrange(lo as int, hi as int)),
{
    let mut starts: Vec<usize> = Vec::new();
    let mut ends: Vec<usize> = Vec::new();
    let mut start = lo;
    let mut done = false;
    assert(pieces(v@, starts@, ends@) + split_colons(v@.subrange(start as int, hi as int)) =~= split_colons(v@.subrange(lo as int, hi as int)));
    while !done
        invariant
            lo <= start <= hi <= v.len(),
            starts.len() == ends.len(),
            forall|j: int| 0 <= j < starts.len() ==> lo <= #[trigger] starts@[j] <= ends@[j] <= hi,
            !done ==> pieces(v@, starts@, ends@) + split_colons(v@.subrange(start as int, hi as int))
                == split_colons(v@.subrange(lo as int, hi as int)),
            done ==> pieces(v@, starts@, ends@) == split_colons(v@.subrange(lo as int, hi as int)),
        decreases hi - start + (if done { 0int } else { 1int }),
    {
        let ghost old_pieces = pieces(v@, starts@, ends@);
        let ghost rest = v@.subrange(start as int, hi as int);
        let e = run_end(v, start, hi, Class::NotColon);
        proof {
            lemma_prefix_len(rest, Class::NotColon);
        }
        starts.push(start);
        ends.push(e);
        assert(pieces(v@, starts@, ends@) =~= old_pieces.push(v@.subrange(start as int, e as int)));
        if e >= hi {
            assert(rest =~= v@.subrange(start as int, e as int));
            assert(pieces(v@, starts@, ends@) =~= old_pieces + seq![rest]);
            done = true;
        } else {
            assert(rest.take(e - start) =~= v@.subrange(start as int, e as int));
            assert(rest.skip(e - start + 1) =~= v@.subrange(e + 1, hi as int));
            assert(pieces(v@, starts@, ends@) + split_colons(v@.subrange(e + 1, hi as int)) =~= old_pieces + split_colons(rest));
            start = e + 1;
        }
    }
    (starts, ends)
}

/// The colon form `v[lo..hi]` (sign removed): `None` when malformed, else the
/// seconds, exact when the flag is clear and known to be beyond 10^20
/// seconds when it is set.
#[verifier::spinoff_prover]
#[verifier::rlimit(30)]
fn colon_tally(v: &Vec<char>, lo: usize, hi: usize) -> (r: Option<(u128, bool)>)
    requires
        lo <= hi <= v.len(),
    ensures
        r is None <==> colon_seconds(v@.subrange(lo as int, hi as int)) is None,
        r matches Some((secs, over)) ==> {
            &&& !over ==> secs == colon_seconds(v@.subrange(lo as int, hi as int))->0
            &&& over ==> colon_seconds(v@.subrange(lo as int, hi as int))->0 > int_cap()
        },
{
    let (starts, ends) = split_colon_ranges(v, lo, hi);
    let ghost parts = split_colons(v@.subrange(lo as int, hi as int));
    let n = starts.len();
    if n > 4 {
        return None;
    }
    let mut fields: Vec<u128> = Vec::new();
    let mut over = false;
    let mut j: usize = 0;
    while j < n
        invariant
            n == starts.len() == ends.len() == parts.len() <= 4,
            parts == split_colons(v@.subrange(lo as int, hi as int)),
            j <= n,
            pieces(v@, starts@, ends@) == parts,
            forall|q: int| 0 <= q < starts.len() ==> lo <= #[trigger] starts@[q] <= ends@[q] <= hi <= v.len(),
            forall|q: int| 0 <= q < j ==> trim(#[trigger] parts[q]).len() > 0 && all_digits(trim(parts[q])),
            fields.len() == j,
            forall|q: int| 0 <= q < j ==> digits_value(trim(#[trigger] parts[q])) <= int_cap() ==> fields@[q] == digits_value(trim(parts[q])),
            forall|q: int| 0 <= q < j ==> digits_value(trim(#[trigger] parts[q])) > int_cap() ==> fields@[q] == int_cap() + 1,
        decreases n - j,
    {
        assert(parts[j as int] == v@.subrange(starts@[j as int] as int, ends@[j as int] as int));
        let (a, b) = trim_bounds(v, starts[j], ends[j]);
        let de = run_end(v, a, b, Class::Digit);
        proof {
            lemma_prefix_len(v@.subrange(a as int, b as int), Class::Digit);
        }
        if a == b || de != b {
            assert(!(trim(parts[j as int]).len() > 0 && all_digits(trim(parts[j as int])))) by {
                if a != b {
                    assert(!is_digit(v@.subrange(a as int, b as int)[de - a]));
                }
            }
            assert(!(forall|q: int|
                0 <= q < parts.len() ==> trim(#[trigger] parts[q]).len() > 0 && all_digits(trim(parts[q]))));
            assert(colon_seconds(v@.subrange(lo as int, hi as int)) is None);
            return None;
        }
        let f = digits_capped(v, a, b, 100_000_000_000_000_000_000);
        fields.push(f);
        j = j + 1;
    }
    assert(colon_seconds(v@.subrange(lo as int, hi as int)) is Some);
    let mut total: u128 = 0;
    let weights: [u128; 4] = [1, 60, 3600, 86400];
    let mut k: usize = 0;
    while k < n
        invariant
            n == fields.len() == parts.len() <= 4,
            parts == split_colons(v@.subrange(lo as int, hi as int)),
            k <= n,
            weights@ == seq![1u128, 60, 3600, 86400],
            forall|q: int| 0 <= q < n ==> digits_value(trim(#[trigger] parts[q])) <= int_cap() ==> fields@[q] == digits_value(trim(parts[q])),
            forall|q: int| 0 <= q < n ==> digits_value(trim(#[trigger] parts[q])) > int_cap() ==> fields@[q] == int_cap() + 1,
            !over ==> total == (if k > 0 { colon_field(parts, 0) } else { 0 }) + (if k > 1 { colon_field(parts, 1) * 60 } else { 0 })
                + (if k > 2 { colon_field(parts, 2) * 3600 } else { 0 }) + (if k > 3 { colon_field(parts, 3) * 86400 } else { 0 }),
            !over ==> total <= k * int_cap() * 86400,
            over ==> colon_seconds(v@.subrange(lo as int, hi as int))->0 > int_cap(),
            colon_seconds(v@.subrange(lo as int, hi as int)) == Some(
                colon_field(parts, 0) + colon_field(parts, 1) * 60 + colon_field(parts, 2) * 3600
                    + colon_field(parts, 3) * 86400,
            ),
        decreases n - k,
    {
        let f = fields[n - 1 - k];
        assert(colon_field(parts, k as int) == digits_value(trim(parts[n - 1 - k])));
        if f > 100_000_000_000_000_000_000 {
            assert(colon_field(parts, k as int) > int_cap());
            over = true;
        } else if !over {
            let w = weights[k];
            assert(f * w <= int_cap() * 86400) by (nonlinear_arith)
                requires
                    f <= int_cap(),
                    w <= 86400,
            ;
            assert(k * int_cap() * 86400 + int_cap() * 86400 == (k + 1) * int_cap() * 86400) by (nonlinear_arith);
            let ghost before = total;
            total = total + f * w;
            assert(total == before + colon_field(parts, k as int) * weights@[k as int]);
        }
        k = k + 1;
    }
    Some((total, over))
}

/// The magnitude of the trimmed, non-empty duration `v[a..b]`: `None` when
/// it is malformed; a flagged result is known to be at least 2^64 ms. The
/// second value tells whether the text took the colon form.
fn magnitude_of(v: &Vec<char>, a: usize, b: usize) -> (r: (Option<(u128, bool)>, bool))
    requires
        a < b <= v.len(),
    ensures
        r.0 is None <==> duration_magnitude(v@.subrange(a as int, b as int)) is None,
        r.0 is Some ==> !(r.0->0).1 ==> (r.0->0).0 == duration_magnitude(v@.subrange(a as int, b as int))->0,
        r.0 is Some ==> (r.0->0).0 <= 0x1_0000_0000_0000_0000_0000_0000,
        r.0 is Some ==> (r.0->0).1 ==> duration_magnitude(v@.subrange(a as int, b as int))->0 >= two64(),
        r.1 == (!plain_number(v@.subrange(a as int, b as int)) && v@.subrange(a as int, b as int).contains(':')),
{
    let ghost t = v@.subrange(a as int, b as int);
    let bs = if v[a] == '-' || v[a] == '+' { a + 1 } else { a };
    assert(sign_split(t).1 =~= v@.subrange(bs as int, b as int));
    let shape = numeral_check(v, bs, b);
    if bs < b && shape {
        let ghost body = v@.subrange(bs as int, b as int);
        let (ip, fs) = numeral_eval(v, bs, b);
        let mut tally = Tally { whole: 0, frac: 0, over: false };
        add_term(&mut tally, ip, fs, 1000, Ghost(0), Ghost(digits_value(numeral_int(body))));
        assert((digits_value(numeral_int(body)) * atto() + fs) * 1000 == numeral_scaled(body) * 1000);
        assert(plain_number(t));
        assert(duration_magnitude(t) == Some(round_scaled(numeral_scaled(body) * 1000)));
        return (Some(round_tally(&tally, Ghost(numeral_scaled(body) * 1000))), false);
    }
    let ce = run_end(v, a, b, Class::NotColon);
    proof {
        lemma_prefix_len(t, Class::NotColon);
    }
    if ce < b {
        assert(t.contains(':')) by {
            assert(t[ce - a] == ':');
        }
        let r = match colon_tally(v, bs, b) {
            None => None,
            Some((secs, over)) => {
                if over || secs > 100_000_000_000_000_000_000 {
                    Some((0, true))
                } else {
                    Some((secs * 1000, false))
                }
            },
        };
        return (r, true);
    }
    assert(!t.contains(':')) by {
        if t.contains(':') {
            let q = choose|q: int| 0 <= q < t.len() && t[q] == ':';
            assert(in_class(t[q], Class::NotColon));
        }
    }
    let (c, e) = trim_bounds(v, bs, b);
    if c == e {
        return (None, false);
    }
    assert(!plain_number(t));
    assert(trim(sign_split(t).1) == v@.subrange(c as int, e as int));
    assert(duration_magnitude(t) == match units_scaled(v@.subrange(c as int, e as int)) {
        Some(a) => Some(round_scaled(a)),
        None => None,
    });
    match units_tally(v, c, e) {
        None => (None, false),
        Some(tally) => (Some(round_tally(&tally, Ghost(units_scaled(v@.subrange(c as int, e as int))->0))), false),
    }
}

/// Parse a duration and return it in milliseconds. Supports `30` / `-30` /
/// `1.5` / `90s` / `5m` / `1h30m` / `1d2h` / `2 hours` / `00:05:00` / `5:00` /
/// `-00:05:00`; empty text is zero.
pub fn parse_duration(spec: &str) -> (r: Result<i64, String>)
    ensures
        r is Ok <==> (duration_millis(spec@) matches Some(v) && i64::MIN <= v <= i64::MAX),
        r matches Ok(ms) ==> duration_millis(spec@) == Some(ms as int),
        r matches Err(m) ==> m@ == duration_error(spec@),
{
    let v = chars_of(spec);
    let (a, b) = trim_bounds(&v, 0, v.len());
    assert(v@.subrange(0, v.len() as int) =~= spec@);
    if a == b {
        return Ok(0);
    }
    let negative = v[a] == '-';
    let ghost t = v@.subrange(a as int, b as int);
    assert(trim(spec@) == t);
    assert(sign_split(t).0 == negative);
    let (magnitude, colon_form) = magnitude_of(&v, a, b);
    let mut out_of_range = false;
    match magnitude {
        Some((m, over)) => {
            if !over {
                let value: i128 = if negative { -(m as i128) } else { m as i128 };
                if -0x8000_0000_0000_0000 <= value && value <= 0x7fff_ffff_ffff_ffff {
                    return Ok(value as i64);
                }
            }
            out_of_range = true;
        },
        None => {},
    }
    let mut message = if out_of_range {
        chars_of("duration out of range: ")
    } else {
        chars_of("unrecognized duration: ")
    };
    let trimmed = crate::chars::copy_range(&v, a, b);
    push_all(&mut message, &quote_debug(&trimmed));
    if !out_of_range && !colon_form {
        push_all(&mut message, &chars_of(" (examples: -00:05:00 / 1h30m / 90)"));
    }
    Err(string_of(&message))
}

/// Round a tally to whole milliseconds; the flag marks a sum beyond 2^64 ms.
fn round_tally(t: &Tally, Ghost(x): Ghost<nat>) -> (r: (u128, bool))
    requires
        tally_models(*t, x),
    ensures
        !r.1 ==> r.0 == round_scaled(x),
        r.0 <= 0x1_0000_0000_0000_0001,
        r.1 ==> round_scaled(x) >= two64(),
{
    if t.over {
        assert((x + 500_000_000_000_000_000) / 1_000_000_000_000_000_000 >= 0x1_0000_0000_0000_0000) by (nonlinear_arith)
            requires
                x >= 0x1_0000_0000_0000_0000 * 1_000_000_000_000_000_000,
        ;
        return (0, true);
    }
    let up: u128 = if t.frac >= 500_000_000_000_000_000 { 1 } else { 0 };
    let ghost w = t.whole as int;
    let ghost f = t.frac as int;
    assert((w * 1_000_000_000_000_000_000 + f + 500_000_000_000_000_000) / 1_000_000_000_000_000_000 == w + (if f >= 500_000_000_000_000_000 { 1int } else { 0 })) by (nonlinear_arith)
        requires
            0 <= f < 1_000_000_000_000_000_000,
            w >= 0,
    ;
    (t.whole + up, false)
}


// ---------------------------------------------------------------------------
// Clock and T± formatting
// ---------------------------------------------------------------------------

/// `HH:MM:SS` of the time of day of a moment.
pub open spec fn clock_text(m: Moment) -> Seq<char> {
    let s = (m.time_of_day() / 1000) as nat;
    pad2(s / 3600) + seq![':'] + pad2((s % 3600) / 60) + seq![':'] + pad2(s % 60)
}

/// The moment's HH:MM:SS (used in notifications and diagnostics).
pub fn clock_of(moment: Moment) -> (text: String)
    ensures
        text@ == clock_text(moment),
{
    let tod = moment.millis % DAY_MILLIS;
    let tod: i64 = if tod < 0 { tod + DAY_MILLIS } else { tod };
    assert(tod == moment.time_of_day());
    let s = (tod / 1000) as u64;
    let mut out: Vec<char> = Vec::new();
    push_pad2(&mut out, s / 3600);
    out.push(':');
    push_pad2(&mut out, (s % 3600) / 60);
    out.push(':');
    push_pad2(&mut out, s % 60);
    assert(out@ =~= clock_text(moment));
    string_of(&out)
}

/// The clock a moment is rendered with is its time of day: the `%H:%M:%S`
/// text is the moment's clock text, it reads back as the whole seconds of
/// the time of day, and the full date-time text is the date, a space and
/// that clock.
pub proof fn lemma_rendered_clock(m: Moment)
    ensures
        formatted(m.millis as int, "%H:%M:%S"@) == clock_text(m),
        duration_millis(formatted(m.millis as int, "%H:%M:%S"@)) == Some(
            (m.time_of_day() / 1000) * 1000,
        ),
        formatted(m.millis as int, "%Y-%m-%d %H:%M:%S"@) == date_text(m.millis as int) + seq![' '] + clock_text(m),
{
    reveal_strlit("%H:%M:%S");
    reveal_strlit("%Y-%m-%d %H:%M:%S");
    reveal_strlit("%Y-%m-%d");
    let s = m.time_of_day() / 1000;
    assert(0 <= m.time_of_day() < DAY_MILLIS);
    assert(0 <= s < 86400);
    assert("%H:%M:%S"@.len() != "%Y-%m-%d %H:%M:%S"@.len());
    assert("%H:%M:%S"@[1] != "%Y-%m-%d"@[1]);
    assert(formatted(m.millis as int, "%H:%M:%S"@) == time_text(m.millis as int));
    assert(time_text(m.millis as int) == clock_text(m));
    lemma_hms_reads_back(s as nat, false);
    assert(s / 86400 == 0);
    assert(s % 86400 == s);
    assert(hms_text(s, false) == clock_text(m));
    assert((s as nat * 1000) as int == (m.time_of_day() / 1000) * 1000);
}

/// The moment's YYYY-MM-DD HH:MM:SS.
pub fn datetime_of(moment: Moment) -> (text: String)
    requires
        moment.wf(),
    ensures
        text@ == formatted(moment.millis as int, "%Y-%m-%d %H:%M:%S"@),
{
    format_moment(moment, "%Y-%m-%d %H:%M:%S")
}

/// Split the "moment - now" difference in milliseconds into (sign, whole
/// seconds for zero padding).
///
/// Not reached yet gives `('-', remaining seconds)`, rounded up; already
/// passed gives `('+', elapsed seconds)`, rounded down. So the exact second of
/// the moment shows `T-00:00:00`.
pub fn split_delta(delta_millis: i64) -> (r: (char, i64))
    ensures
        delta_millis >= 0 ==> r.0 == '-' && r.1 == (delta_millis + 999) / 1000,
        delta_millis < 0 ==> r.0 == '+' && r.1 == (-delta_millis) / 1000,
        r.1 >= 0,
{
    if delta_millis >= 0 {
        ('-', delta_millis / 1000 + if delta_millis % 1000 != 0 { 1 } else { 0 })
    } else {
        let magnitude: i128 = -(delta_millis as i128);
        ('+', (magnitude / 1000) as i64)
    }
}

/// `{n}` followed by a unit letter.
pub open spec fn with_unit(n: nat, unit: char) -> Seq<char> {
    decimal(n).push(unit)
}

/// The parts joined by single spaces.
pub open spec fn join_spaced(parts: Seq<Seq<char>>) -> Seq<char>
    decreases parts.len(),
{
    if parts.len() == 0 {
        Seq::empty()
    } else if parts.len() == 1 {
        parts[0]
    } else {
        join_spaced(parts.drop_last()) + seq![' '] + parts.last()
    }
}

/// The non-zero parts of `1d 1h 1m 1s`; seconds only under a day.
pub open spec fn human_parts(total_seconds: int) -> Seq<Seq<char>> {
    let s: nat = if total_seconds < 0 { 0 } else { total_seconds as nat };
    let days = s / 86400;
    let hours = (s % 86400) / 3600;
    let minutes = (s % 3600) / 60;
    let secs = s % 60;
    (if days > 0 { seq![with_unit(days, 'd')] } else { Seq::empty() })
        + (if hours > 0 { seq![with_unit(hours, 'h')] } else { Seq::empty() })
        + (if minutes > 0 { seq![with_unit(minutes, 'm')] } else { Seq::empty() })
        + (if secs > 0 && days == 0 { seq![with_unit(secs, 's')] } else { Seq::empty() })
}

/// Compact human-readable duration: zero parts omitted, `0s` for nothing.
pub open spec fn human_text(total_seconds: int) -> Seq<char> {
    if human_parts(total_seconds).len() == 0 {
        "0s"@
    } else {
        join_spaced(human_parts(total_seconds))
    }
}

/// Compact human-readable duration for notification bodies: `1h 30m`.
///
/// Zero-valued components are omitted and components are joined by one space.
/// Seconds are only shown while the duration is under a day (`1d 1h 1m`,
/// never `1d 1h 1m 1s`); an all-zero duration is `0s`. Negative input is
/// clamped to zero: the caller renders the sign itself.
pub fn format_human(total_seconds: i64) -> (text: String)
    ensures
        text@ == human_text(total_seconds as int),
{
    let seconds: u64 = if total_seconds < 0 { 0 } else { total_seconds as u64 };
    let days = seconds / 86400;
    let hours = (seconds % 86400) / 3600;
    let minutes = (seconds % 3600) / 60;
    let secs = seconds % 60;
    let mut out: Vec<char> = Vec::new();
    let ghost mut parts: Seq<Seq<char>> = Seq::empty();
    if days > 0 {
        push_decimal(&mut out, days);
        out.push('d');
        proof {
            parts = parts.push(with_unit(days as nat, 'd'));
        }
    }
    assert(out@ == join_spaced(parts));
    if hours > 0 {
        let ghost before = parts;
        if out.len() > 0 {
            out.push(' ');
        }
        push_decimal(&mut out, hours);
        out.push('h');
        proof {
            parts = parts.push(with_unit(hours as nat, 'h'));
            assert(parts.drop_last() =~= before);
        }
    }
    assert(out@ == join_spaced(parts));
    if minutes > 0 {
        let ghost before = parts;
        if out.len() > 0 {
            out.push(' ');
        }
        push_decimal(&mut out, minutes);
        out.push('m');
        proof {
            parts = parts.push(with_unit(minutes as nat, 'm'));
            assert(parts.drop_last() =~= before);
        }
    }
    assert(out@ == join_spaced(parts));
    if secs > 0 && days == 0 {
        let ghost before = parts;
        if out.len() > 0 {
            out.push(' ');
        }
        push_decimal(&mut out, secs);
        out.push('s');
        proof {
            parts = parts.push(with_unit(secs as nat, 's'));
            assert(parts.drop_last() =~= before);
        }
    }
    assert(out@ == join_spaced(parts));
    assert(parts =~= human_parts(total_seconds as int));
    if out.len() == 0 {
        proof {
            lemma_join_spaced_empty(parts);
        }
        return string_of(&chars_of("0s"));
    }
    proof {
        lemma_join_spaced_empty(parts);
    }
    string_of(&out)
}

proof fn lemma_join_spaced_empty(parts: Seq<Seq<char>>)
    requires
        forall|i: int| 0 <= i < parts.len() ==> (#[trigger] parts[i]).len() > 0,
    ensures
        (join_spaced(parts).len() == 0) == (parts.len() == 0),
    decreases parts.len(),
{
    if parts.len() > 1 {
        lemma_join_spaced_empty(parts.drop_last());
    }
}

// ---------------------------------------------------------------------------
// The "target moment + offset" line
// ---------------------------------------------------------------------------

/// The placeholders of the info line, in the order they are filled in.
pub open spec fn info_keys() -> Seq<Seq<char>> {
    seq![
        "{datetime}"@,
        "{mark_datetime}"@,
        "{date}"@,
        "{time}"@,
        "{mark}"@,
        "{delta_human}"@,
        "{delta}"@,
    ]
}

/// The values of the info-line placeholders, in the order of [`info_keys`].
pub open spec fn info_values(target: Moment, mark: Moment, offset_millis: int, show_days: bool) -> Seq<Seq<char>> {
    let sign = if offset_millis >= 0 { "+"@ } else { "-"@ };
    let magnitude = ((if offset_millis >= 0 { offset_millis } else { -offset_millis }) + 500) / 1000;
    seq![
        formatted(target.millis as int, "%Y-%m-%d %H:%M:%S"@),
        formatted(mark.millis as int, "%Y-%m-%d %H:%M:%S"@),
        formatted(target.millis as int, "%Y-%m-%d"@),
        formatted(target.millis as int, "%H:%M:%S"@),
        formatted(mark.millis as int, "%H:%M:%S"@),
        sign + human_text(magnitude),
        sign + hms_text(magnitude, show_days),
    ]
}

/// Fill the placeholders `keys[0..n]` in turn with `values`.
pub open spec fn fill(template: Seq<char>, keys: Seq<Seq<char>>, values: Seq<Seq<char>>, n: nat) -> Seq<char>
    decreases n,
{
    if n == 0 {
        template
    } else {
        replace_all(fill(template, keys, values, (n - 1) as nat), keys[n - 1], values[n - 1])
    }
}

/// The info line: empty for a blank template, otherwise the template with
/// every known placeholder filled in; unknown placeholders stay verbatim.
pub open spec fn info_text(template: Seq<char>, target: Moment, mark: Moment, offset_millis: int, show_days: bool) -> Seq<char> {
    if trim(template).len() == 0 {
        Seq::empty()
    } else {
        fill(template, info_keys(), info_values(target, mark, offset_millis, show_days), 7)
    }
}

/// Render the "target moment + offset" line.
///
/// Placeholders: `{date} {time} {datetime}` (target moment T),
/// `{mark} {mark_datetime}` (offset moment M), `{delta}` (+02:00:00) and
/// `{delta_human}` (+2h), the offset rounded to whole seconds.
pub fn render_info(template: &str, target: Moment, mark: Moment, offset_millis: i64, show_days: bool) -> (text: String)
    requires
        target.wf(),
        mark.wf(),
    ensures
        text@ == info_text(template@, target, mark, offset_millis as int, show_days),
{
    let chars = chars_of(template);
    let (a, b) = trim_bounds(&chars, 0, chars.len());
    assert(chars@.subrange(0, chars.len() as int) =~= template@);
    if a == b {
        return String::new();
    }
    let negative = offset_millis < 0;
    let magnitude_ms: i128 = if negative { -(offset_millis as i128) } else { offset_millis as i128 };
    let magnitude = ((magnitude_ms + 500) / 1000) as i64;
    let sign = if negative { chars_of("-") } else { chars_of("+") };
    let mut human = sign.clone();
    push_all(&mut human, &chars_of(format_human(magnitude).as_str()));
    let mut delta = sign.clone();
    push_all(&mut delta, &chars_of(format_hms(magnitude, show_days).as_str()));
    let keys: Vec<Vec<char>> = vec![
        chars_of("{datetime}"),
        chars_of("{mark_datetime}"),
        chars_of("{date}"),
        chars_of("{time}"),
        chars_of("{mark}"),
        chars_of("{delta_human}"),
        chars_of("{delta}"),
    ];
    let values: Vec<Vec<char>> = vec![
        chars_of(format_moment(target, "%Y-%m-%d %H:%M:%S").as_str()),
        chars_of(format_moment(mark, "%Y-%m-%d %H:%M:%S").as_str()),
        chars_of(format_moment(target, "%Y-%m-%d").as_str()),
        chars_of(format_moment(target, "%H:%M:%S").as_str()),
        chars_of(format_moment(mark, "%H:%M:%S").as_str()),
        human,
        delta,
    ];
    let ghost key_seq = keys@.map_values(|k: Vec<char>| k@);
    let ghost value_seq = values@.map_values(|k: Vec<char>| k@);
    assert(key_seq =~= info_keys());
    assert(value_seq =~= info_values(target, mark, offset_millis as int, show_days));
    proof {
        lemma_info_keys_nonempty();
        assert forall|i: int| 0 <= i < keys.len() implies (#[trigger] keys@[i])@.len() > 0 by {
            assert(key_seq[i] == keys@[i]@);
        }
    }
    let filled = fill_all(&chars, &keys, &values);
    string_of(&filled)
}

proof fn lemma_info_keys_nonempty()
    ensures
        forall|i: int| 0 <= i < info_keys().len() ==> (#[trigger] info_keys()[i]).len() > 0,
{
    reveal_strlit("{datetime}");
    reveal_strlit("{mark_datetime}");
    reveal_strlit("{date}");
    reveal_strlit("{time}");
    reveal_strlit("{mark}");
    reveal_strlit("{delta_human}");
    reveal_strlit("{delta}");
}

/// Fill every placeholder of `keys` in turn.
pub fn fill_all(template: &Vec<char>, keys: &Vec<Vec<char>>, values: &Vec<Vec<char>>) -> (r: Vec<char>)
    requires
        keys.len() == values.len(),
        forall|i: int| 0 <= i < keys.len() ==> (#[trigger] keys@[i])@.len() > 0,
    ensures
        r@ == fill(
            template@,
            keys@.map_values(|k: Vec<char>| k@),
            values@.map_values(|k: Vec<char>| k@),
            keys.len() as nat,
        ),
{
    let ghost ks = keys@.map_values(|k: Vec<char>| k@);
    let ghost vs = values@.map_values(|k: Vec<char>| k@);
    let mut text = template.clone();
    let mut i: usize = 0;
    while i < keys.len()
        invariant
            i <= keys.len() == values.len(),
            forall|j: int| 0 <= j < keys.len() ==> (#[trigger] keys@[j])@.len() > 0,
            ks == keys@.map_values(|k: Vec<char>| k@),
            vs == values@.map_values(|k: Vec<char>| k@),
            text@ == fill(template@, ks, vs, i as nat),
        decreases keys.len() - i,
    {
        text = replace(&text, &keys[i], &values[i]);
        i = i + 1;
    }
    text
}


// ---------------------------------------------------------------------------
// The target moment
// ---------------------------------------------------------------------------

/// Why a target text was refused.
#[derive(Clone, Copy, Debug, PartialEq, Eq, Structural)]
pub enum TargetFault {
    /// nothing but whitespace
    Empty,
    /// a clock time with a field out of range, or a moment beyond the calendar
    OutOfRange,
    /// none of the accepted spellings
    Unrecognized,
}

/// `H:M` or `H:M:S`, each field one or two ASCII digits.
pub open spec fn time_only(t: Seq<char>) -> Option<(nat, nat, nat)> {
    let parts = split_colons(t);
    if 2 <= parts.len() <= 3 && (forall|j: int|
        0 <= j < parts.len() ==> 1 <= (#[trigger] parts[j]).len() <= 2 && all_digits(parts[j])) {
        Some(
            (
                digits_value(parts[0]),
                digits_value(parts[1]),
                if parts.len() == 3 {
                    digits_value(parts[2])
                } else {
                    0
                },
            ),
        )
    } else {
        None
    }
}

/// Date separators unified to `-`, and the date/time separator (the first
/// `T`, `t` or space) turned into `T`; a blank time part is dropped.
pub open spec fn normalized_datetime(t: Seq<char>) -> Seq<char> {
    let i = prefix_len(t, Class::NotDateSep) as int;
    let date = dashes(t.take(i));
    if i < t.len() && trim(t.skip(i + 1)).len() > 0 {
        date + seq!['T'] + trim(t.skip(i + 1))
    } else {
        date
    }
}

/// The texts tried against the formats: as written, with the current year
/// in front, and with the current year and month in front.
pub open spec fn target_candidates(t: Seq<char>, now: Moment) -> Seq<Seq<char>> {
    let n = normalized_datetime(t);
    let year = decimal_int(year_of(now.millis as int));
    seq![n, year + seq!['-'] + n, year + seq!['-'] + pad2(month_of(now.millis as int) as nat) + seq!['-'] + n]
}

pub open spec fn datetime_formats() -> Seq<Seq<char>> {
    seq!["%Y-%m-%dT%H:%M:%S%.f"@, "%Y-%m-%dT%H:%M:%S"@, "%Y-%m-%dT%H:%M"@]
}

/// The first format that parses `c`.
pub open spec fn first_format(c: Seq<char>, fmts: Seq<Seq<char>>) -> Option<int>
    decreases fmts.len(),
{
    if fmts.len() == 0 {
        None
    } else {
        match parsed_datetime(c, fmts[0]) {
            Some(v) => Some(v),
            None => first_format(c, fmts.drop_first()),
        }
    }
}

/// The first candidate that parses as a date and time.
pub open spec fn first_datetime(cands: Seq<Seq<char>>) -> Option<int>
    decreases cands.len(),
{
    if cands.len() == 0 {
        None
    } else {
        match first_format(cands[0], datetime_formats()) {
            Some(v) => Some(v),
            None => first_datetime(cands.drop_first()),
        }
    }
}

/// The first candidate that parses as a date (at midnight).
pub open spec fn first_date(cands: Seq<Seq<char>>) -> Option<int>
    decreases cands.len(),
{
    if cands.len() == 0 {
        None
    } else {
        match parsed_date(cands[0], "%Y-%m-%d"@) {
            Some(v) => Some(v),
            None => first_date(cands.drop_first()),
        }
    }
}

/// Whether the text holds a digit other than `0`: a duration that parses is
/// zero before any rounding exactly when it holds none.
pub open spec fn nonzero_digit(t: Seq<char>) -> bool {
    exists|i: int| 0 <= i < t.len() && is_digit(#[trigger] t[i]) && t[i] as u32 != 48
}

/// Whether the text is a relative target (`+1h30m` / `-10m`): a sign, a
/// trailing letter, and a duration that is not zero (before rounding to
/// milliseconds).
pub open spec fn relative_target(t: Seq<char>) -> bool {
    &&& t.len() > 0
    &&& (t[0] == '+' || t[0] == '-')
    &&& is_alpha(t.last())
    &&& duration_millis(t) matches Some(d) && i64::MIN <= d <= i64::MAX
    &&& nonzero_digit(t)
}

/// Whether `v[lo..hi]` holds a digit other than `0`.
fn has_nonzero_digit(v: &Vec<char>, lo: usize, hi: usize) -> (r: bool)
    requires
        lo <= hi <= v.len(),
    ensures
        r == nonzero_digit(v@.subrange(lo as int, hi as int)),
{
    let ghost t = v@.subrange(lo as int, hi as int);
    let mut i = lo;
    while i < hi
        invariant
            lo <= i <= hi <= v.len(),
            t == v@.subrange(lo as int, hi as int),
            forall|k: int| 0 <= k < i - lo ==> !(is_digit(#[trigger] t[k]) && t[k] as u32 != 48),
        decreases hi - i,
    {
        let c = v[i];
        let u = c as u32;
        if 49 <= u && u <= 57 {
            assert(t[i - lo] == c);
            assert(is_digit(t[i - lo]) && t[i - lo] as u32 != 48);
            return true;
        }
        assert(t[i - lo] == c);
        i = i + 1;
    }
    false
}

/// A parsed date and time as a target: `chrono` reads a leap second
/// (`23:59:60`) as the second after, which past the last representable
/// second is out of range.
pub open spec fn parsed_in_range(v: int) -> Result<int, TargetFault> {
    if MIN_MILLIS <= v <= MAX_MILLIS {
        Ok(v)
    } else {
        Err(TargetFault::OutOfRange)
    }
}

/// The target moment a text denotes at `now`, in milliseconds.
///
/// * `2026-01-01T09:30:00` / `2026-01-01 09:30` / `2026/01/01 09:30` /
///   `2026-01-01` / `09-19 20:29` (ISO and common spellings; a missing year
///   or year and month is taken from `now`)
/// * `09:30` / `09:30:00`: that clock time today, tomorrow once it has passed
/// * `+1h30m` / `-10m`: relative to now
pub open spec fn target_result(text: Seq<char>, now: Moment) -> Result<int, TargetFault> {
    let t = trim(text);
    if t.len() == 0 {
        Err(TargetFault::Empty)
    } else if relative_target(t) {
        let d = duration_millis(t)->0;
        if MIN_MILLIS <= now.millis + d <= MAX_MILLIS {
            Ok(now.millis + d)
        } else {
            Err(TargetFault::OutOfRange)
        }
    } else if time_only(t) is Some {
        let (h, m, s) = time_only(t)->0;
        if h > 23 || m > 59 || s > 59 {
            Err(TargetFault::OutOfRange)
        } else {
            let today = now.day_start() + h * 3_600_000 + m * 60_000 + s * 1000;
            let moment = if today <= now.millis { today + DAY_MILLIS } else { today };
            if moment <= MAX_MILLIS {
                Ok(moment)
            } else {
                Err(TargetFault::OutOfRange)
            }
        }
    } else {
        match first_datetime(target_candidates(t, now)) {
            Some(v) => parsed_in_range(v),
            None => match first_date(target_candidates(t, now)) {
                Some(v) => Ok(v),
                None => Err(TargetFault::Unrecognized),
            },
        }
    }
}

/// A clock time alone names its next occurrence: later than `now`, and at
/// most a day away (a time already past today rolls over to tomorrow).
pub proof fn lemma_time_only_is_next(text: Seq<char>, now: Moment)
    requires
        now.wf(),
        trim(text).len() > 0,
        !relative_target(trim(text)),
        time_only(trim(text)) is Some,
        target_result(text, now) is Ok,
    ensures
        now.millis < target_result(text, now)->Ok_0 <= now.millis + DAY_MILLIS,
{
    let (h, m, s) = time_only(trim(text))->0;
    assert(h <= 23 && m <= 59 && s <= 59);
    assert(0 <= now.time_of_day() < DAY_MILLIS);
}

/// The message of a refused target.
pub open spec fn target_message(fault: TargetFault, text: Seq<char>) -> Seq<char> {
    match fault {
        TargetFault::Empty => "target moment is empty; set it in [time] target of config.toml"@,
        TargetFault::OutOfRange => "time out of range: "@ + debug_quoted(text),
        TargetFault::Unrecognized => "unrecognized time format: "@ + debug_quoted(text)
            + " (examples: 2026-01-01T09:30:00 / 2026-01-01 09:30 / 09:30 / +1h30m)"@,
    }
}

/// The clock fields of `v[lo..hi]` when it is `H:M` or `H:M:S`.
fn time_fields(v: &Vec<char>, lo: usize, hi: usize) -> (r: Option<(u64, u64, u64)>)
    requires
        lo <= hi <= v.len(),
    ensures
        r is None <==> time_only(v@.subrange(lo as int, hi as int)) is None,
        r matches Some((h, m, s)) ==> time_only(v@.subrange(lo as int, hi as int)) == Some(
            (h as nat, m as nat, s as nat),
        ),
{
    let (starts, ends) = split_colon_ranges(v, lo, hi);
    let ghost parts = split_colons(v@.subrange(lo as int, hi as int));
    let n = starts.len();
    if n < 2 || n > 3 {
        return None;
    }
    let mut fields: Vec<u64> = Vec::new();
    let mut j: usize = 0;
    while j < n
        invariant
            n == starts.len() == ends.len() == parts.len(),
            2 <= n <= 3,
            parts == split_colons(v@.subrange(lo as int, hi as int)),
            pieces(v@, starts@, ends@) == parts,
            forall|q: int| 0 <= q < starts.len() ==> lo <= #[trigger] starts@[q] <= ends@[q] <= hi <= v.len(),
            j <= n,
            fields.len() == j,
            forall|q: int| 0 <= q < j ==> 1 <= (#[trigger] parts[q]).len() <= 2 && all_digits(parts[q]),
            forall|q: int| 0 <= q < j ==> fields@[q] == digits_value(#[trigger] parts[q]),
        decreases n - j,
    {
        let a = starts[j];
        let b = ends[j];
        assert(parts[j as int] == v@.subrange(a as int, b as int));
        let de = run_end(v, a, b, Class::Digit);
        proof {
            lemma_prefix_len(v@.subrange(a as int, b as int), Class::Digit);
        }
        if b - a < 1 || b - a > 2 || de != b {
            assert(!(1 <= parts[j as int].len() <= 2 && all_digits(parts[j as int]))) by {
                if 1 <= b - a <= 2 {
                    assert(!is_digit(v@.subrange(a as int, b as int)[de - a]));
                }
            }
            assert(!(forall|q: int|
                0 <= q < parts.len() ==> 1 <= (#[trigger] parts[q]).len() <= 2 && all_digits(parts[q])));
            return None;
        }
        proof {
            lemma_digits_value_bound(v@.subrange(a as int, b as int));
            reveal_with_fuel(pow10, 3);
        }
        let f = digits_capped(v, a, b, 99);
        fields.push(f as u64);
        j = j + 1;
    }
    let third = if n == 3 { fields[2] } else { 0 };
    Some((fields[0], fields[1], third))
}

/// `normalized_datetime` of `v[lo..hi]`.
fn normalized(v: &Vec<char>, lo: usize, hi: usize) -> (r: Vec<char>)
    requires
        lo <= hi <= v.len(),
    ensures
        r@ == normalized_datetime(v@.subrange(lo as int, hi as int)),
{
    let ghost t = v@.subrange(lo as int, hi as int);
    let i = run_end(v, lo, hi, Class::NotDateSep);
    proof {
        lemma_prefix_len(t, Class::NotDateSep);
    }
    assert(t.take(i - lo) =~= v@.subrange(lo as int, i as int));
    let mut date = dashes_range(v, lo, i);
    if i < hi {
        assert(t.skip(i - lo + 1) =~= v@.subrange(i + 1, hi as int));
        let (c, e) = trim_bounds(v, i + 1, hi);
        if c < e {
            date.push('T');
            let time = copy_range(v, c, e);
            push_all(&mut date, &time);
        }
    }
    date
}

/// Unify the date separators to `-` and the date/time separator to `T`,
/// dropping a blank time part.
pub fn normalize_datetime(text: &str) -> (r: String)
    ensures
        r@ == normalized_datetime(text@),
{
    let v = chars_of(text);
    assert(v@.subrange(0, v.len() as int) =~= v@);
    string_of(&normalized(&v, 0, v.len()))
}

/// `H:M` or `H:M:S` with one- or two-digit fields, as numbers.
pub fn parse_time_only(text: &str) -> (r: Option<(u32, u32, u32)>)
    ensures
        r is None <==> time_only(text@) is None,
        r matches Some((h, m, s)) ==> time_only(text@) == Some((h as nat, m as nat, s as nat)),
{
    let v = chars_of(text);
    assert(v@.subrange(0, v.len() as int) =~= v@);
    match time_fields(&v, 0, v.len()) {
        Some((h, m, s)) => {
            proof {
                let parts = split_colons(text@);
                assert(1 <= parts[0].len() <= 2 && all_digits(parts[0]));
                assert(1 <= parts[1].len() <= 2 && all_digits(parts[1]));
                lemma_digits_value_bound(parts[0]);
                lemma_digits_value_bound(parts[1]);
                if parts.len() == 3 {
                    assert(1 <= parts[2].len() <= 2 && all_digits(parts[2]));
                    lemma_digits_value_bound(parts[2]);
                }
                reveal_with_fuel(pow10, 3);
            }
            Some((h as u32, m as u32, s as u32))
        },
        None => None,
    }
}

/// Parse the target moment (see [`target_result`] for the accepted forms).
#[verifier::spinoff_prover]
#[verifier::rlimit(80)]
pub fn parse_target(spec: &str, now: Moment) -> (r: Result<Moment, String>)
    requires
        now.wf(),
    ensures
        r matches Ok(m) ==> m.wf() && target_result(spec@, now) == Ok::<int, TargetFault>(m.millis as int),
        r is Err ==> target_result(spec@, now) is Err,
        r matches Err(msg) ==> msg@ == target_message(target_result(spec@, now)->Err_0, spec@),
{
    let v = chars_of(spec);
    let (a, b) = trim_bounds(&v, 0, v.len());
    assert(v@.subrange(0, v.len() as int) =~= spec@);
    let ghost t = v@.subrange(a as int, b as int);
    assert(trim(spec@) == t);
    if a == b {
        return Err(string_of(&chars_of("target moment is empty; set it in [time] target of config.toml")));
    }
    let trimmed = copy_range(&v, a, b);
    let trimmed_text = string_of(&trimmed);
    // relative to now: +1h30m / -10m
    if (v[a] == '+' || v[a] == '-') && crate::chars::member(v[b - 1], Class::Letter) {
        if let Ok(delta) = parse_duration(trimmed_text.as_str()) {
            if has_nonzero_digit(&v, a, b) {
                assert(relative_target(t));
                return match now.plus_millis(delta) {
                    Some(m) => Ok(m),
                    None => Err(range_message(spec)),
                };
            }
        }
    }
    assert(!relative_target(t));
    // time only: that clock time today, tomorrow once it has passed
    if let Some((h, m, s)) = time_fields(&v, a, b) {
        if h > 23 || m > 59 || s > 59 {
            return Err(range_message(spec));
        }
        let tod = now.millis % DAY_MILLIS;
        let tod: i64 = if tod < 0 { tod + DAY_MILLIS } else { tod };
        assert(tod == now.time_of_day());
        let today = now.millis - tod + (h as i64) * 3_600_000 + (m as i64) * 60_000 + (s as i64) * 1000;
        let moment = if today <= now.millis { today + DAY_MILLIS } else { today };
        assert(MIN_MILLIS % DAY_MILLIS == 0);
        if moment <= MAX_MILLIS {
            return Ok(Moment { millis: moment });
        }
        return Err(range_message(spec));
    }
    // calendar forms, completed with the current year (and month) when short
    let n = normalized(&v, a, b);
    let (year, month) = year_month(now);
    let mut with_year: Vec<char> = Vec::new();
    push_int(&mut with_year, year as i64);
    with_year.push('-');
    let mut with_month = with_year.clone();
    push_all(&mut with_year, &n);
    push_pad2(&mut with_month, month as u64);
    with_month.push('-');
    push_all(&mut with_month, &n);
    let ghost year_text = decimal_int(year_of(now.millis as int));
    assert(with_year@ =~= year_text + seq!['-'] + normalized_datetime(t));
    assert(with_month@ =~= year_text + seq!['-'] + pad2(month_of(now.millis as int) as nat) + seq!['-'] + normalized_datetime(t));
    let cands: Vec<String> = vec![string_of(&n), string_of(&with_year), string_of(&with_month)];
    let ghost cand_seq = cands@.map_values(|c: String| c@);
    assert(cand_seq =~= target_candidates(t, now));
    assert(cand_seq.skip(0) =~= cand_seq);
    let formats: Vec<&str> = vec!["%Y-%m-%dT%H:%M:%S%.f", "%Y-%m-%dT%H:%M:%S", "%Y-%m-%dT%H:%M"];
    let ghost fmt_seq = formats@.map_values(|f: &str| f@);
    assert(fmt_seq =~= datetime_formats());
    let ghost outcome = match first_datetime(cand_seq) {
        Some(v) => parsed_in_range(v),
        None => match first_date(cand_seq) {
            Some(v) => Ok(v),
            None => Err(TargetFault::Unrecognized),
        },
    };
    assert(target_result(spec@, now) == outcome);
    let mut i: usize = 0;
    while i < cands.len()
        invariant
            i <= cands.len() == 3,
            cand_seq == cands@.map_values(|c: String| c@),
            fmt_seq == formats@.map_values(|f: &str| f@),
            formats.len() == 3,
            fmt_seq == datetime_formats(),
            first_datetime(cand_seq) == first_datetime(cand_seq.skip(i as int)),
            target_result(spec@, now) == outcome,
            outcome == match first_datetime(cand_seq) {
                Some(v) => parsed_in_range(v),
                None => match first_date(cand_seq) {
                    Some(v) => Ok(v),
                    None => Err(TargetFault::Unrecognized),
                },
            },
        decreases cands.len() - i,
    {
        let mut j: usize = 0;
        assert(cand_seq.skip(i as int)[0] == cand_seq[i as int]);
        assert(cand_seq.skip(i as int).drop_first() =~= cand_seq.skip(i + 1));
        assert(fmt_seq.skip(0) =~= fmt_seq);
        while j < formats.len()
            invariant
                i < cands.len() == 3,
                j <= formats.len() == 3,
                cand_seq == cands@.map_values(|c: String| c@),
                fmt_seq == formats@.map_values(|f: &str| f@),
                first_format(cand_seq[i as int], datetime_formats()) == first_format(cand_seq[i as int], fmt_seq.skip(j as int)),
                fmt_seq == datetime_formats(),
                first_datetime(cand_seq) == first_datetime(cand_seq.skip(i as int)),
                target_result(spec@, now) == outcome,
                outcome == match first_datetime(cand_seq) {
                    Some(v) => parsed_in_range(v),
                    None => match first_date(cand_seq) {
                        Some(v) => Ok(v),
                        None => Err(TargetFault::Unrecognized),
                    },
                },
            decreases formats.len() - j,
        {
            assert(fmt_seq.skip(j as int)[0] == fmt_seq[j as int]);
            assert(fmt_seq.skip(j as int).drop_first() =~= fmt_seq.skip(j + 1));
            if let Some(ms) = parse_datetime(cands[i].as_str(), formats[j]) {
                return match Moment::from_millis(ms) {
                    Some(m) => Ok(m),
                    None => Err(range_message(spec)),
                };
            }
            j = j + 1;
        }
        i = i + 1;
    }
    assert(first_datetime(cand_seq) is None);
    assert(cand_seq.skip(0) =~= cand_seq);
    let mut i: usize = 0;
    while i < cands.len()
        invariant
            i <= cands.len() == 3,
            cand_seq == cands@.map_values(|c: String| c@),
            first_datetime(cand_seq) is None,
            first_date(cand_seq) == first_date(cand_seq.skip(i as int)),
            target_result(spec@, now) == outcome,
            outcome == match first_datetime(cand_seq) {
                Some(v) => parsed_in_range(v),
                None => match first_date(cand_seq) {
                    Some(v) => Ok(v),
                    None => Err(TargetFault::Unrecognized),
                },
            },
        decreases cands.len() - i,
    {
        assert(cand_seq.skip(i as int)[0] == cand_seq[i as int]);
        assert(cand_seq.skip(i as int).drop_first() =~= cand_seq.skip(i + 1));
        if let Some(m) = parse_date(cands[i].as_str(), "%Y-%m-%d") {
            return Ok(m);
        }
        i = i + 1;
    }
    let mut message = chars_of("unrecognized time format: ");
    push_all(&mut message, &quote_debug(&v));
    push_all(&mut message, &chars_of(" (examples: 2026-01-01T09:30:00 / 2026-01-01 09:30 / 09:30 / +1h30m)"));
    Err(string_of(&message))
}

/// "time out of range: {spec:?}"
fn range_message(spec: &str) -> (r: String)
    ensures
        r@ == "time out of range: "@ + debug_quoted(spec@),
{
    let mut message = chars_of("time out of range: ");
    push_all(&mut message, &quote_debug(&chars_of(spec)));
    string_of(&message)
}

} // verus!
