//! The proleptic Gregorian calendar: which dates exist, and how many days
//! separate a date from 1970-01-01. Turning a day count back into a date is
//! verified against that count.

use vstd::prelude::*;

verus! {

/// A leap year: divisible by 4, and by 400 when divisible by 100.
pub open spec fn is_leap(y: int) -> bool {
    y % 4 == 0 && (y % 100 != 0 || y % 400 == 0)
}

/// Days in year `y`.
pub open spec fn year_len(y: int) -> int {
    if is_leap(y) {
        366
    } else {
        365
    }
}

/// Days in month `m` (1 to 12) of year `y`.
pub open spec fn month_len(y: int, m: int) -> int {
    if m == 2 {
        if is_leap(y) {
            29
        } else {
            28
        }
    } else if m == 4 || m == 6 || m == 9 || m == 11 {
        30
    } else {
        31
    }
}

/// Days of year `y` before the first of month `m`.
pub open spec fn days_before_month(y: int, m: int) -> int {
    let common: int = if m <= 1 {
        0
    } else if m == 2 {
        31
    } else if m == 3 {
        59
    } else if m == 4 {
        90
    } else if m == 5 {
        120
    } else if m == 6 {
        151
    } else if m == 7 {
        181
    } else if m == 8 {
        212
    } else if m == 9 {
        243
    } else if m == 10 {
        273
    } else if m == 11 {
        304
    } else {
        334
    };
    common + if m > 2 && is_leap(y) {
        1int
    } else {
        0
    }
}

/// How many leap years lie in `[0, y)` (negative for `y < 0`).
pub open spec fn leaps_before(y: int) -> int {
    (y + 3) / 4 - (y + 99) / 100 + (y + 399) / 400
}

/// Days from 1970-01-01 to the date `y-m-d`.
pub open spec fn civil_day(y: int, m: int, d: int) -> int {
    365 * y + leaps_before(y) + days_before_month(y, m) + d - 1 - 719528
}

/// A date that exists.
pub open spec fn valid_date(y: int, m: int, d: int) -> bool {
    1 <= m <= 12 && 1 <= d <= month_len(y, m)
}

proof fn lemma_div_step(a: int, k: int)
    requires
        k > 0,
    ensures
        (a + 1) / k == a / k + if (a + 1) % k == 0 { 1int } else { 0 },
{
    let q = a / k;
    let r = a % k;
    vstd::arithmetic::div_mod::lemma_fundamental_div_mod(a, k);
    vstd::arithmetic::div_mod::lemma_mod_bound(a, k);
    assert(k * q == q * k) by (nonlinear_arith);
    if r + 1 == k {
        assert(a + 1 == (q + 1) * k + 0) by (nonlinear_arith)
            requires
                a == q * k + r,
                r + 1 == k,
        ;
        vstd::arithmetic::div_mod::lemma_fundamental_div_mod_converse(a + 1, k, q + 1, 0);
    } else {
        assert(a + 1 == q * k + (r + 1));
        vstd::arithmetic::div_mod::lemma_fundamental_div_mod_converse(a + 1, k, q, r + 1);
    }
}

proof fn lemma_mod_shift(y: int, k: int, j: int)
    requires
        k > 0,
    ensures
        (y + j * k) % k == y % k,
{
    vstd::arithmetic::div_mod::lemma_mod_multiples_vanish(j, y, k);
    assert(k * j + y == y + j * k) by (nonlinear_arith);
}

/// Shifting by whole multiples of `k` shifts the quotient.
proof fn lemma_div_shift(y: int, k: int, j: int)
    requires
        k > 0,
    ensures
        (y + j * k) / k == y / k + j,
{
    let q = y / k;
    let r = y % k;
    vstd::arithmetic::div_mod::lemma_fundamental_div_mod(y, k);
    vstd::arithmetic::div_mod::lemma_mod_bound(y, k);
    assert(y + j * k == (q + j) * k + r) by (nonlinear_arith)
        requires
            y == k * q + r,
    ;
    vstd::arithmetic::div_mod::lemma_fundamental_div_mod_converse(y + j * k, k, q + j, r);
}

proof fn lemma_leaps_step(y: int)
    ensures
        leaps_before(y + 1) == leaps_before(y) + if is_leap(y) { 1int } else { 0 },
{
    lemma_div_step(y + 3, 4);
    lemma_div_step(y + 99, 100);
    lemma_div_step(y + 399, 400);
    lemma_mod_shift(y, 4, 1);
    lemma_mod_shift(y, 100, 1);
    lemma_mod_shift(y, 400, 1);
    assert((y + 3 + 1) % 4 == y % 4);
    assert((y + 99 + 1) % 100 == y % 100);
    assert((y + 399 + 1) % 400 == y % 400);
    assert(leaps_before(y + 1) == (y + 3 + 1) / 4 - (y + 99 + 1) / 100 + (y + 399 + 1) / 400);
}

/// One year on, the count grows by the length of the year.
#[verifier::spinoff_prover]
pub proof fn lemma_year_step(y: int)
    ensures
        civil_day(y + 1, 1, 1) == civil_day(y, 1, 1) + year_len(y),
{
    lemma_leaps_step(y);
    assert(days_before_month(y + 1, 1) == 0);
    assert(days_before_month(y, 1) == 0);
}

/// One month on, the count grows by the length of the month.
pub proof fn lemma_month_step(y: int, m: int)
    requires
        1 <= m <= 11,
    ensures
        civil_day(y, m + 1, 1) == civil_day(y, m, 1) + month_len(y, m),
{
}

/// The last month ends where the next year starts.
pub proof fn lemma_december(y: int)
    ensures
        civil_day(y, 12, 1) + month_len(y, 12) == civil_day(y + 1, 1, 1),
{
    lemma_year_step(y);
}

/// Four hundred years hold 146097 days, and leap years repeat with them.
pub proof fn lemma_era(y: int, q: int)
    ensures
        civil_day(y + 400 * q, 1, 1) == civil_day(y, 1, 1) + 146097 * q,
        is_leap(y + 400 * q) == is_leap(y),
{
    lemma_div_shift(y + 3, 4, 100 * q);
    lemma_div_shift(y + 99, 100, 4 * q);
    lemma_div_shift(y + 399, 400, q);
    lemma_mod_shift(y, 4, 100 * q);
    lemma_mod_shift(y, 100, 4 * q);
    lemma_mod_shift(y, 400, q);
    assert(100 * q * 4 == 400 * q) by (nonlinear_arith);
    assert(4 * q * 100 == 400 * q) by (nonlinear_arith);
    assert(q * 400 == 400 * q) by (nonlinear_arith);
    assert(365 * (y + 400 * q) == 365 * y + 146000 * q) by (nonlinear_arith);
}


/// A date lies within its year.
pub proof fn lemma_date_in_year(y: int, m: int, d: int)
    requires
        valid_date(y, m, d),
    ensures
        civil_day(y, 1, 1) <= civil_day(y, m, d) < civil_day(y + 1, 1, 1),
        civil_day(y, m, 1) <= civil_day(y, m, d) < civil_day(y, m, 1) + month_len(y, m),
{
    lemma_year_step(y);
}

/// Earlier years end no later than later years start.
pub proof fn lemma_years_ordered(a: int, b: int)
    requires
        a < b,
    ensures
        civil_day(a + 1, 1, 1) <= civil_day(b, 1, 1),
    decreases b - a,
{
    if b > a + 1 {
        lemma_years_ordered(a, b - 1);
        lemma_year_step(b - 1);
    }
}

proof fn lemma_months_ordered(y: int, a: int, b: int)
    requires
        1 <= a < b <= 12,
    ensures
        civil_day(y, a, 1) + month_len(y, a) <= civil_day(y, b, 1),
{
}

/// Different dates are different days.
pub proof fn lemma_civil_unique(y1: int, m1: int, d1: int, y2: int, m2: int, d2: int)
    requires
        valid_date(y1, m1, d1),
        valid_date(y2, m2, d2),
        civil_day(y1, m1, d1) == civil_day(y2, m2, d2),
    ensures
        y1 == y2 && m1 == m2 && d1 == d2,
{
    lemma_date_in_year(y1, m1, d1);
    lemma_date_in_year(y2, m2, d2);
    if y1 < y2 {
        lemma_years_ordered(y1, y2);
    } else if y2 < y1 {
        lemma_years_ordered(y2, y1);
    } else {
        if m1 < m2 {
            lemma_months_ordered(y1, m1, m2);
        } else if m2 < m1 {
            lemma_months_ordered(y1, m2, m1);
        }
    }
}

proof fn lemma_find_month(y: int, m: int, day: int) -> (r: (int, int))
    requires
        1 <= m <= 12,
        civil_day(y, m, 1) <= day < civil_day(y + 1, 1, 1),
    ensures
        valid_date(y, r.0, r.1),
        civil_day(y, r.0, r.1) == day,
    decreases 12 - m,
{
    if day < civil_day(y, m, 1) + month_len(y, m) {
        (m, day - civil_day(y, m, 1) + 1)
    } else {
        if m == 12 {
            lemma_december(y);
        }
        lemma_month_step(y, m);
        lemma_find_month(y, m + 1, day)
    }
}

proof fn lemma_find_year(y: int, day: int) -> (r: int)
    requires
        civil_day(y, 1, 1) <= day,
    ensures
        civil_day(r, 1, 1) <= day < civil_day(r + 1, 1, 1),
    decreases day - civil_day(y, 1, 1),
{
    lemma_year_step(y);
    if day < civil_day(y + 1, 1, 1) {
        y
    } else {
        lemma_find_year(y + 1, day)
    }
}

/// Every day count is the count of some date.
pub proof fn lemma_civil_exists(day: int) -> (r: (int, int, int))
    ensures
        valid_date(r.0, r.1, r.2),
        civil_day(r.0, r.1, r.2) == day,
{
    let q = (day - 10957) / 146097;
    vstd::arithmetic::div_mod::lemma_fundamental_div_mod(day - 10957, 146097);
    vstd::arithmetic::div_mod::lemma_mod_bound(day - 10957, 146097);
    lemma_era(2000, q);
    assert(civil_day(2000, 1, 1) == 10957);
    assert(146097 * q <= day - 10957);
    let y = lemma_find_year(2000 + 400 * q, day);
    let (m, d) = lemma_find_month(y, 1, day);
    (y, m, d)
}

/// Whether `y` is a leap year, for years above -400000.
fn leap_year(y: i64) -> (r: bool)
    requires
        -400_000 <= y <= 400_000,
    ensures
        r == is_leap(y as int),
{
    proof {
        lemma_era(y as int, 1000);
    }
    let z = y + 400_000;
    z % 4 == 0 && (z % 100 != 0 || z % 400 == 0)
}

fn year_days(y: i64) -> (r: i64)
    requires
        -400_000 <= y <= 400_000,
    ensures
        r == year_len(y as int),
{
    if leap_year(y) {
        366
    } else {
        365
    }
}

/// Days in month `m` of year `y`.
pub fn month_days(y: i64, m: i64) -> (r: i64)
    requires
        -400_000 <= y <= 400_000,
    ensures
        r == month_len(y as int, m as int),
{
    if m == 2 {
        if leap_year(y) {
            29
        } else {
            28
        }
    } else if m == 4 || m == 6 || m == 9 || m == 11 {
        30
    } else {
        31
    }
}

/// The date `day` days after 1970-01-01: (year, month, day of month).
pub fn civil_from_days(day: i64) -> (r: (i64, i64, i64))
    requires
        -100_000_000 <= day <= 100_000_000,
    ensures
        valid_date(r.0 as int, r.1 as int, r.2 as int),
        civil_day(r.0 as int, r.1 as int, r.2 as int) == day,
        -300_000 <= r.0 <= 300_000,
{
    let shifted: i64 = day - 10957 + 146097 * 700;
    let qq = shifted / 146097;
    let mut r = shifted % 146097;
    assert(shifted == qq * 146097 + r) by (nonlinear_arith)
        requires
            qq == shifted / 146097,
            r == shifted % 146097,
            shifted >= 0,
    ;
    let ghost q = qq - 700;
    proof {
        lemma_era(2000, q);
        assert(civil_day(2000, 1, 1) == 10957);
        assert(146097 * q == 146097 * qq - 146097 * 700) by (nonlinear_arith)
            requires
                q == qq - 700,
        ;
    }
    assert(0 <= qq <= 1400);
    let mut y: i64 = 2000 + 400 * (qq - 700);
    let ghost y0 = y as int;
    assert(civil_day(y0, 1, 1) + r == day);
    while r >= year_days(y)
        invariant
            -280_000 <= y0 <= y <= y0 + 400,
            0 <= r,
            civil_day(y as int, 1, 1) + r == day,
            civil_day(y as int, 1, 1) >= civil_day(y0, 1, 1) + 365 * (y - y0),
            civil_day(y0, 1, 1) + 146097 > day,
            y0 <= 280_000,
        decreases r,
    {
        proof {
            lemma_year_step(y as int);
        }
        r = r - year_days(y);
        y = y + 1;
    }
    proof {
        lemma_year_step(y as int);
    }
    let mut m: i64 = 1;
    while r >= month_days(y, m)
        invariant
            -300_000 <= y <= 300_000,
            1 <= m <= 12,
            0 <= r,
            civil_day(y as int, m as int, 1) + r == day,
            day < civil_day(y as int + 1, 1, 1),
        decreases 12 - m,
    {
        if m == 12 {
            proof {
                lemma_december(y as int);
            }
        }
        proof {
            lemma_month_step(y as int, m as int);
        }
        r = r - month_days(y, m);
        m = m + 1;
    }
    (y, m, r + 1)
}


/// The days from 1970-01-01 to the date `y-m-d`.
pub fn days_from_civil(y: i64, m: i64, d: i64) -> (r: i64)
    requires
        -300_000 <= y <= 300_000,
        valid_date(y as int, m as int, d as int),
    ensures
        r == civil_day(y as int, m as int, d as int),
{
    let z = y + 400_000;
    proof {
        lemma_div_shift(y + 3, 4, 100_000);
        lemma_div_shift(y + 99, 100, 4000);
        lemma_div_shift(y + 399, 400, 1000);
    }
    let leaps = (z + 3) / 4 - (z + 99) / 100 + (z + 399) / 400 - 97_000;
    assert(leaps == leaps_before(y as int));
    let common: i64 = if m <= 1 {
        0
    } else if m == 2 {
        31
    } else if m == 3 {
        59
    } else if m == 4 {
        90
    } else if m == 5 {
        120
    } else if m == 6 {
        151
    } else if m == 7 {
        181
    } else if m == 8 {
        212
    } else if m == 9 {
        243
    } else if m == 10 {
        273
    } else if m == 11 {
        304
    } else {
        334
    };
    let before = common + if m > 2 && leap_year(y) { 1 } else { 0 };
    assert(before == days_before_month(y as int, m as int));
    365 * y + leaps + before + d - 1 - 719528
}

/// The first and last years the calendar here is used for.
pub proof fn lemma_year_bounds(y: int, m: int, d: int)
    requires
        -262143 <= y <= 262142,
        valid_date(y, m, d),
    ensures
        -96465292 <= civil_day(y, m, d) < 95026237,
{
    assert(civil_day(-262143, 1, 1) == -96465292);
    assert(civil_day(262143, 1, 1) == 95026237);
    lemma_date_in_year(y, m, d);
    if y > -262143 {
        lemma_years_ordered(-262143, y);
        lemma_year_step(-262143);
    }
    if y < 262142 {
        lemma_years_ordered(y, 262143);
    }
}

} // verus!
