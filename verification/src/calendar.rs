//! The proleptic Gregorian calendar in UTC: the date of a day counted from 1970-01-01.

use vstd::prelude::*;

verus! {

/// Days in a 400-year Gregorian cycle.
pub const CYCLE_DAYS: u128 = 146097;

pub open spec fn is_leap(y: int) -> bool {
    y % 4 == 0 && (y % 100 != 0 || y % 400 == 0)
}

pub open spec fn year_len(y: int) -> nat {
    if is_leap(y) {
        366
    } else {
        365
    }
}

/// Days in month `m` (1 to 12) of year `y`.
pub open spec fn month_len(y: int, m: int) -> nat {
    if m == 2 {
        if is_leap(y) {
            29
        } else {
            28
        }
    } else if m == 4 || m == 6 || m == 9 || m == 11 {
        30
    } else {
        31
    }
}

/// Starting `d` days into year `y`, the year reached and the day within it (from 0).
pub open spec fn year_walk(d: nat, y: int) -> (int, nat)
    decreases d,
{
    if d < year_len(y) {
        (y, d)
    } else {
        year_walk((d - year_len(y)) as nat, y + 1)
    }
}

/// Starting `d` days into month `m` of year `y`, the month reached and the day within
/// it (from 0); December takes what is left.
pub open spec fn month_walk(d: nat, y: int, m: int) -> (int, nat)
    decreases 12 - m,
{
    if m >= 12 || d < month_len(y, m) {
        (m, d)
    } else {
        month_walk((d - month_len(y, m)) as nat, y, m + 1)
    }
}

/// The (year, month, day) of the day `days` days after 1970-01-01.
pub open spec fn civil_date(days: nat) -> (int, int, int) {
    let (y, doy) = year_walk(days, 1970);
    let (m, d) = month_walk(doy, y, 1);
    (y, m, d + 1int)
}

/// The days of the `n` years starting at `y`.
pub open spec fn years_span(y: int, n: nat) -> nat
    decreases n,
{
    if n == 0 {
        0
    } else {
        year_len(y) + years_span(y + 1, (n - 1) as nat)
    }
}

proof fn lemma_walk_span(d: nat, y: int, n: nat)
    ensures
        year_walk(d + years_span(y, n), y) == year_walk(d, y + n),
    decreases n,
{
    if n > 0 {
        lemma_walk_span(d, y + 1, (n - 1) as nat);
        assert((d + years_span(y, n) - year_len(y)) as nat == d + years_span(y + 1, (n - 1) as nat));
    }
}

spec fn leaps_through(n: int) -> int {
    n / 4 - n / 100 + n / 400
}

proof fn lemma_div_step(x: int, k: int)
    requires
        k > 0,
    ensures
        x / k - (x - 1) / k == if x % k == 0 { 1int } else { 0int },
{
    vstd::arithmetic::div_mod::lemma_fundamental_div_mod(x, k);
    vstd::arithmetic::div_mod::lemma_fundamental_div_mod(x - 1, k);
    let q = x / k;
    let r = x % k;
    assert(x == q * k + r) by (nonlinear_arith)
        requires
            x == k * (x / k) + x % k,
            q == x / k,
            r == x % k,
    ;
    if r == 0 {
        assert(x - 1 == (q - 1) * k + (k - 1)) by (nonlinear_arith)
            requires
                x == q * k + r,
                r == 0,
        ;
        vstd::arithmetic::div_mod::lemma_fundamental_div_mod_converse(x - 1, k, q - 1, k - 1);
    } else {
        vstd::arithmetic::div_mod::lemma_fundamental_div_mod_converse(x - 1, k, q, r - 1);
    }
}

proof fn lemma_year_len_leaps(x: int)
    ensures
        year_len(x) == 365 + leaps_through(x) - leaps_through(x - 1),
{
    lemma_div_step(x, 4);
    lemma_div_step(x, 100);
    lemma_div_step(x, 400);
    assert(x % 400 == 0 ==> x % 100 == 0 && x % 4 == 0) by {
        vstd::arithmetic::div_mod::lemma_fundamental_div_mod(x, 400);
        vstd::arithmetic::div_mod::lemma_fundamental_div_mod(x, 100);
        if x % 400 == 0 {
            vstd::arithmetic::div_mod::lemma_fundamental_div_mod_converse(x, 100, 4 * (x / 400), 0);
            vstd::arithmetic::div_mod::lemma_fundamental_div_mod_converse(x, 4, 100 * (x / 400), 0);
        }
    }
    assert(x % 100 == 0 ==> x % 4 == 0) by {
        vstd::arithmetic::div_mod::lemma_fundamental_div_mod(x, 100);
        if x % 100 == 0 {
            vstd::arithmetic::div_mod::lemma_fundamental_div_mod_converse(x, 4, 25 * (x / 100), 0);
        }
    }
}

proof fn lemma_span_leaps(y: int, n: nat)
    ensures
        years_span(y, n) == 365 * n + leaps_through(y + n - 1) - leaps_through(y - 1),
    decreases n,
{
    if n > 0 {
        lemma_span_leaps(y + 1, (n - 1) as nat);
        lemma_year_len_leaps(y);
    }
}

proof fn lemma_cycle(y: int)
    ensures
        years_span(y, 400) == CYCLE_DAYS,
{
    lemma_span_leaps(y, 400);
    assert((y + 399) / 4 == (y - 1) / 4 + 100);
    assert((y + 399) / 100 == (y - 1) / 100 + 4);
    assert((y + 399) / 400 == (y - 1) / 400 + 1);
}

/// Whole 400-year cycles can be skipped: they hold the same number of days wherever they start.
proof fn lemma_walk_cycles(r: nat, q: nat, y: int)
    ensures
        year_walk((r + q * CYCLE_DAYS) as nat, y) == year_walk(r, y + 400 * q),
    decreases q,
{
    if q > 0 {
        lemma_walk_cycles(r, (q - 1) as nat, y + 400);
        lemma_cycle(y);
        lemma_walk_span((r + (q - 1) * CYCLE_DAYS) as nat, y, 400);
        assert(r + q * CYCLE_DAYS == (r + (q - 1) * CYCLE_DAYS) + CYCLE_DAYS) by (nonlinear_arith)
            requires q > 0;
    }
}

pub fn leap_year(y: u128) -> (b: bool)
    ensures
        b == is_leap(y as int),
{
    y % 4 == 0 && (y % 100 != 0 || y % 400 == 0)
}

fn year_length(y: u128) -> (n: u128)
    ensures
        n == year_len(y as int),
{
    if leap_year(y) {
        366
    } else {
        365
    }
}

fn month_length(y: u128, m: u128) -> (n: u128)
    ensures
        n == month_len(y as int, m as int),
{
    if m == 2 {
        if leap_year(y) {
            29
        } else {
            28
        }
    } else if m == 4 || m == 6 || m == 9 || m == 11 {
        30
    } else {
        31
    }
}

/// The Gregorian (year, month, day) of the day `days` days after 1970-01-01.
pub fn date_of_day(days: u128) -> (r: (u128, u128, u128))
    ensures
        (r.0 as int, r.1 as int, r.2 as int) == civil_date(days as nat),
{
    let q = days / CYCLE_DAYS;
    let mut r = days % CYCLE_DAYS;
    let mut y: u128 = 1970 + 400 * q;
    proof {
        lemma_walk_cycles(r as nat, q as nat, 1970);
        assert(days == r + q * CYCLE_DAYS);
    }
    while r >= year_length(y)
        invariant
            year_walk(days as nat, 1970) == year_walk(r as nat, y as int),
            y + r <= 1970 + 400 * q + CYCLE_DAYS,
            q == days / CYCLE_DAYS,
        decreases r,
    {
        let len = year_length(y);
        r = r - len;
        y = y + 1;
    }
    let ghost doy = r;
    let mut m: u128 = 1;
    while m < 12 && r >= month_length(y, m)
        invariant
            1 <= m <= 12,
            r <= doy,
            month_walk(doy as nat, y as int, 1) == month_walk(r as nat, y as int, m as int),
        decreases 12 - m,
    {
        let len = month_length(y, m);
        r = r - len;
        m = m + 1;
    }
    (y, m, r + 1)
}


/// Dates in calendar order: by year, then month, then day.
pub open spec fn date_le(a: (int, int, int), b: (int, int, int)) -> bool {
    a.0 < b.0 || (a.0 == b.0 && (a.1 < b.1 || (a.1 == b.1 && a.2 <= b.2)))
}

proof fn lemma_year_walk_next(d: nat, y0: int)
    ensures
        ({
            let (y, r) = year_walk(d, y0);
            year_walk(d + 1, y0) == if r + 1 < year_len(y) {
                (y, (r + 1) as nat)
            } else {
                (y + 1, 0nat)
            }
        }),
    decreases d,
{
    if d >= year_len(y0) {
        lemma_year_walk_next((d - year_len(y0)) as nat, y0 + 1);
        assert((d + 1 - year_len(y0)) as nat == (d - year_len(y0)) as nat + 1);
        assert(year_walk(d + 1, y0) == year_walk(((d + 1) - year_len(y0)) as nat, y0 + 1));
    } else if d + 1 == year_len(y0) {
        assert(year_walk(0, y0 + 1) == (y0 + 1, 0nat));
        assert(year_walk(d + 1, y0) == year_walk(0, y0 + 1));
    }
}

proof fn lemma_month_walk_next(r: nat, y: int, m0: int)
    ensures
        ({
            let (m1, d1) = month_walk(r, y, m0);
            let (m2, d2) = month_walk(r + 1, y, m0);
            m1 < m2 || (m1 == m2 && d1 < d2)
        }),
    decreases 12 - m0,
{
    if m0 < 12 && r >= month_len(y, m0) {
        lemma_month_walk_next((r - month_len(y, m0)) as nat, y, m0 + 1);
        assert((r + 1 - month_len(y, m0)) as nat == (r - month_len(y, m0)) as nat + 1);
        assert(month_walk(r + 1, y, m0) == month_walk(((r + 1) - month_len(y, m0)) as nat, y, m0 + 1));
    } else if m0 < 12 && r + 1 == month_len(y, m0) {
        assert(month_walk(0, y, m0 + 1) == (m0 + 1, 0nat));
        assert(month_walk(r + 1, y, m0) == month_walk(0, y, m0 + 1));
    }
}

proof fn lemma_civil_date_next(days: nat)
    ensures
        date_le(civil_date(days), civil_date(days + 1)),
{
    lemma_year_walk_next(days, 1970);
    let (y, r) = year_walk(days, 1970);
    if r + 1 < year_len(y) {
        lemma_month_walk_next(r, y, 1);
    }
}

/// A later day never has an earlier date.
pub proof fn law_civil_date_monotone(a: nat, b: nat)
    requires
        a <= b,
    ensures
        date_le(civil_date(a), civil_date(b)),
    decreases b - a,
{
    if a < b {
        law_civil_date_monotone(a, (b - 1) as nat);
        lemma_civil_date_next((b - 1) as nat);
    }
}


/// The days from the start of month `m0` of year `y` to the end of that year.
spec fn days_from_month(y: int, m0: int) -> int
    decreases 12 - m0,
{
    if m0 >= 12 {
        31
    } else {
        month_len(y, m0) + days_from_month(y, m0 + 1)
    }
}

proof fn lemma_days_from_january(y: int)
    ensures
        days_from_month(y, 1) == year_len(y),
{
    assert(days_from_month(y, 12) == 31);
    assert(days_from_month(y, 11) == 61);
    assert(days_from_month(y, 10) == 92);
    assert(days_from_month(y, 9) == 122);
    assert(days_from_month(y, 8) == 153);
    assert(days_from_month(y, 7) == 184);
    assert(days_from_month(y, 6) == 214);
    assert(days_from_month(y, 5) == 245);
    assert(days_from_month(y, 4) == 275);
    assert(days_from_month(y, 3) == 306);
    assert(days_from_month(y, 2) == month_len(y, 2) + 306);
}

proof fn lemma_year_walk_bound(d: nat, y0: int)
    ensures
        year_walk(d, y0).0 >= y0,
        year_walk(d, y0).1 < year_len(year_walk(d, y0).0),
    decreases d,
{
    if d >= year_len(y0) {
        lemma_year_walk_bound((d - year_len(y0)) as nat, y0 + 1);
    }
}

proof fn lemma_month_walk_bound(r: nat, y: int, m0: int)
    requires
        1 <= m0 <= 12,
        r < days_from_month(y, m0),
    ensures
        m0 <= month_walk(r, y, m0).0 <= 12,
        month_walk(r, y, m0).1 < month_len(y, month_walk(r, y, m0).0),
    decreases 12 - m0,
{
    if m0 < 12 && r >= month_len(y, m0) {
        lemma_month_walk_bound((r - month_len(y, m0)) as nat, y, m0 + 1);
    }
}

/// A date's year is 1970 or later, its month is 1 to 12 and its day 1 to 31.
pub proof fn lemma_civil_date_ranges(days: nat)
    ensures
        civil_date(days).0 >= 1970,
        1 <= civil_date(days).1 <= 12,
        1 <= civil_date(days).2 <= 31,
{
    lemma_year_walk_bound(days, 1970);
    let (y, doy) = year_walk(days, 1970);
    lemma_days_from_january(y);
    lemma_month_walk_bound(doy, y, 1);
}

} // verus!
