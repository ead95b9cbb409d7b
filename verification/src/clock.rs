//! Unix timestamps as UTC calendar dates (`YYYY-MM-DD HH:MM`), for the
//! session log and note display.

use vstd::prelude::*;
use crate::text::{push_char, push_padded, zero_padded};

verus! {

/// A Gregorian leap year.
pub open spec fn is_leap(y: int) -> bool {
    y % 4 == 0 && (y % 100 != 0 || y % 400 == 0)
}

/// Days in year `y`.
pub open spec fn year_days(y: int) -> int {
    if is_leap(y) { 366 } else { 365 }
}

/// Days in the `n` years from `y` on.
pub open spec fn span(y: int, n: nat) -> int
    decreases n,
{
    if n == 0 {
        0
    } else {
        span(y, (n - 1) as nat) + year_days(y + n - 1)
    }
}

/// Days from 1970-01-01 to the start of year `y` (`y >= 1970`).
pub open spec fn days_before_year(y: int) -> int {
    span(1970, (y - 1970) as nat)
}

/// Days in month `m` (1-12) of year `y`.
pub open spec fn month_days(y: int, m: int) -> int {
    if m == 2 {
        if is_leap(y) { 29 } else { 28 }
    } else if m == 4 || m == 6 || m == 9 || m == 11 {
        30
    } else {
        31
    }
}

/// Days of year `y` before month `m` (1-13).
pub open spec fn days_before_month(y: int, m: int) -> int
    decreases m,
{
    if m <= 1 {
        0
    } else {
        days_before_month(y, m - 1) + month_days(y, m - 1)
    }
}

/// `(y, m, d)` is the date `days` days after 1970-01-01.
pub open spec fn is_civil(days: int, y: int, m: int, d: int) -> bool {
    &&& y >= 1970
    &&& 1 <= m <= 12
    &&& 1 <= d <= month_days(y, m)
    &&& days == days_before_year(y) + days_before_month(y, m) + d - 1
}

/// The date `days` (>= 0) days after 1970-01-01.
pub open spec fn civil_of(days: int) -> (int, int, int) {
    choose|c: (int, int, int)| is_civil(days, c.0, c.1, c.2)
}

proof fn lemma_span_split(y: int, a: nat, b: nat)
    ensures
        span(y, a + b) == span(y, a) + span(y + a, b),
    decreases b,
{
    if b > 0 {
        lemma_span_split(y, a, (b - 1) as nat);
    }
}

proof fn lemma_year_days_period(y: int)
    ensures
        year_days(y + 400) == year_days(y),
{
    assert((y + 400) % 4 == y % 4);
    assert((y + 400) % 100 == y % 100);
    assert((y + 400) % 400 == y % 400);
}

/// Day counts of the 25-year blocks of the first 400 years from 1970.
proof fn lemma_blocks_a()
    ensures
        span(1970, 25) == 9131,
        span(1995, 25) == 9131,
        span(2020, 25) == 9132,
        span(2045, 25) == 9131,
        span(2070, 25) == 9131,
        span(2095, 25) == 9130,
        span(2120, 25) == 9132,
        span(2145, 25) == 9131,
{
    assert(span(1970, 25) == 9131) by {
        reveal_with_fuel(span, 26);
    }
    assert(span(1995, 25) == 9131) by {
        reveal_with_fuel(span, 26);
    }
    assert(span(2020, 25) == 9132) by {
        reveal_with_fuel(span, 26);
    }
    assert(span(2045, 25) == 9131) by {
        reveal_with_fuel(span, 26);
    }
    assert(span(2070, 25) == 9131) by {
        reveal_with_fuel(span, 26);
    }
    assert(span(2095, 25) == 9130) by {
        reveal_with_fuel(span, 26);
    }
    assert(span(2120, 25) == 9132) by {
        reveal_with_fuel(span, 26);
    }
    assert(span(2145, 25) == 9131) by {
        reveal_with_fuel(span, 26);
    }
}

/// Day counts of the later 25-year blocks.
proof fn lemma_blocks_b()
    ensures
        span(2170, 25) == 9131,
        span(2195, 25) == 9130,
        span(2220, 25) == 9132,
        span(2245, 25) == 9131,
        span(2270, 25) == 9131,
        span(2295, 25) == 9130,
        span(2320, 25) == 9132,
        span(2345, 25) == 9131,
{
    assert(span(2170, 25) == 9131) by {
        reveal_with_fuel(span, 26);
    }
    assert(span(2195, 25) == 9130) by {
        reveal_with_fuel(span, 26);
    }
    assert(span(2220, 25) == 9132) by {
        reveal_with_fuel(span, 26);
    }
    assert(span(2245, 25) == 9131) by {
        reveal_with_fuel(span, 26);
    }
    assert(span(2270, 25) == 9131) by {
        reveal_with_fuel(span, 26);
    }
    assert(span(2295, 25) == 9130) by {
        reveal_with_fuel(span, 26);
    }
    assert(span(2320, 25) == 9132) by {
        reveal_with_fuel(span, 26);
    }
    assert(span(2345, 25) == 9131) by {
        reveal_with_fuel(span, 26);
    }
}

/// The 400 years from 1970 hold 146097 days.
proof fn lemma_first_cycle()
    ensures
        span(1970, 400) == 146097,
{
    lemma_blocks_a();
    lemma_blocks_b();
    lemma_span_split(1970, 25, 25);
    lemma_span_split(1970, 50, 25);
    lemma_span_split(1970, 75, 25);
    lemma_span_split(1970, 100, 25);
    lemma_span_split(1970, 125, 25);
    lemma_span_split(1970, 150, 25);
    lemma_span_split(1970, 175, 25);
    lemma_span_split(1970, 200, 25);
    lemma_span_split(1970, 225, 25);
    lemma_span_split(1970, 250, 25);
    lemma_span_split(1970, 275, 25);
    lemma_span_split(1970, 300, 25);
    lemma_span_split(1970, 325, 25);
    lemma_span_split(1970, 350, 25);
    lemma_span_split(1970, 375, 25);
}

proof fn lemma_span_400(y: int)
    requires
        y >= 1970,
    ensures
        span(y, 400) == 146097,
    decreases y - 1970,
{
    if y == 1970 {
        lemma_first_cycle();
    } else {
        lemma_span_400(y - 1);
        lemma_span_split(y - 1, 1, 400);
        lemma_span_split(y - 1, 400, 1);
        lemma_year_days_period(y - 1);
        assert(span(y - 1, 1) == year_days(y - 1)) by {
            reveal_with_fuel(span, 2);
        }
        assert(span(y + 399, 1) == year_days(y + 399)) by {
            reveal_with_fuel(span, 2);
        }
    }
}

proof fn lemma_cycles(q: nat)
    ensures
        days_before_year(1970 + 400 * q as int) == 146097 * q,
    decreases q,
{
    if q > 0 {
        lemma_cycles((q - 1) as nat);
        lemma_span_split(1970, (400 * (q - 1)) as nat, 400);
        lemma_span_400(1970 + 400 * (q - 1));
        assert(400 * (q - 1) + 400 == 400 * q);
    }
}

proof fn lemma_year_step(y: int)
    requires
        y >= 1970,
    ensures
        days_before_year(y + 1) == days_before_year(y) + year_days(y),
{
    assert((y + 1 - 1970) as nat == ((y - 1970) as nat + 1) as nat);
}

proof fn lemma_months_fill_year(y: int)
    ensures
        days_before_month(y, 13) == year_days(y),
{
    reveal_with_fuel(days_before_month, 13);
}

proof fn lemma_before_year_mono(a: int, b: int)
    requires
        1970 <= a <= b,
    ensures
        days_before_year(a) + (b - a) * 365 <= days_before_year(b),
    decreases b - a,
{
    if a < b {
        lemma_before_year_mono(a, b - 1);
        lemma_year_step(b - 1);
    }
}

proof fn lemma_before_month_mono(y: int, a: int, b: int)
    requires
        1 <= a <= b <= 13,
    ensures
        days_before_month(y, a) + (b - a) * 28 <= days_before_month(y, b),
    decreases b - a,
{
    if a < b {
        lemma_before_month_mono(y, a, b - 1);
    }
}

/// A date's day count lies within its year and its month.
proof fn lemma_in_year(days: int, y: int, m: int, d: int)
    requires
        is_civil(days, y, m, d),
    ensures
        days_before_year(y) <= days < days_before_year(y + 1),
        days_before_year(y) + days_before_month(y, m) <= days < days_before_year(y) + days_before_month(y, m + 1),
{
    lemma_months_fill_year(y);
    lemma_before_month_mono(y, m + 1, 13);
    lemma_before_month_mono(y, 1, m);
    assert(days_before_month(y, m + 1) == days_before_month(y, m) + month_days(y, m));
    lemma_year_step(y);
}

/// A day count names one date.
pub proof fn lemma_civil_unique(days: int, y1: int, m1: int, d1: int, y2: int, m2: int, d2: int)
    requires
        is_civil(days, y1, m1, d1),
        is_civil(days, y2, m2, d2),
    ensures
        y1 == y2 && m1 == m2 && d1 == d2,
{
    lemma_in_year(days, y1, m1, d1);
    lemma_in_year(days, y2, m2, d2);
    if y1 < y2 {
        lemma_before_year_mono(y1 + 1, y2);
    } else if y2 < y1 {
        lemma_before_year_mono(y2 + 1, y1);
    }
    assert(y1 == y2);
    if m1 < m2 {
        lemma_before_month_mono(y1, m1 + 1, m2);
    } else if m2 < m1 {
        lemma_before_month_mono(y1, m2 + 1, m1);
    }
}

fn leap(y: u64) -> (b: bool)
    ensures
        b == is_leap(y as int),
{
    y % 4 == 0 && (y % 100 != 0 || y % 400 == 0)
}

fn days_in_month(y: u64, m: u64) -> (r: u64)
    ensures
        r == month_days(y as int, m as int),
{
    if m == 2 {
        if leap(y) { 29 } else { 28 }
    } else if m == 4 || m == 6 || m == 9 || m == 11 {
        30
    } else {
        31
    }
}

/// The calendar date `days` days after 1970-01-01.
fn civil_from_days(days: u64) -> (r: (u64, u64, u64))
    ensures
        is_civil(days as int, r.0 as int, r.1 as int, r.2 as int),
        (r.0 as int, r.1 as int, r.2 as int) == civil_of(days as int),
{
    let q = days / 146097;
    let mut rem = days % 146097;
    proof {
        lemma_cycles(q as nat);
    }
    assert(400 * q <= 400 * (u64::MAX / 146097)) by (nonlinear_arith)
        requires
            q == days / 146097,
    ;
    let mut y: u64 = 1970 + 400 * q;
    let ghost y0 = y as int;
    assert(y0 + 400 <= u64::MAX);
    proof {
        lemma_span_400(y0);
    }
    let mut yd: u64 = if leap(y) { 366 } else { 365 };
    while rem >= yd
        invariant
            yd == year_days(y as int),
            y0 == 1970 + 400 * q,
            y0 + 400 <= u64::MAX,
            y0 <= y <= y0 + 400,
            days == days_before_year(y as int) + rem,
            days_before_year(y as int) + rem < days_before_year(y0) + 146097,
            span(y0, 400) == 146097,
            days_before_year(y0) == 146097 * q,
        decreases rem,
    {
        proof {
            lemma_year_step(y as int);
            if y == y0 + 400 {
                lemma_span_split(1970, (y0 - 1970) as nat, 400);
                assert(false);
            }
        }
        rem = rem - yd;
        y = y + 1;
        yd = if leap(y) { 366 } else { 365 };
    }
    proof {
        lemma_months_fill_year(y as int);
    }
    let mut m: u64 = 1;
    while rem >= days_in_month(y, m)
        invariant
            1 <= m <= 12,
            days == days_before_year(y as int) + days_before_month(y as int, m as int) + rem,
            days_before_month(y as int, m as int) + rem < year_days(y as int),
            days_before_month(y as int, 13) == year_days(y as int),
        decreases 12 - m,
    {
        proof {
            if m == 12 {
                assert(days_before_month(y as int, 13) == days_before_month(y as int, 12) + month_days(y as int, 12));
                assert(false);
            }
        }
        rem = rem - days_in_month(y, m);
        m = m + 1;
    }
    let d = rem + 1;
    proof {
        let w = (y as int, m as int, d as int);
        assert(is_civil(days as int, w.0, w.1, w.2));
        let c = civil_of(days as int);
        assert(is_civil(days as int, c.0, c.1, c.2));
        lemma_civil_unique(days as int, y as int, m as int, d as int, c.0, c.1, c.2);
    }
    (y, m, d)
}

/// The text of a timestamp: `YYYY-MM-DD HH:MM` (UTC).
pub open spec fn utc_text(secs: int) -> Seq<char> {
    let c = civil_of(secs / 86400);
    let sod = secs % 86400;
    zero_padded(c.0 as nat, 4) + seq!['-'] + zero_padded(c.1 as nat, 2) + seq!['-'] + zero_padded(c.2 as nat, 2)
        + seq![' '] + zero_padded((sod / 3600) as nat, 2) + seq![':'] + zero_padded(((sod % 3600) / 60) as nat, 2)
}

fn format_utc(secs: u64) -> (r: String)
    ensures
        r@ == utc_text(secs as int),
{
    let days = secs / 86400;
    let sod = secs % 86400;
    let (y, m, d) = civil_from_days(days);
    let mut s = String::new();
    push_padded(&mut s, y, 4);
    push_char(&mut s, '-');
    push_padded(&mut s, m, 2);
    push_char(&mut s, '-');
    push_padded(&mut s, d, 2);
    push_char(&mut s, ' ');
    push_padded(&mut s, sod / 3600, 2);
    push_char(&mut s, ':');
    push_padded(&mut s, (sod % 3600) / 60, 2);
    s
}

/// Render a unix timestamp as `YYYY-MM-DD HH:MM` (UTC) for the session
/// log and note display.
pub fn fmt_ts(secs: u64) -> (r: String)
    ensures
        r@ == utc_text(secs as int),
{
    format_utc(secs)
}

/// Format a Unix timestamp (seconds since epoch, UTC) as
/// `YYYY-MM-DD HH:MM` for the Campaign tab footer.
pub fn fmt_unix(secs: u64) -> (r: String)
    ensures
        r@ == utc_text(secs as int),
{
    format_utc(secs)
}

/// The Gregorian months: 31 days in January, March, May, July, August,
/// October and December, 30 in April, June, September and November, and
/// February 29 days in a leap year, else 28; together the twelve months
/// make up the year, 366 days in a leap year and 365 otherwise.
pub proof fn lemma_gregorian_months(y: int)
    ensures
        month_days(y, 1) == 31,
        month_days(y, 2) == (if is_leap(y) { 29int } else { 28int }),
        month_days(y, 3) == 31,
        month_days(y, 4) == 30,
        month_days(y, 5) == 31,
        month_days(y, 6) == 30,
        month_days(y, 7) == 31,
        month_days(y, 8) == 31,
        month_days(y, 9) == 30,
        month_days(y, 10) == 31,
        month_days(y, 11) == 30,
        month_days(y, 12) == 31,
        days_before_month(y, 13) == year_days(y),
        year_days(y) == (if is_leap(y) { 366int } else { 365int }),
{
    reveal_with_fuel(days_before_month, 13);
}

/// The leap years: every fourth year, but not a century year unless it
/// is a multiple of 400 (so 2000 was a leap year and 1900 was not).
pub proof fn lemma_leap_rule(y: int)
    ensures
        y % 4 != 0 ==> !is_leap(y),
        y % 4 == 0 && y % 100 != 0 ==> is_leap(y),
        y % 100 == 0 && y % 400 != 0 ==> !is_leap(y),
        y % 400 == 0 ==> is_leap(y),
{
    if y % 400 == 0 {
        assert(y % 4 == 0) by (nonlinear_arith)
            requires
                y % 400 == 0,
        ;
    }
}

} // verus!
