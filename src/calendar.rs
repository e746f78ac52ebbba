//! UTC civil calendar (proleptic Gregorian) for Unix timestamps.
use vstd::prelude::*;
use vstd::string::StringExecFns;

verus! {

pub const SECONDS_PER_DAY: i64 = 86400;

pub open spec fn is_leap(y: int) -> bool {
    y % 400 == 0 || (y % 4 == 0 && y % 100 != 0)
}

pub open spec fn year_len(y: int) -> int {
    if is_leap(y) {
        366
    } else {
        365
    }
}

pub open spec fn month_len(y: int, m: int) -> int {
    if m == 2 {
        if is_leap(y) {
            29
        } else {
            28
        }
    } else if m == 4 || m == 6 || m == 9 || m == 11 {
        30
    } else {
        31
    }
}

/// Days from 1970-01-01 to the first of January of year `y` (negative before 1970).
pub open spec fn days_to_year(y: int) -> int
    decreases (if y >= 1970 { y - 1970 } else { 1970 - y }),
{
    if y == 1970 {
        0
    } else if y > 1970 {
        days_to_year(y - 1) + year_len(y - 1)
    } else {
        days_to_year(y + 1) - year_len(y)
    }
}

/// Days from the first of January of year `y` to the first day of month `m`.
pub open spec fn days_to_month(y: int, m: int) -> int
    decreases m,
{
    if m <= 1 {
        0
    } else {
        days_to_month(y, m - 1) + month_len(y, m - 1)
    }
}

pub open spec fn valid_date(y: int, m: int, d: int) -> bool {
    1 <= m <= 12 && 1 <= d <= month_len(y, m)
}

/// Days from 1970-01-01 to the date `y-m-d`.
pub open spec fn day_number(y: int, m: int, d: int) -> int {
    days_to_year(y) + days_to_month(y, m) + d - 1
}

/// The day, counted from 1970-01-01, on which the timestamp `t` falls.
pub open spec fn day_index(t: int) -> int {
    t / (SECONDS_PER_DAY as int)
}

/// Decimal digits of a natural number, most significant first.
pub open spec fn digits(n: nat) -> Seq<char>
    decreases n,
{
    if n < 10 {
        seq![seq!['0', '1', '2', '3', '4', '5', '6', '7', '8', '9'][n as int]]
    } else {
        digits(n / 10).push(seq!['0', '1', '2', '3', '4', '5', '6', '7', '8', '9'][(n % 10) as int])
    }
}

/// An integer written in decimal, with a leading `-` when negative.
pub open spec fn decimal(n: int) -> Seq<char> {
    if n < 0 {
        seq!['-'] + digits((-n) as nat)
    } else {
        digits(n as nat)
    }
}

/// The text `day/month/year`.
pub open spec fn date_text(y: int, m: int, d: int) -> Seq<char> {
    decimal(d) + seq!['/'] + decimal(m) + seq!['/'] + decimal(y)
}

/// A calendar date: year, month (1 to 12) and day of the month (from 1).
#[derive(Clone, Copy, Debug, PartialEq, Eq, Structural)]
pub struct CivilDate {
    pub year: i64,
    pub month: u32,
    pub day: u32,
}

pub proof fn lemma_year_step(y: int)
    ensures
        days_to_year(y + 1) == days_to_year(y) + year_len(y),
{
    if y >= 1970 {
        assert(days_to_year(y + 1) == days_to_year(y) + year_len(y));
    } else {
        assert(days_to_year(y) == days_to_year(y + 1) - year_len(y));
    }
}

proof fn lemma_days_to_year_growth(y: int)
    ensures
        y >= 1970 ==> days_to_year(y) >= 365 * (y - 1970),
        y <= 1970 ==> days_to_year(y) <= 365 * (y - 1970),
    decreases (if y >= 1970 { y - 1970 } else { 1970 - y }),
{
    if y > 1970 {
        lemma_days_to_year_growth(y - 1);
    } else if y < 1970 {
        lemma_days_to_year_growth(y + 1);
    }
}

proof fn lemma_days_to_year_monotone(a: int, b: int)
    requires
        a <= b,
    ensures
        days_to_year(a) <= days_to_year(b),
    decreases b - a,
{
    if a < b {
        lemma_year_step(a);
        lemma_days_to_year_monotone(a + 1, b);
    }
}

proof fn lemma_whole_year(y: int)
    ensures
        days_to_month(y, 13) == year_len(y),
{
    reveal_with_fuel(days_to_month, 13);
}

proof fn lemma_days_to_month_monotone(y: int, a: int, b: int)
    requires
        1 <= a <= b,
    ensures
        days_to_month(y, a) <= days_to_month(y, b),
    decreases b - a,
{
    if a < b {
        lemma_days_to_month_monotone(y, a, b - 1);
    }
}

/// A valid date falls inside its year and inside its month.
proof fn lemma_date_bounds(y: int, m: int, d: int)
    requires
        valid_date(y, m, d),
    ensures
        days_to_year(y) <= day_number(y, m, d) < days_to_year(y + 1),
        days_to_month(y, m) <= days_to_month(y, m) + d - 1 < days_to_month(y, m + 1),
{
    lemma_year_step(y);
    lemma_whole_year(y);
    assert(days_to_month(y, m + 1) == days_to_month(y, m) + month_len(y, m));
    lemma_days_to_month_monotone(y, m + 1, 13);
    lemma_days_to_month_monotone(y, 1, m);
}

/// Distinct valid dates have distinct day numbers.
pub proof fn lemma_day_number_injective(y1: int, m1: int, d1: int, y2: int, m2: int, d2: int)
    requires
        valid_date(y1, m1, d1),
        valid_date(y2, m2, d2),
        day_number(y1, m1, d1) == day_number(y2, m2, d2),
    ensures
        y1 == y2 && m1 == m2 && d1 == d2,
{
    lemma_date_bounds(y1, m1, d1);
    lemma_date_bounds(y2, m2, d2);
    if y1 < y2 {
        lemma_days_to_year_monotone(y1 + 1, y2);
    } else if y2 < y1 {
        lemma_days_to_year_monotone(y2 + 1, y1);
    }
    assert(y1 == y2);
    if m1 < m2 {
        lemma_days_to_month_monotone(y1, m1 + 1, m2);
    } else if m2 < m1 {
        lemma_days_to_month_monotone(y1, m2 + 1, m1);
    }
}

fn is_leap_year(y: i64) -> (r: bool)
    ensures
        r == is_leap(y as int),
{
    // Shift by a multiple of 400 so that the remainders are taken of a non-negative number.
    let u: u128 = (y as i128 + 14411518807585587200i128) as u128;
    proof {
        let k: int = 36028797018963968;
        assert(u as int == 400 * k + y);
        vstd::arithmetic::div_mod::lemma_mod_multiples_vanish(k, y as int, 400);
        assert(u as int == 4 * (100 * k) + y);
        vstd::arithmetic::div_mod::lemma_mod_multiples_vanish(100 * k, y as int, 4);
        assert(u as int == 100 * (4 * k) + y);
        vstd::arithmetic::div_mod::lemma_mod_multiples_vanish(4 * k, y as int, 100);
    }
    u % 400 == 0 || (u % 4 == 0 && u % 100 != 0)
}

fn days_in_year(y: i64) -> (r: i64)
    ensures
        r == year_len(y as int),
{
    if is_leap_year(y) {
        366
    } else {
        365
    }
}

fn days_in_month(y: i64, m: u32) -> (r: i64)
    ensures
        r == month_len(y as int, m as int),
{
    if m == 2 {
        if is_leap_year(y) {
            29
        } else {
            28
        }
    } else if m == 4 || m == 6 || m == 9 || m == 11 {
        30
    } else {
        31
    }
}

/// The day, counted from 1970-01-01, on which the timestamp falls.
fn day_of(seconds: i64) -> (r: i64)
    ensures
        r == day_index(seconds as int),
{
    if seconds >= 0 {
        seconds / SECONDS_PER_DAY
    } else {
        let q = (-(seconds + 1)) / SECONDS_PER_DAY;
        proof {
            let s = seconds as int;
            let n = -(s + 1);
            assert(n == q * 86400 + n % 86400) by (nonlinear_arith)
                requires n >= 0, q == n / 86400;
            assert(s == (-q - 1) * 86400 + (86400 - 1 - n % 86400)) by (nonlinear_arith)
                requires n == q * 86400 + n % 86400, n == -(s + 1);
            vstd::arithmetic::div_mod::lemma_fundamental_div_mod_converse(
                s, 86400, -q - 1, 86400 - 1 - n % 86400);
        }
        -q - 1
    }
}

/// The UTC calendar date on which a Unix timestamp falls.
pub fn civil_date(seconds: i64) -> (r: CivilDate)
    ensures
        valid_date(r.year as int, r.month as int, r.day as int),
        day_number(r.year as int, r.month as int, r.day as int) == day_index(seconds as int),
{
    let days = day_of(seconds);
    assert(-106751991167301 <= days <= 106751991167300);
    let mut year: i64 = 1970;
    let mut rem: i64 = days;
    if rem >= 0 {
        while rem >= days_in_year(year)
            invariant
                days_to_year(year as int) + rem == days,
                0 <= rem <= days,
                1970 <= year,
                days <= 106751991167300,
            decreases rem,
        {
            proof {
                lemma_year_step(year as int);
                lemma_days_to_year_growth(year as int);
            }
            rem = rem - days_in_year(year);
            year = year + 1;
        }
    } else {
        while rem < 0
            invariant
                days_to_year(year as int) + rem == days,
                days <= rem < year_len(year as int),
                year <= 1970,
                -106751991167301 <= days,
            decreases 366 - rem,
        {
            proof {
                lemma_year_step(year as int - 1);
                lemma_days_to_year_growth(year as int);
            }
            year = year - 1;
            rem = rem + days_in_year(year);
        }
    }
    assert(0 <= rem < year_len(year as int));
    let ghost doy = rem;
    let mut month: u32 = 1;
    while rem >= days_in_month(year, month)
        invariant
            days_to_month(year as int, month as int) + rem == doy,
            0 <= doy < year_len(year as int),
            0 <= rem,
            1 <= month <= 12,
        decreases rem,
    {
        proof {
            lemma_whole_year(year as int);
            if month == 12 {
                assert(days_to_month(year as int, 13) == days_to_month(year as int, 12) + month_len(year as int, 12));
            }
        }
        rem = rem - days_in_month(year, month);
        month = month + 1;
    }
    CivilDate { year, month, day: (rem + 1) as u32 }
}

/// Whether two Unix timestamps fall on the same UTC calendar day.
pub fn same_day(day1: i64, day2: i64) -> (r: bool)
    ensures
        r == (day_index(day1 as int) == day_index(day2 as int)),
{
    let date1 = civil_date(day1);
    let date2 = civil_date(day2);
    proof {
        if day_index(day1 as int) == day_index(day2 as int) {
            lemma_day_number_injective(
                date1.year as int, date1.month as int, date1.day as int,
                date2.year as int, date2.month as int, date2.day as int,
            );
        }
    }
    date1 == date2
}

/// Relies on `<u32 as ToString>::to_string`: the number in decimal.
#[verifier::external_body]
fn u32_text(n: u32) -> (r: String)
    ensures
        r@ == decimal(n as int),
{
    n.to_string()
}

/// Relies on `<i64 as ToString>::to_string`: the number in decimal, with a leading
/// `-` when negative.
#[verifier::external_body]
fn i64_text(n: i64) -> (r: String)
    ensures
        r@ == decimal(n as int),
{
    n.to_string()
}

/// The text `day/month/year`.
fn format_date(day: u32, month: u32, year: i64) -> (r: String)
    ensures
        r@ == date_text(year as int, month as int, day as int),
{
    let mut text = u32_text(day);
    text.append("/");
    let m = u32_text(month);
    text.append(m.as_str());
    text.append("/");
    let y = i64_text(year);
    text.append(y.as_str());
    proof {
        reveal_strlit("/");
    }
    assert(text@ =~= date_text(year as int, month as int, day as int));
    text
}

/// The UTC calendar date of a Unix timestamp, written `day/month/year`.
pub fn unix_time_to_human_readable(seconds: i64) -> (r: String)
    ensures
        exists|y: int, m: int, d: int|
            valid_date(y, m, d) && day_number(y, m, d) == day_index(seconds as int)
                && r@ == date_text(y, m, d),
{
    let date = civil_date(seconds);
    format_date(date.day, date.month, date.year)
}

} // verus!
