//! The proleptic Gregorian calendar over day numbers counted from 1970-01-01.

use vstd::arithmetic::div_mod::{
    lemma_fundamental_div_mod_converse, lemma_mod_mod, lemma_mod_multiples_vanish,
};
use vstd::prelude::*;

verus! {

/// Seconds in one civil day.
pub const SECONDS_PER_DAY: i64 = 86400;

/// Days in a full cycle of 400 Gregorian years.
pub const DAYS_PER_ERA: i128 = 146097;

/// Days from 1601-01-01 to 1970-01-01.
pub const DAYS_1601_TO_1970: i128 = 134774;

/// Number of 400-year cycles by which a day number is moved forward so that
/// every `i64` day number becomes non-negative before it is divided.
pub const ERA_SHIFT: i128 = 64_000_000_000_000;

/// Number of 400-year cycles by which a year is moved forward so that every
/// `i64` year becomes non-negative before it is divided.
pub const YEAR_SHIFT: i128 = 24_000_000_000_000_000;

/// Whether `y` is a leap year.
pub open spec fn is_leap_year(y: int) -> bool {
    y % 4 == 0 && (y % 100 != 0 || y % 400 == 0)
}

/// Number of days in year `y`.
pub open spec fn year_length(y: int) -> int {
    if is_leap_year(y) {
        366
    } else {
        365
    }
}

/// Number of leap years among the years `1 ..= y - 1`, continued to every
/// integer `y` by the same formula.
pub open spec fn leap_years_before(y: int) -> int {
    (y - 1) / 4 - (y - 1) / 100 + (y - 1) / 400
}

/// Day number of the first of January of year `y`.
pub open spec fn year_first_day(y: int) -> int {
    365 * (y - 1970) + leap_years_before(y) - leap_years_before(1970)
}

/// Number of days in month `m` (1 to 12) of year `y`.
pub open spec fn month_length(y: int, m: int) -> int {
    if m == 2 {
        if is_leap_year(y) {
            29
        } else {
            28
        }
    } else if m == 4 || m == 6 || m == 9 || m == 11 {
        30
    } else {
        31
    }
}

/// Number of days of year `y` that lie before the first of month `m`.
pub open spec fn days_before_month(y: int, m: int) -> int
    decreases m,
{
    if m <= 1 {
        0
    } else {
        days_before_month(y, m - 1) + month_length(y, m - 1)
    }
}

/// A calendar date as mathematical integers.
pub struct CivilDate {
    pub year: int,
    pub month: int,
    pub day: int,
}

/// Whether `d` names a day that exists.
pub open spec fn is_valid_date(d: CivilDate) -> bool {
    1 <= d.month <= 12 && 1 <= d.day <= month_length(d.year, d.month)
}

/// Day number of the date `d`.
pub open spec fn day_number(d: CivilDate) -> int {
    year_first_day(d.year) + days_before_month(d.year, d.month) + d.day - 1
}

/// The date whose day number is `n`.
pub open spec fn date_of_day(n: int) -> CivilDate {
    choose|d: CivilDate| is_valid_date(d) && day_number(d) == n
}

/// Day of the week of day number `n`, counted from Monday as 0.
pub open spec fn weekday_from_monday(n: int) -> int {
    (n + 3) % 7
}

/// A calendar date.
#[derive(Clone, Copy, Debug, PartialEq, Eq, Structural)]
pub struct Date {
    pub year: i64,
    pub month: u8,
    pub day: u8,
}

impl View for Date {
    type V = CivilDate;

    open spec fn view(&self) -> CivilDate {
        CivilDate { year: self.year as int, month: self.month as int, day: self.day as int }
    }
}

/// The year after `y` begins `year_length(y)` days after `y` does.
pub proof fn lemma_year_step(y: int)
    ensures
        year_first_day(y + 1) == year_first_day(y) + year_length(y),
{
    assert(leap_years_before(y + 1) - leap_years_before(y) == if is_leap_year(y) {
        1int
    } else {
        0int
    }) by {
        assert(y / 4 - (y - 1) / 4 == if y % 4 == 0 { 1int } else { 0int });
        assert(y / 100 - (y - 1) / 100 == if y % 100 == 0 { 1int } else { 0int });
        assert(y / 400 - (y - 1) / 400 == if y % 400 == 0 { 1int } else { 0int });
        assert(y % 400 == 0 ==> y % 100 == 0);
        assert(y % 100 == 0 ==> y % 4 == 0);
    }
}

/// Later years begin later, by at least 365 days for each year between them.
pub proof fn lemma_year_first_day_grows(a: int, b: int)
    requires
        a <= b,
    ensures
        year_first_day(b) >= year_first_day(a) + 365 * (b - a),
    decreases b - a,
{
    if a < b {
        lemma_year_first_day_grows(a, b - 1);
        lemma_year_step(b - 1);
    }
}

/// The days before each month, month by month.
pub proof fn lemma_days_before_month_values(y: int)
    ensures
        days_before_month(y, 1) == 0,
        days_before_month(y, 2) == 31,
        days_before_month(y, 3) == 31 + month_length(y, 2),
        days_before_month(y, 4) == 62 + month_length(y, 2),
        days_before_month(y, 5) == 92 + month_length(y, 2),
        days_before_month(y, 6) == 123 + month_length(y, 2),
        days_before_month(y, 7) == 153 + month_length(y, 2),
        days_before_month(y, 8) == 184 + month_length(y, 2),
        days_before_month(y, 9) == 215 + month_length(y, 2),
        days_before_month(y, 10) == 245 + month_length(y, 2),
        days_before_month(y, 11) == 276 + month_length(y, 2),
        days_before_month(y, 12) == 306 + month_length(y, 2),
        days_before_month(y, 13) == year_length(y),
{
    reveal_with_fuel(days_before_month, 14);
}

/// Within a year, a date's place in the year lies in `0 .. year_length`.
pub proof fn lemma_day_of_year_bounds(d: CivilDate)
    requires
        is_valid_date(d),
    ensures
        0 <= day_number(d) - year_first_day(d.year) < year_length(d.year),
        1 < d.month ==> days_before_month(d.year, d.month) >= 31,
{
    lemma_days_before_month_values(d.year);
}

/// Two dates that exist and have one day number are the same date.
pub proof fn lemma_day_number_injective(a: CivilDate, b: CivilDate)
    requires
        is_valid_date(a),
        is_valid_date(b),
        day_number(a) == day_number(b),
    ensures
        a == b,
{
    lemma_day_of_year_bounds(a);
    lemma_day_of_year_bounds(b);
    if a.year < b.year {
        lemma_year_first_day_grows(a.year + 1, b.year);
        lemma_year_step(a.year);
    } else if b.year < a.year {
        lemma_year_first_day_grows(b.year + 1, a.year);
        lemma_year_step(b.year);
    } else {
        lemma_days_before_month_values(a.year);
    }
}

/// A date that exists is the date of its own day number.
pub proof fn lemma_date_of_day_number(d: CivilDate)
    requires
        is_valid_date(d),
    ensures
        date_of_day(day_number(d)) == d,
{
    let n = day_number(d);
    let e = date_of_day(n);
    assert(is_valid_date(d) && day_number(d) == n);
    lemma_day_number_injective(d, e);
}

/// Every day number is the day number of a date that exists.
pub proof fn lemma_date_exists(n: int)
    ensures
        is_valid_date(date_of_day(n)),
        day_number(date_of_day(n)) == n,
    decreases
            if n >= 0 {
                n
            } else {
                -n
            },
{
    if n == 0 {
        let d = CivilDate { year: 1970, month: 1, day: 1 };
        lemma_days_before_month_values(1970);
        assert(is_valid_date(d) && day_number(d) == n);
    } else if n > 0 {
        lemma_date_exists(n - 1);
        let p = date_of_day(n - 1);
        lemma_days_before_month_values(p.year);
        lemma_year_step(p.year);
        let d = if p.day < month_length(p.year, p.month) {
            CivilDate { year: p.year, month: p.month, day: p.day + 1 }
        } else if p.month < 12 {
            CivilDate { year: p.year, month: p.month + 1, day: 1 }
        } else {
            CivilDate { year: p.year + 1, month: 1, day: 1 }
        };
        lemma_days_before_month_values(d.year);
        assert(is_valid_date(d) && day_number(d) == n);
    } else {
        lemma_date_exists(n + 1);
        let p = date_of_day(n + 1);
        lemma_days_before_month_values(p.year);
        lemma_days_before_month_values(p.year - 1);
        lemma_year_step(p.year - 1);
        let d = if p.day > 1 {
            CivilDate { year: p.year, month: p.month, day: p.day - 1 }
        } else if p.month > 1 {
            CivilDate {
                year: p.year,
                month: p.month - 1,
                day: month_length(p.year, p.month - 1),
            }
        } else {
            CivilDate { year: p.year - 1, month: 12, day: 31 }
        };
        assert(is_valid_date(d) && day_number(d) == n);
    }
}

/// The year whose days hold day number `n` is the year of `n`'s date.
pub proof fn lemma_year_of_day(n: int, y: int)
    requires
        year_first_day(y) <= n < year_first_day(y) + year_length(y),
    ensures
        date_of_day(n).year == y,
{
    lemma_date_exists(n);
    let d = date_of_day(n);
    lemma_day_of_year_bounds(d);
    if d.year < y {
        lemma_year_first_day_grows(d.year + 1, y);
        lemma_year_step(d.year);
    } else if y < d.year {
        lemma_year_first_day_grows(y + 1, d.year);
        lemma_year_step(y);
    }
}

/// The first of a date's month and the first of its year are dates that
/// exist, and neither comes after the date itself.
pub proof fn lemma_firsts_not_later(n: int)
    ensures
        n - 30 <= day_number(
            CivilDate { year: date_of_day(n).year, month: date_of_day(n).month, day: 1 },
        ) <= n,
        n - 365 <= day_number(CivilDate { year: date_of_day(n).year, month: 1, day: 1 }) <= n,
{
    lemma_date_exists(n);
    lemma_day_of_year_bounds(date_of_day(n));
    lemma_days_before_month_values(date_of_day(n).year);
}

/// The year that lies `e` cycles of 400 years, `c` centuries, `q` spans of
/// four years and `a` years after 1601: the day it begins on, and whether it
/// is a leap year.
pub proof fn lemma_year_from_parts(e: int, c: int, q: int, a: int)
    requires
        0 <= c <= 3,
        0 <= q <= 24,
        0 <= a <= 3,
    ensures
        year_first_day(1601 + 400 * e + 100 * c + 4 * q + a) == 146097 * e + 36524 * c + 1461 * q
            + 365 * a - 134774,
        is_leap_year(1601 + 400 * e + 100 * c + 4 * q + a) == (a == 3 && (q != 24 || c == 3)),
{
    let y = 1601 + 400 * e + 100 * c + 4 * q + a;
    lemma_fundamental_div_mod_converse(y - 1, 4, 400 + 100 * e + 25 * c + q, a);
    lemma_fundamental_div_mod_converse(y - 1, 100, 16 + 4 * e + c, 4 * q + a);
    lemma_fundamental_div_mod_converse(y - 1, 400, 4 + e, 100 * c + 4 * q + a);
    lemma_fundamental_div_mod_converse(1969, 4, 492, 1);
    lemma_fundamental_div_mod_converse(1969, 100, 19, 69);
    lemma_fundamental_div_mod_converse(1969, 400, 4, 369);
    if a == 3 {
        lemma_fundamental_div_mod_converse(y, 4, 401 + 100 * e + 25 * c + q, 0);
    } else {
        lemma_fundamental_div_mod_converse(y, 4, 400 + 100 * e + 25 * c + q, a + 1);
    }
    if q == 24 && a == 3 {
        lemma_fundamental_div_mod_converse(y, 100, 17 + 4 * e + c, 0);
    } else {
        lemma_fundamental_div_mod_converse(y, 100, 16 + 4 * e + c, 1 + 4 * q + a);
    }
    if c == 3 && q == 24 && a == 3 {
        lemma_fundamental_div_mod_converse(y, 400, 5 + e, 0);
    } else {
        lemma_fundamental_div_mod_converse(y, 400, 4 + e, 1 + 100 * c + 4 * q + a);
    }
}

/// A day number taken apart: its year, and how many days of that year lie
/// before it.
#[derive(Clone, Copy, Debug)]
pub struct YearDay {
    pub year: i64,
    pub day_of_year: u16,
}

/// Whether `y` is a leap year.
pub fn leap_year(y: i64) -> (leap: bool)
    ensures
        leap == is_leap_year(y as int),
{
    let moved: i128 = 400 * YEAR_SHIFT + y as i128;
    let in_cycle: i128 = moved % 400;
    proof {
        lemma_mod_multiples_vanish(YEAR_SHIFT as int, y as int, 400);
        lemma_mod_mod(y as int, 4, 100);
        lemma_mod_mod(y as int, 100, 4);
    }
    in_cycle % 4 == 0 && (in_cycle % 100 != 0 || in_cycle == 0)
}

/// Number of days in month `month` of a year that is a leap year or not.
pub fn days_in_month(leap: bool, month: u8) -> (len: u8)
    requires
        1 <= month <= 12,
    ensures
        forall|y: int| is_leap_year(y) == leap ==> len == #[trigger] month_length(y, month as int),
        28 <= len <= 31,
{
    if month == 2 {
        if leap {
            29
        } else {
            28
        }
    } else if month == 4 || month == 6 || month == 9 || month == 11 {
        30
    } else {
        31
    }
}

/// The year that day number `n` falls in, and the place of the day in it.
pub fn year_and_day(n: i64) -> (yd: YearDay)
    ensures
        year_first_day(yd.year as int) + yd.day_of_year == n,
        yd.day_of_year < year_length(yd.year as int),
{
    let z: i128 = n as i128 + DAYS_1601_TO_1970 + ERA_SHIFT * DAYS_PER_ERA;
    let era: i128 = z / DAYS_PER_ERA;
    let in_era: i128 = z % DAYS_PER_ERA;
    let mut centuries: i128 = in_era / 36524;
    if centuries > 3 {
        centuries = 3;
    }
    let in_century: i128 = in_era - centuries * 36524;
    let mut quads: i128 = in_century / 1461;
    if quads > 24 {
        quads = 24;
    }
    let in_quad: i128 = in_century - quads * 1461;
    let mut years: i128 = in_quad / 365;
    if years > 3 {
        years = 3;
    }
    let rest: i128 = in_quad - years * 365;
    let year: i128 = 1601 + 400 * (era - ERA_SHIFT) + 100 * centuries + 4 * quads + years;
    proof {
        lemma_year_from_parts(era - ERA_SHIFT, centuries as int, quads as int, years as int);
    }
    YearDay { year: year as i64, day_of_year: rest as u16 }
}

/// The calendar date of day number `n`.
pub fn civil_from_days(n: i64) -> (date: Date)
    ensures
        is_valid_date(date@),
        day_number(date@) == n,
        date@ == date_of_day(n as int),
{
    let yd = year_and_day(n);
    let leap = leap_year(yd.year);
    let mut month: u8 = 1;
    let mut rest: u16 = yd.day_of_year;
    proof {
        lemma_days_before_month_values(yd.year as int);
    }
    while month < 12
        invariant
            1 <= month <= 12,
            leap == is_leap_year(yd.year as int),
            days_before_month(yd.year as int, month as int) + rest == yd.day_of_year,
            yd.day_of_year < year_length(yd.year as int),
            days_before_month(yd.year as int, 12) + 31 == year_length(yd.year as int),
        ensures
            1 <= month <= 12,
            days_before_month(yd.year as int, month as int) + rest == yd.day_of_year,
            rest < month_length(yd.year as int, month as int),
        decreases 12 - month,
    {
        let len: u16 = days_in_month(leap, month) as u16;
        assert(len == month_length(yd.year as int, month as int));
        if rest < len {
            break;
        }
        rest = rest - len;
        month = month + 1;
    }
    let date = Date { year: yd.year, month, day: (rest + 1) as u8 };
    proof {
        lemma_date_of_day_number(date@);
    }
    date
}

} // verus!
