//! Period tokens and the time ranges they stand for.

use crate::calendar::{
    civil_from_days, date_of_day, day_number, days_before_month, lemma_firsts_not_later,
    lemma_year_of_day, weekday_from_monday, year_and_day, year_first_day, CivilDate, DAYS_PER_ERA,
    ERA_SHIFT,
};
use vstd::prelude::*;

verus! {

/// A relative reporting window, counted back from the moment of the scan.
#[derive(Clone, Copy, Debug, PartialEq, Eq, Structural)]
pub enum Period {
    /// From the start of the local day.
    Today,
    /// From the start of the local week, which begins on Monday.
    Week,
    /// From the start of the local calendar month.
    Month,
    /// From the start of the local calendar year.
    Year,
    /// The whole history.
    All,
}

/// Why a period token was refused.
#[derive(Clone, Copy, Debug, PartialEq, Eq, Structural)]
pub enum ParseError {
    /// The token is none of the recognised period names.
    UnknownPeriod,
}

/// The period that a token names, if it names one.
pub open spec fn period_of_token(token: Seq<char>) -> Option<Period> {
    if token == "today"@ {
        Some(Period::Today)
    } else if token == "week"@ {
        Some(Period::Week)
    } else if token == "month"@ {
        Some(Period::Month)
    } else if token == "year"@ {
        Some(Period::Year)
    } else if token == "all"@ {
        Some(Period::All)
    } else {
        None
    }
}

impl Period {
    /// Reads a period token. The recognised tokens are `today`, `week`,
    /// `month`, `year` and `all`, in lower case and with nothing around them.
    pub fn parse(token: &str) -> (parsed: Result<Period, ParseError>)
        ensures
            parsed == match period_of_token(token@) {
                Some(p) => Ok::<Period, ParseError>(p),
                None => Err::<Period, ParseError>(ParseError::UnknownPeriod),
            },
    {
        proof {
            reveal_strlit("today");
            reveal_strlit("week");
            reveal_strlit("month");
            reveal_strlit("year");
            reveal_strlit("all");
        }
        if token.eq("today") {
            Ok(Period::Today)
        } else if token.eq("week") {
            Ok(Period::Week)
        } else if token.eq("month") {
            Ok(Period::Month)
        } else if token.eq("year") {
            Ok(Period::Year)
        } else if token.eq("all") {
            Ok(Period::All)
        } else {
            Err(ParseError::UnknownPeriod)
        }
    }
}

/// The moment of a scan: a point in time, and the local clock's distance from
/// UTC at that moment.
#[derive(Clone, Copy, Debug, PartialEq, Eq, Structural)]
pub struct Now {
    /// Seconds since 1970-01-01T00:00:00Z.
    pub unix: i64,
    /// Seconds that the local clock is ahead of UTC.
    pub utc_offset: i32,
}

/// A range of timestamps, in seconds since 1970-01-01T00:00:00Z. It holds
/// `start` and every later timestamp before `end`; a bound that is `None`
/// does not limit the range on its side.
#[derive(Clone, Copy, Debug, PartialEq, Eq, Structural)]
pub struct TimeRange {
    pub start: Option<i64>,
    pub end: Option<i64>,
}

impl TimeRange {
    /// Whether the lower bound is not above the upper bound.
    pub open spec fn well_formed(self) -> bool {
        match (self.start, self.end) {
            (Some(s), Some(e)) => s <= e,
            _ => true,
        }
    }

    /// Whether timestamp `t` lies in the range.
    pub open spec fn holds(self, t: int) -> bool {
        &&& match self.start {
            Some(s) => s <= t,
            None => true,
        }
        &&& match self.end {
            Some(e) => t < e,
            None => true,
        }
    }

    /// Whether timestamp `t` lies in the range.
    pub fn contains(&self, t: i64) -> (inside: bool)
        ensures
            inside == self.holds(t as int),
    {
        let above = match self.start {
            Some(s) => s <= t,
            None => true,
        };
        let below = match self.end {
            Some(e) => t < e,
            None => true,
        };
        above && below
    }
}

/// Number of the local day that `now` falls on.
pub open spec fn local_day(now: Now) -> int {
    (now.unix + now.utc_offset) / 86400
}

/// Number of the day on which `period` begins, for a scan made on day `day`.
/// The whole history has no first day; for it the result is `day`.
pub open spec fn first_day(period: Period, day: int) -> int {
    match period {
        Period::Today => day,
        Period::Week => day - weekday_from_monday(day),
        Period::Month => day_number(
            CivilDate { year: date_of_day(day).year, month: date_of_day(day).month, day: 1 },
        ),
        Period::Year => day_number(CivilDate { year: date_of_day(day).year, month: 1, day: 1 }),
        Period::All => day,
    }
}

/// The timestamp of local midnight at the start of `period`.
pub open spec fn period_start(period: Period, now: Now) -> int {
    first_day(period, local_day(now)) * 86400 - now.utc_offset
}

/// The range that `period` stands for at the moment `now`: the whole history
/// is unbounded on both sides; every other period runs from its local start
/// through `now` itself.
pub open spec fn range_of(period: Period, now: Now) -> TimeRange {
    if period == Period::All {
        TimeRange { start: None, end: None }
    } else {
        TimeRange {
            start: if period_start(period, now) < i64::MIN {
                None
            } else {
                Some(period_start(period, now) as i64)
            },
            end: if now.unix < i64::MAX {
                Some((now.unix + 1) as i64)
            } else {
                None
            },
        }
    }
}

/// What resolving a token at the moment `now` gives.
pub open spec fn resolved(token: Seq<char>, now: Now) -> Result<TimeRange, ParseError> {
    match period_of_token(token) {
        Some(p) => Ok(range_of(p, now)),
        None => Err(ParseError::UnknownPeriod),
    }
}

/// Number of the local day that `now` falls on.
pub fn day_of(now: &Now) -> (day: i64)
    ensures
        day == local_day(*now),
{
    let shift: i128 = ERA_SHIFT * DAYS_PER_ERA;
    let local: i128 = now.unix as i128 + now.utc_offset as i128;
    let moved: i128 = local + shift * 86400;
    let day: i128 = moved / 86400 - shift;
    day as i64
}

/// Number of the day on which `period` begins, for a scan made on day `day`.
pub fn first_day_of(period: Period, day: i64) -> (first: i64)
    requires
        i64::MIN + 366 <= day,
    ensures
        first == first_day(period, day as int),
        day - 366 <= first <= day,
{
    match period {
        Period::Today => day,
        Period::Week => {
            let moved: i128 = day as i128 + 3 + ERA_SHIFT * DAYS_PER_ERA;
            assert(ERA_SHIFT * DAYS_PER_ERA == 7 * 1335744000000000000);
            let weekday: i128 = moved % 7;
            (day as i128 - weekday) as i64
        },
        Period::Month => {
            let date = civil_from_days(day);
            proof {
                let first = CivilDate { year: date@.year, month: date@.month, day: 1 };
                assert(day_number(first) == day - (date.day - 1));
            }
            day - (date.day as i64 - 1)
        },
        Period::Year => {
            let yd = year_and_day(day);
            proof {
                let first = CivilDate { year: yd.year as int, month: 1, day: 1 };
                assert(days_before_month(yd.year as int, 1) == 0);
                assert(day_number(first) == year_first_day(yd.year as int));
                lemma_year_of_day(day as int, yd.year as int);
            }
            day - yd.day_of_year as i64
        },
        Period::All => day,
    }
}

/// No period begins after the moment of the scan.
pub proof fn lemma_period_starts_before_now(period: Period, now: Now)
    ensures
        period_start(period, now) <= now.unix,
{
    lemma_firsts_not_later(local_day(now));
}

/// A timestamp lies in a period's range exactly if it is neither before the
/// period's local start nor after the moment of the scan; the whole history
/// holds every timestamp.
pub proof fn lemma_range_membership(period: Period, now: Now, t: i64)
    ensures
        range_of(period, now).holds(t as int) <==> (period == Period::All || period_start(
            period,
            now,
        ) <= t <= now.unix),
        range_of(period, now).well_formed(),
{
    lemma_period_starts_before_now(period, now);
}

/// The whole history has no lower and no upper bound: it holds every
/// timestamp, however old.
pub proof fn lemma_whole_history_is_unbounded(now: Now, t: int)
    ensures
        range_of(Period::All, now).holds(t),
{
}

/// Today's range holds no timestamp that the local clock shows as a time
/// before today's midnight, such as the last second of yesterday.
pub proof fn lemma_today_excludes_earlier_days(now: Now, t: i64)
    requires
        t + now.utc_offset < local_day(now) * 86400,
    ensures
        !range_of(Period::Today, now).holds(t as int),
{
}

impl Period {
    /// The range that the period stands for at the moment `now`.
    pub fn to_time_range(self, now: &Now) -> (range: TimeRange)
        ensures
            range == range_of(self, *now),
            range.well_formed(),
            range.holds(now.unix as int),
    {
        match self {
            Period::All => TimeRange { start: None, end: None },
            _ => {
                let day = day_of(now);
                let first = first_day_of(self, day);
                let start: i128 = first as i128 * 86400 - now.utc_offset as i128;
                let end = if now.unix < i64::MAX {
                    Some(now.unix + 1)
                } else {
                    None
                };
                if start < i64::MIN as i128 {
                    TimeRange { start: None, end }
                } else {
                    TimeRange { start: Some(start as i64), end }
                }
            },
        }
    }
}

/// Resolves a period token at the moment `now`. An unknown token is refused;
/// nothing else is read, so one token and one moment always give one range.
pub fn resolve(token: &str, now: &Now) -> (outcome: Result<TimeRange, ParseError>)
    ensures
        outcome == resolved(token@, *now),
        outcome is Ok ==> outcome->Ok_0.well_formed(),
{
    match Period::parse(token) {
        Ok(period) => Ok(period.to_time_range(now)),
        Err(e) => Err(e),
    }
}

} // verus!
