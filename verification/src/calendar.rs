//! Time zones and months.
use vstd::prelude::*;

verus! {

/// The earliest time that the calendar reaches: the start of the year -9999, in seconds since the
/// epoch.
pub const EARLIEST: i64 = -377_705_116_800;

/// The latest time that the calendar reaches: the end of the year 9999.
pub const LATEST: i64 = 253_402_300_799;

/// The largest offset from UTC, in seconds: 25:59:59.
pub const WIDEST_OFFSET: i32 = 93_599;

/// The calendar reaches `time`.
pub open spec fn reachable(time: int) -> bool {
    EARLIEST <= time <= LATEST
}

/// The calendar reaches `time`, in UTC and at `offset`.
pub open spec fn has_month(time: int, offset: int) -> bool {
    -WIDEST_OFFSET <= offset <= WIDEST_OFFSET && reachable(time) && reachable(time + offset)
}

/// A year of the proleptic Gregorian calendar has a 29th of February. The year before the year 1 is
/// the year 0.
pub open spec fn is_leap(year: int) -> bool {
    year % 4 == 0 && (year % 100 != 0 || year % 400 == 0)
}

/// How many days a month has.
pub open spec fn month_days(year: int, month: int) -> int {
    if month == 2 {
        if is_leap(year) {
            29
        } else {
            28
        }
    } else if month == 4 || month == 6 || month == 9 || month == 11 {
        30
    } else {
        31
    }
}

/// The first day of a year, in days since the epoch.
pub open spec fn year_start(year: int) -> int {
    let past = year - 1;
    365 * past + past / 4 - past / 100 + past / 400 - 719_162
}

/// The first day of a month, in days since the epoch.
pub open spec fn month_start(year: int, month: int) -> int
    decreases month,
{
    if month <= 1 {
        year_start(year)
    } else {
        month_start(year, month - 1) + month_days(year, month - 1)
    }
}

/// `day`, in days since the epoch, falls in the month.
pub open spec fn in_month(day: int, year: int, month: int) -> bool {
    &&& 1 <= month <= 12
    &&& month_start(year, month) <= day < month_start(year, month) + month_days(year, month)
}

/// `day` falls in a month of this number, from 1 to 12, of some year.
pub open spec fn is_month_of(month: u8, day: int) -> bool {
    exists|year: int| #[trigger] in_month(day, year, month as int)
}

/// The number of the month that `day` falls in.
pub open spec fn month_of_day(day: int) -> u8 {
    choose|month: u8| is_month_of(month, day)
}

/// The local day, in days since the epoch, at `offset` seconds from UTC when it is `time` seconds
/// after the epoch.
pub open spec fn local_day(time: int, offset: int) -> int {
    (time + offset) / 86_400
}

/// The month at a time and an offset, if the calendar reaches it.
pub open spec fn month_at(time: int, offset: int) -> Option<u8> {
    if has_month(time, offset) {
        Some(month_of_day(local_day(time, offset)))
    } else {
        None
    }
}

/// The months of a year, one after the other.
proof fn lemma_months(year: int)
    ensures
        month_start(year, 1) == year_start(year),
        forall|month: int|
            1 <= month <= 12 ==> #[trigger] month_start(year, month) + month_days(year, month)
                == month_start(year, month + 1),
        month_start(year, 13) == year_start(year + 1),
        year_start(year + 1) == year_start(year) + if is_leap(year) {
            366int
        } else {
            365int
        },
{
    reveal_with_fuel(month_start, 14);
}

/// A later year starts later.
proof fn lemma_year_start_grows(year: int, later: int)
    requires
        year < later,
    ensures
        year_start(year + 1) <= year_start(later),
    decreases later - year,
{
    if year + 1 < later {
        lemma_year_start_grows(year, later - 1);
        lemma_months(later - 1);
    }
}

/// A later month of a year starts when the earlier one is over.
proof fn lemma_month_start_grows(year: int, month: int, later: int)
    requires
        1 <= month < later <= 13,
    ensures
        month_start(year, month) + month_days(year, month) <= month_start(year, later),
    decreases later - month,
{
    lemma_months(year);
    assert(month_start(year, later - 1) + month_days(year, later - 1) == month_start(year, later));
    if month + 1 < later {
        lemma_month_start_grows(year, month, later - 1);
    }
}

/// A day of a month is a day of the year.
proof fn lemma_in_year(day: int, year: int, month: int)
    requires
        in_month(day, year, month),
    ensures
        year_start(year) <= day < year_start(year + 1),
{
    lemma_months(year);
    lemma_month_start_grows(year, month, 13);
    if month > 1 {
        lemma_month_start_grows(year, 1, month);
    }
}

/// A day falls in one month only.
pub proof fn law_one_month(day: int, year: int, month: int, other_year: int, other_month: int)
    requires
        in_month(day, year, month),
        in_month(day, other_year, other_month),
    ensures
        year == other_year,
        month == other_month,
{
    lemma_in_year(day, year, month);
    lemma_in_year(day, other_year, other_month);
    if year < other_year {
        lemma_year_start_grows(year, other_year);
    } else if other_year < year {
        lemma_year_start_grows(other_year, year);
    } else if month < other_month {
        lemma_month_start_grows(year, month, other_month);
    } else if other_month < month {
        lemma_month_start_grows(year, other_month, month);
    }
}

/// The number of the month that a day falls in is the number of any month that it falls in.
pub proof fn law_month_of_day(day: int, year: int, month: u8)
    requires
        in_month(day, year, month as int),
    ensures
        month_of_day(day) == month,
{
    assert(is_month_of(month, day));
    let found = month_of_day(day);
    let found_year = choose|y: int| #[trigger] in_month(day, y, found as int);
    law_one_month(day, year, month as int, found_year, found as int);
}

/// Every day falls in a year.
proof fn lemma_some_year(day: int) -> (year: int)
    ensures
        year_start(year) <= day < year_start(year + 1),
    decreases if day < 0 {
        -day
    } else {
        day
    },
{
    if day == 0 {
        1970
    } else if day > 0 {
        let year = lemma_some_year(day - 1);
        lemma_months(year + 1);
        if day < year_start(year + 1) {
            year
        } else {
            year + 1
        }
    } else {
        let year = lemma_some_year(day + 1);
        lemma_months(year - 1);
        if year_start(year) <= day {
            year
        } else {
            year - 1
        }
    }
}

/// Every day falls in a month.
pub proof fn law_some_month(day: int)
    ensures
        is_month_of(month_of_day(day), day),
        1 <= month_of_day(day) <= 12,
{
    let year = lemma_some_year(day);
    lemma_months(year);
    let month = lemma_some_month(day, year, 12);
    assert(is_month_of(month as u8, day));
}

/// A day that is not after the month falls in it or in one before it.
proof fn lemma_some_month(day: int, year: int, last: int) -> (month: int)
    requires
        1 <= last <= 12,
        year_start(year) <= day < month_start(year, last + 1),
    ensures
        in_month(day, year, month),
    decreases last,
{
    lemma_months(year);
    assert(month_start(year, last) + month_days(year, last) == month_start(year, last + 1));
    if month_start(year, last) <= day {
        last
    } else {
        lemma_some_month(day, year, last - 1)
    }
}

/// The calendar reaches from the first day of the year -9999 to the last of the year 9999.
pub proof fn law_reach(time: int)
    ensures
        reachable(time) <==> year_start(-9999) <= time / 86_400 < year_start(10_000),
{
}

/// The month of a time, by `time::OffsetDateTime`: `from_unix_timestamp`, which takes the times
/// between the two ends of the calendar, then `to_offset`, which panics where the local date is
/// beyond them, then `month`. The contract claims that dates are those of the proleptic Gregorian
/// calendar, and that the month is the month of the local date.
#[verifier::external_body]
fn offset_month(time: i64, offset: i32) -> (month: u8)
    requires
        has_month(time as int, offset as int),
    ensures
        is_month_of(month, local_day(time as int, offset as int)),
{
    let utc = time::OffsetDateTime::from_unix_timestamp(time).unwrap();
    let zone = time::UtcOffset::from_whole_seconds(offset).unwrap();
    utc.to_offset(zone).month().into()
}

/// The month at a time and an offset, if the calendar reaches it.
pub fn local_month(time: i64, offset: i32) -> (month: Option<u8>)
    ensures
        month == month_at(time as int, offset as int),
        month matches Some(m) ==> 1 <= m <= 12,
        month matches Some(m) ==> exists|year: int| #[trigger]
            in_month((time + offset) / 86_400, year, m as int),
        month is None <==> {
            ||| offset < -93_599 || 93_599 < offset
            ||| time < -377_705_116_800 || 253_402_300_799 < time
            ||| time + offset < -377_705_116_800 || 253_402_300_799 < time + offset
        },
{
    if offset < -WIDEST_OFFSET || WIDEST_OFFSET < offset || time < EARLIEST || LATEST < time {
        return None;
    }
    let local: i64 = time + offset as i64;
    if local < EARLIEST || LATEST < local {
        return None;
    }
    let month: u8 = offset_month(time, offset);
    proof {
        let day = local_day(time as int, offset as int);
        let year = choose|year: int| #[trigger] in_month(day, year, month as int);
        law_month_of_day(day, year, month);
    }
    Some(month)
}

pub open spec fn magnitude(x: int) -> int {
    if x < 0 {
        -x
    } else {
        x
    }
}

/// The seconds that an offset of hours, minutes and seconds has, if each is in its range. The
/// first that is not zero gives the sign of all three.
pub open spec fn offset_seconds(hours: i8, minutes: i8, seconds: i8) -> Option<int> {
    let size = magnitude(hours as int) * 3600 + magnitude(minutes as int) * 60 + magnitude(
        seconds as int,
    );
    if magnitude(hours as int) > 25 || magnitude(minutes as int) > 59 || magnitude(seconds as int)
        > 59 {
        None
    } else if hours < 0 || (hours == 0 && (minutes < 0 || (minutes == 0 && seconds < 0))) {
        Some(-size)
    } else {
        Some(size)
    }
}

/// The offset of hours, minutes and seconds, by `time::UtcOffset::from_hms` and `whole_seconds`.
/// The contract claims when `from_hms` rejects its arguments, and how it settles the signs.
#[verifier::external_body]
fn utc_offset(hours: i8, minutes: i8, seconds: i8) -> (offset: Option<i32>)
    ensures
        match offset {
            Some(offset) => offset_seconds(hours, minutes, seconds) == Some(offset as int),
            None => offset_seconds(hours, minutes, seconds) is None,
        },
{
    match time::UtcOffset::from_hms(hours, minutes, seconds) {
        Ok(offset) => Some(offset.whole_seconds()),
        Err(_) => None,
    }
}

/// The time zone that a configuration asks for.
#[derive(Clone, Copy, Debug, PartialEq, Eq, Structural)]
pub enum Zone {
    /// This many seconds from UTC.
    Fixed(i32),
    /// The zone of the machine.
    Local,
    /// None: the hours, minutes or seconds are out of range.
    Invalid,
}

/// The time zone that `tz` asks for.
pub fn zone(tz: Option<(i8, i8, i8)>) -> (zone: Zone)
    ensures
        match tz {
            None => zone == Zone::Local,
            Some((h, m, s)) => match offset_seconds(h, m, s) {
                Some(offset) => zone matches Zone::Fixed(seconds) && seconds == offset,
                None => zone == Zone::Invalid,
            },
        },
{
    match tz {
        None => Zone::Local,
        Some((h, m, s)) => match utc_offset(h, m, s) {
            Some(offset) => Zone::Fixed(offset),
            None => Zone::Invalid,
        },
    }
}

/// A time zone given in hours, minutes and seconds has an offset that months can be told at.
pub proof fn law_zone_in_range(hours: i8, minutes: i8, seconds: i8)
    ensures
        offset_seconds(hours, minutes, seconds) matches Some(offset) ==> -WIDEST_OFFSET <= offset
            <= WIDEST_OFFSET,
{
}

/// The calendar: it reaches 10000 years to either side of the year 0, years have 365 days or 366,
/// months follow one another with the lengths that they have, and the epoch is the first of January
/// 1970.
pub proof fn law_calendar(year: int)
    ensures
        month_start(1970, 1) == 0,
        month_start(year, 2) == month_start(year, 1) + 31,
        month_start(year, 3) == month_start(year, 2) + if year % 400 == 0 || (year % 4 == 0 && year
            % 100 != 0) {
            29int
        } else {
            28int
        },
        month_start(year, 4) == month_start(year, 3) + 31,
        month_start(year, 5) == month_start(year, 4) + 30,
        month_start(year, 6) == month_start(year, 5) + 31,
        month_start(year, 7) == month_start(year, 6) + 30,
        month_start(year, 8) == month_start(year, 7) + 31,
        month_start(year, 9) == month_start(year, 8) + 31,
        month_start(year, 10) == month_start(year, 9) + 30,
        month_start(year, 11) == month_start(year, 10) + 31,
        month_start(year, 12) == month_start(year, 11) + 30,
        month_start(year + 1, 1) == month_start(year, 12) + 31,
{
    reveal_with_fuel(month_start, 14);
    lemma_months(year);
    assert(year_start(1970) == 0);
}

/// A day falls in a month exactly if it is not before the first of that month and before the first
/// of the next.
pub proof fn law_in_month(day: int, year: int, month: int)
    ensures
        1 <= month < 12 ==> (in_month(day, year, month) <==> month_start(year, month) <= day
            < month_start(year, month + 1)),
        in_month(day, year, 12) <==> month_start(year, 12) <= day < month_start(year + 1, 1),
        in_month(day, year, month) ==> 1 <= month <= 12,
{
    lemma_months(year);
    if 1 <= month <= 12 {
        assert(month_start(year, month) + month_days(year, month) == month_start(year, month + 1));
    }
    assert(month_start(year, 12) + month_days(year, 12) == month_start(year, 13));
    assert(month_start(year + 1, 1) == year_start(year + 1));
}

/// At every time and offset that the calendar reaches, the month is told, and it is the number of
/// the month in which the local day falls. Elsewhere none is told.
pub proof fn law_local_month(time: int, offset: int)
    ensures
        month_at(time, offset) is Some <==> {
            &&& -93_599 <= offset <= 93_599
            &&& -377_705_116_800 <= time <= 253_402_300_799
            &&& -377_705_116_800 <= time + offset <= 253_402_300_799
        },
        month_at(time, offset) is Some ==> exists|year: int| #[trigger]
            in_month((time + offset) / 86_400, year, month_at(time, offset)->0 as int),
{
    let day = (time + offset) / 86_400;
    law_some_month(day);
    assert(local_day(time, offset) == day);
    let year = choose|year: int| #[trigger] in_month(day, year, month_of_day(day) as int);
    if has_month(time, offset) {
        assert(month_at(time, offset) == Some(month_of_day(day)));
        assert(in_month((time + offset) / 86_400, year, month_at(time, offset)->0 as int));
    }
}

/// Times of the same local day have the same month, wherever their zones are.
pub proof fn law_same_day_same_month(time: int, offset: int, other_time: int, other_offset: int)
    requires
        (time + offset) / 86_400 == (other_time + other_offset) / 86_400,
        month_at(time, offset) is Some,
        month_at(other_time, other_offset) is Some,
    ensures
        month_at(time, offset) == month_at(other_time, other_offset),
{
}

/// An offset of hours, minutes and seconds with one sign is their sum in seconds; it is refused
/// exactly if one of them is out of its range.
pub proof fn law_offset(hours: i8, minutes: i8, seconds: i8)
    ensures
        offset_seconds(hours, minutes, seconds) is None <==> {
            ||| hours < -25 || 25 < hours
            ||| minutes < -59 || 59 < minutes
            ||| seconds < -59 || 59 < seconds
        },
        offset_seconds(hours, minutes, seconds) matches Some(offset) && (hours >= 0 && minutes >= 0
            && seconds >= 0 || hours <= 0 && minutes <= 0 && seconds <= 0) ==> offset_seconds(
            hours,
            minutes,
            seconds,
        ) == Some(hours * 3600 + minutes * 60 + seconds),
{
}

/// The sign of the minutes does not count where there are hours, nor that of the seconds where there
/// are hours or minutes.
pub proof fn law_offset_sign(hours: i8, minutes: i8, seconds: i8)
    requires
        minutes > -128,
        seconds > -128,
    ensures
        hours != 0 ==> offset_seconds(hours, minutes, seconds) == offset_seconds(
            hours,
            (-minutes) as i8,
            seconds,
        ),
        hours != 0 || minutes != 0 ==> offset_seconds(hours, minutes, seconds) == offset_seconds(
            hours,
            minutes,
            (-seconds) as i8,
        ),
{
}

} // verus!
