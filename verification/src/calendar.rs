//! Calendar arithmetic on timestamps such as `2026-03-11T18:45:53Z`.

use vstd::prelude::*;

use crate::text::{
    all_digits, decimal, digit_count, is_digit, leading_digits, lemma_decimal_grows,
    lemma_decimal_push, lemma_digit_count_bounds,
};
use crate::vector::VectorizeError;

verus! {

/// Days from 1970-01-01 to a date of the Gregorian calendar, counting years from March.
///
/// Months beyond December and days beyond the end of a month count on.
pub open spec fn civil_days(year: int, month: int, day: int) -> int {
    let y = if month <= 2 {
        year - 1
    } else {
        year
    };
    let m = if month > 2 {
        month - 3
    } else {
        month + 9
    };
    let year_of_era = y % 400;
    let day_of_year = (153 * m + 2) / 5 + day - 1;
    let day_of_era = year_of_era * 365 + year_of_era / 4 - year_of_era / 100 + day_of_year;
    (y / 400) * 146097 + day_of_era - 719468
}

/// A leap year.
pub open spec fn is_leap(year: int) -> bool {
    year % 4 == 0 && (year % 100 != 0 || year % 400 == 0)
}

/// The days of a month.
pub open spec fn days_in_month(year: int, month: int) -> int {
    if month == 2 {
        if is_leap(year) {
            29
        } else {
            28
        }
    } else if month == 4 || month == 6 || month == 9 || month == 11 {
        30
    } else {
        31
    }
}

/// The day of the week, counted from Monday, of a day counted from 1970-01-01.
pub open spec fn weekday_of(days: int) -> int {
    (days + 3) % 7
}

/// Day zero is 1970-01-01, a Thursday.
pub proof fn law_epoch_is_day_zero()
    ensures
        civil_days(1970, 1, 1) == 0,
        weekday_of(0) == 3,
{
}

/// A day later is a day more, and the next day of the week.
pub proof fn law_days_advance(year: int, month: int, day: int)
    ensures
        civil_days(year, month, day + 1) == civil_days(year, month, day) + 1,
        weekday_of(civil_days(year, month, day + 1)) == (weekday_of(civil_days(year, month, day))
            + 1) % 7,
{
}

/// One more: the quotient grows where the remainder comes round.
proof fn lemma_quotient_step(r: int, d: int)
    requires
        d == 4 || d == 100 || d == 400,
    ensures
        (r + 1) / d == r / d + if (r + 1) % d == 0 {
            1int
        } else {
            0
        },
        (r + 1) % d == if r % d == d - 1 {
            0
        } else {
            r % d + 1
        },
{
}

/// The remainder of a year in its era decides on leap years.
proof fn lemma_leap_in_era(year: int)
    ensures
        year % 4 == (year % 400) % 4,
        year % 100 == (year % 400) % 100,
{
}

proof fn lemma_year_length(year: int)
    ensures
        civil_days(year + 1, 3, 1) - civil_days(year, 3, 1) == if is_leap(year + 1) {
            366int
        } else {
            365
        },
{
    let r = year % 400;
    let next = (year + 1) % 400;
    lemma_quotient_step(year, 400);
    lemma_leap_in_era(year + 1);
    lemma_quotient_step(r, 4);
    lemma_quotient_step(r, 100);
    assert(civil_days(year, 3, 1) == (year / 400) * 146097 + r * 365 + r / 4 - r / 100 - 719468);
    assert(civil_days(year + 1, 3, 1) == ((year + 1) / 400) * 146097 + next * 365 + next / 4 - next
        / 100 - 719468);
}

/// Months have the lengths of the Gregorian calendar, and December is followed by January
/// of the next year.
pub proof fn law_month_lengths(year: int, month: int)
    requires
        1 <= month <= 12,
    ensures
        civil_days(
            if month == 12 {
                year + 1
            } else {
                year
            },
            if month == 12 {
                1
            } else {
                month + 1
            },
            1,
        ) - civil_days(year, month, 1) == days_in_month(year, month),
{
    lemma_year_length(year - 1);
}

/// What a timestamp says, up to the minute.
#[derive(Debug, Clone, Copy, PartialEq, Eq, Structural)]
pub struct TimestampParts {
    pub year: i32,
    pub month: u32,
    pub day: u32,
    pub hour: u32,
    pub minute: u32,
}

/// A timestamp is read by position: `YYYY?MM?DD?hh?mm`, anything after that.
pub open spec fn parts_of(timestamp: Seq<u8>) -> Option<TimestampParts> {
    if timestamp.len() >= 16 && all_digits(timestamp.subrange(0, 4)) && all_digits(
        timestamp.subrange(5, 7),
    ) && all_digits(timestamp.subrange(8, 10)) && all_digits(timestamp.subrange(11, 13))
        && all_digits(timestamp.subrange(14, 16)) {
        Some(
            TimestampParts {
                year: decimal(timestamp.subrange(0, 4)) as i32,
                month: decimal(timestamp.subrange(5, 7)) as u32,
                day: decimal(timestamp.subrange(8, 10)) as u32,
                hour: decimal(timestamp.subrange(11, 13)) as u32,
                minute: decimal(timestamp.subrange(14, 16)) as u32,
            },
        )
    } else {
        None
    }
}

/// The day of a timestamp, counted from 1970-01-01.
pub open spec fn day_of(parts: TimestampParts) -> int {
    civil_days(parts.year as int, parts.month as int, parts.day as int)
}

/// The minute of a timestamp, counted from 1970-01-01.
pub open spec fn minute_of(parts: TimestampParts) -> int {
    day_of(parts) * 24 * 60 + parts.hour * 60 + parts.minute
}

/// How large the parts of a timestamp and its minute can be.
pub proof fn lemma_minute_bounds(timestamp: Seq<u8>)
    requires
        parts_of(timestamp) is Some,
    ensures
        0 <= parts_of(timestamp)->Some_0.year <= 9999,
        parts_of(timestamp)->Some_0.hour <= 99,
        -10_000_000_000 <= minute_of(parts_of(timestamp)->Some_0) <= 10_000_000_000,
{
    lemma_short_decimal(timestamp.subrange(0, 4));
    lemma_short_decimal(timestamp.subrange(5, 7));
    lemma_short_decimal(timestamp.subrange(8, 10));
    lemma_short_decimal(timestamp.subrange(11, 13));
    lemma_short_decimal(timestamp.subrange(14, 16));
}

/// Reads a number that is made of digits only.
pub fn parse_u32(value: &[u8]) -> (parsed: Result<u32, VectorizeError>)
    requires
        decimal(leading_digits(value@)) <= u32::MAX,
    ensures
        match parsed {
            Ok(number) => all_digits(value@) && number == decimal(value@),
            Err(error) => !all_digits(value@) && error == VectorizeError::InvalidJson,
        },
{
    let mut acc: u32 = 0;
    let mut i: usize = 0;
    while i < value.len()
        invariant
            0 <= i <= value@.len(),
            decimal(leading_digits(value@)) <= u32::MAX,
            all_digits(value@.take(i as int)),
            acc == decimal(value@.take(i as int)),
        decreases value@.len() - i,
    {
        let byte: u8 = value[i];
        if byte < 0x30 || byte > 0x39 {
            assert(!is_digit(value@[i as int]));
            return Err(VectorizeError::InvalidJson);
        }
        proof {
            let n = digit_count(value@) as int;
            lemma_digit_count_bounds(value@);
            lemma_decimal_push(value@, i as int);
            assert(all_digits(value@.take(i + 1)));
            if n < i + 1 {
                assert(value@.take(i + 1)[n] == value@[n]);
                assert(false);
            }
            lemma_decimal_grows(value@, i + 1, n);
        }
        acc = acc * 10 + (byte - 0x30) as u32;
        i = i + 1;
    }
    assert(value@.take(value@.len() as int) =~= value@);
    Ok(acc)
}

/// How large a number of few digits can be.
pub proof fn lemma_short_decimal(s: Seq<u8>)
    requires
        s.len() <= 4,
    ensures
        decimal(leading_digits(s)) <= 9999,
        all_digits(s) ==> 0 <= decimal(s) <= 9999,
        all_digits(s) && s.len() <= 2 ==> decimal(s) <= 99,
{
    lemma_digit_count_bounds(s);
    lemma_decimal_bound(leading_digits(s));
    if all_digits(s) {
        lemma_decimal_bound(s);
    }
}

/// A number of few digits is small.
proof fn lemma_decimal_bound(digits: Seq<u8>)
    requires
        all_digits(digits),
        digits.len() <= 4,
    ensures
        0 <= decimal(digits),
        digits.len() == 0 ==> decimal(digits) == 0,
        digits.len() == 1 ==> decimal(digits) <= 9,
        digits.len() == 2 ==> decimal(digits) <= 99,
        digits.len() == 3 ==> decimal(digits) <= 999,
        digits.len() == 4 ==> decimal(digits) <= 9999,
    decreases digits.len(),
{
    if digits.len() > 0 {
        let rest = digits.drop_last();
        assert(all_digits(rest)) by {
            assert forall|i: int| 0 <= i < rest.len() implies is_digit(#[trigger] rest[i]) by {
                assert(is_digit(digits[i]));
            }
        }
        lemma_decimal_bound(rest);
        assert(is_digit(digits[digits.len() - 1]));
    }
}

/// Reads a timestamp by position.
pub fn timestamp_parts(timestamp: &[u8]) -> (parts: Result<TimestampParts, VectorizeError>)
    ensures
        match parts {
            Ok(p) => {
                &&& parts_of(timestamp@) == Some(p)
                &&& 0 <= p.year <= 9999
                &&& p.month <= 99
                &&& p.day <= 99
                &&& p.hour <= 99
                &&& p.minute <= 99
            },
            Err(error) => parts_of(timestamp@) is None && error == VectorizeError::InvalidJson,
        },
{
    if timestamp.len() < 16 {
        return Err(VectorizeError::InvalidJson);
    }
    proof {
        lemma_short_decimal(timestamp@.subrange(0, 4));
        lemma_short_decimal(timestamp@.subrange(5, 7));
        lemma_short_decimal(timestamp@.subrange(8, 10));
        lemma_short_decimal(timestamp@.subrange(11, 13));
        lemma_short_decimal(timestamp@.subrange(14, 16));
    }
    let year: u32 = match parse_u32(&timestamp[0..4]) {
        Ok(number) => number,
        Err(error) => {
            return Err(error);
        },
    };
    let month: u32 = match parse_u32(&timestamp[5..7]) {
        Ok(number) => number,
        Err(error) => {
            return Err(error);
        },
    };
    let day: u32 = match parse_u32(&timestamp[8..10]) {
        Ok(number) => number,
        Err(error) => {
            return Err(error);
        },
    };
    let hour: u32 = match parse_u32(&timestamp[11..13]) {
        Ok(number) => number,
        Err(error) => {
            return Err(error);
        },
    };
    let minute: u32 = match parse_u32(&timestamp[14..16]) {
        Ok(number) => number,
        Err(error) => {
            return Err(error);
        },
    };
    Ok(TimestampParts { year: year as i32, month, day, hour, minute })
}

/// Days from 1970-01-01 to a date.
pub fn days_from_civil(year: i32, month: u32, day: u32) -> (days: i64)
    ensures
        days == civil_days(year as int, month as int, day as int),
        -2_000_000_000_000 <= days <= 2_000_000_000_000,
{
    let y: i64 = if month <= 2 {
        year as i64 - 1
    } else {
        year as i64
    };
    let m: i64 = if month > 2 {
        month as i64 - 3
    } else {
        month as i64 + 9
    };
    let era: i64 = if y >= 0 {
        y / 400
    } else {
        -((399 - y) / 400)
    };
    assert(era == (y as int) / 400);
    let year_of_era: i64 = y - era * 400;
    assert(year_of_era == (y as int) % 400);
    let day_of_year: i64 = (153 * m + 2) / 5 + day as i64 - 1;
    let day_of_era: i64 = year_of_era * 365 + year_of_era / 4 - year_of_era / 100 + day_of_year;
    era * 146097 + day_of_era - 719468
}

/// The minute of a timestamp, counted from 1970-01-01.
pub fn timestamp_minutes(timestamp: &[u8]) -> (minutes: Result<i64, VectorizeError>)
    ensures
        match minutes {
            Ok(value) => parts_of(timestamp@) matches Some(parts) && value == minute_of(parts),
            Err(error) => parts_of(timestamp@) is None && error == VectorizeError::InvalidJson,
        },
{
    match timestamp_parts(timestamp) {
        Ok(parts) => {
            let days: i64 = days_from_civil(parts.year, parts.month, parts.day);
            Ok(days * 24 * 60 + parts.hour as i64 * 60 + parts.minute as i64)
        },
        Err(error) => Err(error),
    }
}

/// The hour of a timestamp.
pub fn hour_from_timestamp(timestamp: &[u8]) -> (hour: Result<u32, VectorizeError>)
    ensures
        match hour {
            Ok(value) => parts_of(timestamp@) matches Some(parts) && value == parts.hour,
            Err(error) => parts_of(timestamp@) is None && error == VectorizeError::InvalidJson,
        },
{
    match timestamp_parts(timestamp) {
        Ok(parts) => Ok(parts.hour),
        Err(error) => Err(error),
    }
}

/// The day of the week of a timestamp, counted from Monday.
pub fn weekday_from_ymd(timestamp: &[u8]) -> (weekday: Result<u32, VectorizeError>)
    ensures
        match weekday {
            Ok(value) => parts_of(timestamp@) matches Some(parts) && value == weekday_of(
                day_of(parts),
            ),
            Err(error) => parts_of(timestamp@) is None && error == VectorizeError::InvalidJson,
        },
{
    match timestamp_parts(timestamp) {
        Ok(parts) => {
            let days: i64 = days_from_civil(parts.year, parts.month, parts.day);
            // Shifted by whole weeks, so that the remainder is taken of a positive number.
            let shifted: i64 = days + 3 + 2_100_000_000_000;
            assert(2_100_000_000_000int % 7 == 0);
            let weekday: i64 = shifted % 7;
            Ok(weekday as u32)
        },
        Err(error) => Err(error),
    }
}

/// A timestamp is made of digits at fixed places: four for the year, and two each for month, day,
/// hour and minute, with one byte between them. With all of these it is read as the numbers that
/// they spell, and without one of them not at all.
pub proof fn law_timestamp_is_read_by_position(t: Seq<u8>)
    ensures
        t.len() < 16 ==> parts_of(t) is None,
        t.len() >= 16 ==> {
            let digit = |i: int| 48 <= t[i] <= 57;
            let value = |i: int| t[i] - 48;
            if digit(0) && digit(1) && digit(2) && digit(3) && digit(5) && digit(6) && digit(8)
                && digit(9) && digit(11) && digit(12) && digit(14) && digit(15) {
                &&& parts_of(t) matches Some(parts)
                &&& parts.year == 1000 * value(0) + 100 * value(1) + 10 * value(2) + value(3)
                &&& parts.month == 10 * value(5) + value(6)
                &&& parts.day == 10 * value(8) + value(9)
                &&& parts.hour == 10 * value(11) + value(12)
                &&& parts.minute == 10 * value(14) + value(15)
            } else {
                parts_of(t) is None
            }
        },
{
    if t.len() >= 16 {
        lemma_two_digits(t, 5);
        lemma_two_digits(t, 8);
        lemma_two_digits(t, 11);
        lemma_two_digits(t, 14);
        let year = t.subrange(0, 4);
        assert(year[0] == t[0] && year[1] == t[1] && year[2] == t[2] && year[3] == t[3]);
        assert(all_digits(year) ==> is_digit(year[0]) && is_digit(year[1]) && is_digit(year[2])
            && is_digit(year[3]));
        let three = year.drop_last();
        let two = three.drop_last();
        let one = two.drop_last();
        assert(one.drop_last() =~= Seq::<u8>::empty());
        reveal_with_fuel(decimal, 5);
        assert(decimal(year) == 1000 * (t[0] - 48) + 100 * (t[1] - 48) + 10 * (t[2] - 48) + (t[3]
            - 48));
    }
}

proof fn lemma_two_digits(t: Seq<u8>, i: int)
    requires
        0 <= i,
        i + 2 <= t.len(),
    ensures
        all_digits(t.subrange(i, i + 2)) <==> 48 <= t[i] <= 57 && 48 <= t[i + 1] <= 57,
        decimal(t.subrange(i, i + 2)) == 10 * (t[i] - 48) + (t[i + 1] - 48),
{
    let s = t.subrange(i, i + 2);
    assert(s[0] == t[i] && s[1] == t[i + 1]);
    assert(all_digits(s) ==> is_digit(s[0]) && is_digit(s[1]));
    assert(s.drop_last().drop_last() =~= Seq::<u8>::empty());
    reveal_with_fuel(decimal, 3);
}

/// Months follow one another with the lengths of the Gregorian calendar, where February has 29
/// days in years that four divides but not a hundred, or four hundred does; and December is
/// followed by January of the next year.
pub proof fn law_calendar_is_gregorian(year: int, month: int)
    requires
        1 <= month <= 12,
    ensures
        ({
            let length = if month == 2 {
                if year % 400 == 0 || year % 4 == 0 && year % 100 != 0 {
                    29int
                } else {
                    28
                }
            } else if month == 4 || month == 6 || month == 9 || month == 11 {
                30
            } else {
                31
            };
            if month < 12 {
                civil_days(year, month + 1, 1) == civil_days(year, month, 1) + length
            } else {
                civil_days(year + 1, 1, 1) == civil_days(year, 12, 1) + length
            }
        }),
        civil_days(1970, 1, 1) == 0,
{
    law_month_lengths(year, month);
}

/// The minute of a timestamp counts 1440 to the day and 60 to the hour, and the days of the week
/// come round every seven days, with a Thursday at the start of 1970.
pub proof fn law_minutes_and_weekdays(parts: TimestampParts, days: int)
    ensures
        day_of(parts) == civil_days(parts.year as int, parts.month as int, parts.day as int),
        minute_of(parts) == 1440 * day_of(parts) + 60 * parts.hour + parts.minute,
        0 <= weekday_of(days) < 7,
        weekday_of(0) == 3,
        weekday_of(days + 7) == weekday_of(days),
        weekday_of(days + 1) == if weekday_of(days) == 6 {
            0
        } else {
            weekday_of(days) + 1
        },
{
}

/// Months behind December count on, five of them taking 153 days, and month zero is the December
/// of the year before.
pub proof fn law_months_count_on(year: int, month: int)
    requires
        3 <= month,
    ensures
        civil_days(year, month + 5, 1) == civil_days(year, month, 1) + 153,
        civil_days(year, 0, 1) == civil_days(year - 1, 12, 1),
{
}

} // verus!
