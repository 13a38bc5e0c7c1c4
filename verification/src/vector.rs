//! What the features of a transaction are made of, where its timestamps follow RFC 3339.

use vstd::prelude::*;
use vstd::string::*;
use vstd::utf8::encode_utf8;

use crate::calendar::{
    civil_days, day_of, days_in_month, law_timestamp_is_read_by_position, lemma_minute_bounds,
    lemma_short_decimal, minute_of, parts_of, weekday_of,
};
use crate::text::{all_digits, decimal};

verus! {

/// Declares the error of a timestamp that cannot be read.
#[verifier::external_type_specification]
#[verifier::external_body]
pub struct ExParse(time::error::Parse);

/// Why a request has no features.
#[derive(Debug)]
pub enum VectorizeError {
    /// A timestamp is not in the format of RFC 3339.
    InvalidTimestamp(time::error::Parse),
    /// A field is missing or is not of its type.
    InvalidJson,
    /// A number has more digits than can be counted.
    NumberTooLarge,
    /// The merchant has no name to look for.
    EmptyMerchantId,
}

/// A day of the week.
#[derive(Debug, Clone, Copy, PartialEq, Eq, Structural)]
pub enum Weekday {
    Monday,
    Tuesday,
    Wednesday,
    Thursday,
    Friday,
    Saturday,
    Sunday,
}

/// A point in time, and what the clock and the calendar show there.
#[derive(Debug, Clone, Copy, PartialEq, Eq, Structural)]
pub struct Timestamp {
    /// Whole seconds since 1970-01-01T00:00:00Z.
    pub unix_seconds: i64,
    /// Nanoseconds within the second.
    pub nanosecond: u32,
    /// The hour in the timestamp's own offset.
    pub hour: u8,
    /// The day in the timestamp's own offset.
    pub weekday: Weekday,
}

impl Timestamp {
    pub open spec fn wf(self) -> bool {
        self.nanosecond < 1_000_000_000 && self.hour < 24
    }
}

/// The day with the given number, counted from Monday.
pub open spec fn weekday_named(number: int) -> Weekday {
    if number == 0 {
        Weekday::Monday
    } else if number == 1 {
        Weekday::Tuesday
    } else if number == 2 {
        Weekday::Wednesday
    } else if number == 3 {
        Weekday::Thursday
    } else if number == 4 {
        Weekday::Friday
    } else if number == 5 {
        Weekday::Saturday
    } else {
        Weekday::Sunday
    }
}

/// The text is `YYYY-MM-DDThh:mm:ssZ`, with a date of the calendar and a time of the day.
pub open spec fn is_utc_text(text: Seq<u8>) -> bool {
    &&& text.len() == 20
    &&& text[4] == 0x2d
    &&& text[7] == 0x2d
    &&& text[10] == 0x54
    &&& text[13] == 0x3a
    &&& text[16] == 0x3a
    &&& text[19] == 0x5a
    &&& all_digits(text.subrange(17, 19))
    &&& decimal(text.subrange(17, 19)) < 60
    &&& parts_of(text) matches Some(parts) && {
        &&& 1 <= parts.month <= 12
        &&& 1 <= parts.day <= days_in_month(parts.year as int, parts.month as int)
        &&& parts.hour < 24
        &&& parts.minute < 60
    }
}

/// The point of time that a text of this form names.
pub open spec fn utc_timestamp(text: Seq<u8>) -> Timestamp {
    let parts = parts_of(text)->0;
    Timestamp {
        unix_seconds: (minute_of(parts) * 60 + decimal(text.subrange(17, 19))) as i64,
        nanosecond: 0,
        hour: parts.hour as u8,
        weekday: weekday_named(weekday_of(day_of(parts))),
    }
}

/// What a text stands for as a timestamp in the format of RFC 3339, if it is one.
pub uninterp spec fn rfc3339_timestamp(text: Seq<char>) -> Option<Timestamp>;

/// Reads a timestamp with `time::OffsetDateTime::parse` and the format
/// `time::format_description::well_known::Rfc3339`.
///
/// Taken on trust: the outcome depends on the text alone, the nanosecond is below
/// 1,000,000,000 and the hour below 24; and a text `YYYY-MM-DDThh:mm:ssZ` with a date of the
/// calendar and a time of the day is read as the second in UTC that it names. Of other texts
/// nothing more is said here.
#[verifier::external_body]
fn parse_timestamp(value: &str) -> (parsed: Result<Timestamp, time::error::Parse>)
    ensures
        match parsed {
            Ok(timestamp) => {
                &&& rfc3339_timestamp(value@) == Some(timestamp)
                &&& timestamp.wf()
                &&& is_utc_text(value.spec_bytes()) ==> timestamp == utc_timestamp(
                    value.spec_bytes(),
                )
            },
            Err(_) => rfc3339_timestamp(value@) is None && !is_utc_text(value.spec_bytes()),
        },
{
    let at = time::OffsetDateTime::parse(value, &time::format_description::well_known::Rfc3339)?;
    let weekday = match at.weekday() {
        time::Weekday::Monday => Weekday::Monday,
        time::Weekday::Tuesday => Weekday::Tuesday,
        time::Weekday::Wednesday => Weekday::Wednesday,
        time::Weekday::Thursday => Weekday::Thursday,
        time::Weekday::Friday => Weekday::Friday,
        time::Weekday::Saturday => Weekday::Saturday,
        time::Weekday::Sunday => Weekday::Sunday,
    };
    let (unix_seconds, nanosecond, hour) = (at.unix_timestamp(), at.nanosecond(), at.hour());
    Ok(Timestamp { unix_seconds, nanosecond, hour, weekday })
}

/// The number of a day, counted from Monday.
pub open spec fn weekday_number(weekday: Weekday) -> u8 {
    match weekday {
        Weekday::Monday => 0,
        Weekday::Tuesday => 1,
        Weekday::Wednesday => 2,
        Weekday::Thursday => 3,
        Weekday::Friday => 4,
        Weekday::Saturday => 5,
        Weekday::Sunday => 6,
    }
}

/// The number of a day, counted from Monday.
pub fn weekday_index(weekday: Weekday) -> (number: u8)
    ensures
        number == weekday_number(weekday),
{
    match weekday {
        Weekday::Monday => 0,
        Weekday::Tuesday => 1,
        Weekday::Wednesday => 2,
        Weekday::Thursday => 3,
        Weekday::Friday => 4,
        Weekday::Saturday => 5,
        Weekday::Sunday => 6,
    }
}

/// Nanoseconds from `last` to `requested`.
pub open spec fn nanoseconds_between(requested: Timestamp, last: Timestamp) -> int {
    (requested.unix_seconds - last.unix_seconds) * 1_000_000_000 + (requested.nanosecond
        - last.nanosecond)
}

/// Whole seconds from `last` to `requested`; none where `last` is later.
pub open spec fn seconds_between(requested: Timestamp, last: Timestamp) -> int {
    if nanoseconds_between(requested, last) < 0 {
        0
    } else {
        nanoseconds_between(requested, last) / 1_000_000_000
    }
}

/// Whole seconds from `last` to `requested`; none where `last` is later.
pub fn elapsed_seconds(requested: &Timestamp, last: &Timestamp) -> (seconds: u64)
    requires
        requested.wf(),
        last.wf(),
    ensures
        seconds == seconds_between(*requested, *last),
        ({
            let from = last.unix_seconds * 1_000_000_000 + last.nanosecond;
            let to = requested.unix_seconds * 1_000_000_000 + requested.nanosecond;
            &&& to < from ==> seconds == 0
            &&& to >= from ==> seconds * 1_000_000_000 <= to - from < (seconds + 1) * 1_000_000_000
        }),
{
    let seconds: i128 = requested.unix_seconds as i128 - last.unix_seconds as i128;
    let nanoseconds: i128 = seconds * 1_000_000_000 + (requested.nanosecond as i128
        - last.nanosecond as i128);
    if nanoseconds < 0 {
        0
    } else {
        (nanoseconds / 1_000_000_000) as u64
    }
}

/// One of the known merchants is called `id`.
pub open spec fn is_known(known_merchants: Seq<String>, id: Seq<char>) -> bool {
    exists|i: int| 0 <= i < known_merchants.len() && (#[trigger] known_merchants[i])@ == id
}

/// Whether the merchant is one that the customer knows.
pub fn merchant_is_known(known_merchants: &Vec<String>, id: &String) -> (known: bool)
    ensures
        known == is_known(known_merchants@, id@),
{
    let mut i: usize = 0;
    while i < known_merchants.len()
        invariant
            0 <= i <= known_merchants@.len(),
            forall|j: int| 0 <= j < i ==> (#[trigger] known_merchants@[j])@ != id@,
        decreases known_merchants@.len() - i,
    {
        if known_merchants[i] == *id {
            assert(known_merchants@[i as int]@ == id@);
            return true;
        }
        i = i + 1;
    }
    false
}

/// What the features take from timestamps and merchants.
#[derive(Debug, Clone, Copy, PartialEq, Eq, Structural)]
pub struct RequestFacts {
    /// The hour of the request.
    pub hour: u8,
    /// The day of the week of the request, counted from Monday.
    pub weekday: u8,
    /// Whole seconds since the last transaction, if there is one.
    pub seconds_since_last: Option<u64>,
    /// The customer knows the merchant.
    pub known_merchant: bool,
}

/// The facts of a request whose timestamps have been read.
pub open spec fn facts_of(requested: Timestamp, last: Option<Timestamp>, known: bool) -> RequestFacts {
    RequestFacts {
        hour: requested.hour,
        weekday: weekday_number(requested.weekday),
        seconds_since_last: match last {
            Some(at) => Some(seconds_between(requested, at) as u64),
            None => None,
        },
        known_merchant: known,
    }
}

/// The facts of a request whose timestamps have been read.
pub fn facts_at(requested: &Timestamp, last: &Option<Timestamp>, known: bool) -> (facts: RequestFacts)
    requires
        requested.wf(),
        last matches Some(at) ==> at.wf(),
    ensures
        facts == facts_of(*requested, *last, known),
{
    let seconds_since_last: Option<u64> = match last {
        Some(at) => Some(elapsed_seconds(requested, at)),
        None => None,
    };
    RequestFacts {
        hour: requested.hour,
        weekday: weekday_index(requested.weekday),
        seconds_since_last,
        known_merchant: known,
    }
}

/// The timestamps of a request are all of the form `YYYY-MM-DDThh:mm:ssZ`.
pub open spec fn has_utc_times(requested_at: Seq<char>, last_timestamp: Option<Seq<char>>) -> bool {
    is_utc_text(encode_utf8(requested_at)) && (last_timestamp matches Some(text) ==> is_utc_text(
        encode_utf8(text),
    ))
}

/// The facts of a request whose timestamps are of this form.
pub open spec fn utc_facts(
    requested_at: Seq<char>,
    last_timestamp: Option<Seq<char>>,
    known: bool,
) -> RequestFacts {
    facts_of(
        utc_timestamp(encode_utf8(requested_at)),
        match last_timestamp {
            Some(text) => Some(utc_timestamp(encode_utf8(text))),
            None => None,
        },
        known,
    )
}

/// The text of an optional string.
pub open spec fn text_of(text: Option<String>) -> Option<Seq<char>> {
    match text {
        Some(found) => Some(found@),
        None => None,
    }
}

/// The facts of a request. A timestamp that cannot be read is an error, the request's own
/// before that of the last transaction.
pub fn request_facts(
    requested_at: &str,
    last_timestamp: &Option<String>,
    known_merchants: &Vec<String>,
    merchant_id: &String,
) -> (facts: Result<RequestFacts, VectorizeError>)
    ensures
        match facts {
            Ok(found) => {
                &&& rfc3339_timestamp(requested_at@) matches Some(requested)
                &&& match *last_timestamp {
                    Some(text) => rfc3339_timestamp(text@) matches Some(last) && found == facts_of(
                        requested,
                        Some(last),
                        is_known(known_merchants@, merchant_id@),
                    ),
                    None => found == facts_of(
                        requested,
                        None,
                        is_known(known_merchants@, merchant_id@),
                    ),
                }
            },
            Err(VectorizeError::InvalidTimestamp(_)) => rfc3339_timestamp(requested_at@) is None || (
            *last_timestamp matches Some(text) && rfc3339_timestamp(text@) is None),
            Err(_) => false,
        },
        has_utc_times(requested_at@, text_of(*last_timestamp)) ==> (facts matches Ok(found)
            && found == utc_facts(
            requested_at@,
            text_of(*last_timestamp),
            is_known(known_merchants@, merchant_id@),
        )),
{
    let requested = match parse_timestamp(requested_at) {
        Ok(timestamp) => timestamp,
        Err(error) => {
            return Err(VectorizeError::InvalidTimestamp(error));
        },
    };
    let last = match last_timestamp {
        Some(text) => match parse_timestamp(text.as_str()) {
            Ok(timestamp) => Some(timestamp),
            Err(error) => {
                return Err(VectorizeError::InvalidTimestamp(error));
            },
        },
        None => None,
    };
    Ok(facts_at(&requested, &last, merchant_is_known(known_merchants, merchant_id)))
}

/// A later request never has fewer seconds behind it.
pub proof fn law_seconds_grow(earlier: Timestamp, later: Timestamp, last: Timestamp)
    requires
        nanoseconds_between(later, earlier) >= 0,
    ensures
        seconds_between(earlier, last) <= seconds_between(later, last),
        seconds_between(last, last) == 0,
{
}

/// The seconds since the last transaction are the whole seconds between the two points of time,
/// and none where the last transaction is later.
pub proof fn law_elapsed_seconds_are_whole(requested: Timestamp, last: Timestamp)
    requires
        requested.nanosecond < 1_000_000_000,
        last.nanosecond < 1_000_000_000,
    ensures
        ({
            let seconds = requested.unix_seconds - last.unix_seconds;
            if seconds < 0 {
                seconds_between(requested, last) == 0
            } else if requested.nanosecond >= last.nanosecond {
                seconds_between(requested, last) == seconds
            } else if seconds == 0 {
                seconds_between(requested, last) == 0
            } else {
                seconds_between(requested, last) == seconds - 1
            }
        }),
{
}

/// The facts of a request are those of its own timestamp, the time since the last transaction if
/// there is one, and whether the merchant is known; days of the week are counted from Monday.
pub proof fn law_facts_are_of_the_request(requested: Timestamp, last: Timestamp, known: bool)
    requires
        requested.wf(),
        last.wf(),
    ensures
        ({
            let with = facts_of(requested, Some(last), known);
            let without = facts_of(requested, None, known);
            &&& with.hour == requested.hour && without.hour == requested.hour
            &&& with.known_merchant == known && without.known_merchant == known
            &&& without.seconds_since_last is None
            &&& with.seconds_since_last == Some(seconds_between(requested, last) as u64)
            &&& with.weekday == without.weekday
            &&& with.weekday == match requested.weekday {
                Weekday::Monday => 0u8,
                Weekday::Tuesday => 1u8,
                Weekday::Wednesday => 2u8,
                Weekday::Thursday => 3u8,
                Weekday::Friday => 4u8,
                Weekday::Saturday => 5u8,
                Weekday::Sunday => 6u8,
            }
        }),
{
}

/// A merchant is known exactly if its name is one of the known names, letter for letter.
pub proof fn law_known_means_listed(known_merchants: Seq<String>, id: Seq<char>)
    ensures
        is_known(known_merchants, id) <==> Seq::new(
            known_merchants.len(),
            |i: int| known_merchants[i]@,
        ).contains(id),
{
    let names = Seq::new(known_merchants.len(), |i: int| known_merchants[i]@);
    if is_known(known_merchants, id) {
        let i = choose|i: int|
            0 <= i < known_merchants.len() && (#[trigger] known_merchants[i])@ == id;
        assert(names[i] == id);
    }
    if names.contains(id) {
        let i = choose|i: int| 0 <= i < names.len() && names[i] == id;
        assert(known_merchants[i]@ == id);
    }
}

/// A text `YYYY-MM-DDThh:mm:ssZ` stands for the second that it names: 86400 to the day since the
/// start of 1970, 3600 to the hour and 60 to the minute. It shows its own hour, and the day of the
/// week that comes round every seven days, with a Thursday at the start of 1970.
pub proof fn law_utc_text_names_a_second(text: Seq<u8>)
    requires
        is_utc_text(text),
    ensures
        ({
            let value = |i: int| 10 * (text[i] - 48) + (text[i + 1] - 48);
            let year = 100 * value(0) + value(2);
            let day = civil_days(year, value(5), value(8));
            let at = utc_timestamp(text);
            &&& text.len() == 20
            &&& value(11) < 24 && value(14) < 60 && value(17) < 60
            &&& at.unix_seconds == 86400 * day + 3600 * value(11) + 60 * value(14) + value(17)
            &&& at.nanosecond == 0
            &&& at.hour == value(11)
            &&& weekday_number(at.weekday) == (day + 3) % 7
        }),
{
    law_timestamp_is_read_by_position(text);
    lemma_minute_bounds(text);
    lemma_short_decimal(text.subrange(17, 19));
    let seconds = text.subrange(17, 19);
    assert(seconds[0] == text[17] && seconds[1] == text[18]);
    assert(seconds.drop_last().drop_last() =~= Seq::<u8>::empty());
    reveal_with_fuel(decimal, 3);
    let parts = parts_of(text)->Some_0;
    let day = weekday_of(day_of(parts));
    assert(0 <= day < 7);
    assert(weekday_number(weekday_named(day)) == day);
}

} // verus!
