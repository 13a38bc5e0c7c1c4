//! Reading a scoring request straight from its JSON text.
//!
//! A field is looked up by its quoted name from the place of its section on, and its
//! value starts after the next colon.

use vstd::prelude::*;
use vstd::string::*;
use vstd::utf8::{encode_utf8, valid_utf8};

use crate::calendar::{
    day_of, hour_from_timestamp, lemma_minute_bounds, minute_of, parts_of, timestamp_minutes,
    weekday_from_ymd, weekday_of, TimestampParts,
};
use crate::text::{
    all_digits, decimal, digit_count, find_key, find_key_from, first_at, is_digit, is_first_at,
    law_digits_end_at_the_first_other_byte, law_first_place_is_found,
    law_found_place_is_the_first, leading_digits, lemma_decimal_push, lemma_digit_count,
    lemma_digit_count_bounds, lemma_first_at, matches_at, occurs_at, read_digits,
};
use crate::vector::VectorizeError;

verus! {

/// The bytes of a text.
pub open spec fn bytes_of(text: &str) -> Seq<u8> {
    encode_utf8(text@)
}

/// White space of JSON.
pub open spec fn is_space(byte: u8) -> bool {
    byte == 0x20 || byte == 0x0a || byte == 0x0d || byte == 0x09
}

/// The first position from `i` on that holds no white space.
pub open spec fn after_spaces(body: Seq<u8>, i: int) -> int
    decreases body.len() - i,
{
    if 0 <= i < body.len() && is_space(body[i]) {
        after_spaces(body, i + 1)
    } else {
        i
    }
}

/// Where the value of the name at `key_pos` starts: behind the next colon, without space.
pub open spec fn value_at(body: Seq<u8>, key_pos: int) -> Option<int> {
    match first_at(body, seq![0x3au8], key_pos) {
        Some(colon) => Some(after_spaces(body, colon + 1)),
        None => None,
    }
}

/// Where the value of the first field called `key` from `from` on starts.
pub open spec fn field_at(body: Seq<u8>, from: int, key: Seq<u8>) -> Option<int> {
    match first_at(body, key, from) {
        Some(key_pos) => value_at(body, key_pos),
        None => None,
    }
}

/// Ten to the power of `n`.
pub open spec fn pow10(n: nat) -> int
    decreases n,
{
    if n == 0 {
        1
    } else {
        10 * pow10((n - 1) as nat)
    }
}

/// A decimal number: `whole + fraction / scale`, or its negative.
#[derive(Debug, Clone, Copy, PartialEq, Eq, Structural)]
pub struct Number {
    pub negative: bool,
    pub whole: i64,
    pub fraction: i64,
    pub scale: i64,
}

impl Number {
    /// The number is greater than zero: it has no sign, and not all its digits are zero.
    pub open spec fn positive(self) -> bool {
        !self.negative && (self.whole > 0 || self.fraction > 0)
    }

    /// The parts of a number that has been read.
    pub open spec fn wf(self) -> bool {
        self.whole >= 0 && 0 <= self.fraction < self.scale
    }

    /// Whether the number is greater than zero.
    pub fn is_positive(&self) -> (positive: bool)
        ensures
            positive == self.positive(),
            positive <==> !self.negative && (self.whole > 0 || self.fraction > 0),
    {
        !self.negative && (self.whole > 0 || self.fraction > 0)
    }
}

/// The digits behind the point, if there is one.
pub open spec fn fraction_digits(rest: Seq<u8>) -> Seq<u8> {
    if rest.len() > 0 && rest[0] == 0x2e {
        leading_digits(rest.skip(1))
    } else {
        Seq::empty()
    }
}

/// `s` without its sign.
pub open spec fn unsigned_part(s: Seq<u8>) -> Seq<u8> {
    if s.len() > 0 && s[0] == 0x2d {
        s.skip(1)
    } else {
        s
    }
}

/// The number that `s` starts with: a sign, digits, a point, digits, each of which may be
/// missing. It must be possible to count its parts in 64 bits.
pub open spec fn number_of(s: Seq<u8>) -> Option<Number> {
    let t = unsigned_part(s);
    let digits = leading_digits(t);
    let behind = fraction_digits(t.skip(digits.len() as int));
    if decimal(digits) > i64::MAX || behind.len() > 18 {
        None
    } else {
        Some(
            Number {
                negative: s.len() > 0 && s[0] == 0x2d,
                whole: decimal(digits) as i64,
                fraction: decimal(behind) as i64,
                scale: pow10(behind.len()) as i64,
            },
        )
    }
}

/// The number in a field.
pub open spec fn number_field(body: Seq<u8>, from: int, key: Seq<u8>) -> Result<
    Number,
    VectorizeError,
> {
    match field_at(body, from, key) {
        Some(start) => match number_of(body.skip(start)) {
            Some(number) => Ok(number),
            None => Err(VectorizeError::NumberTooLarge),
        },
        None => Err(VectorizeError::InvalidJson),
    }
}

/// The truth value in a field.
pub open spec fn bool_field(body: Seq<u8>, from: int, key: Seq<u8>) -> Result<
    bool,
    VectorizeError,
> {
    match field_at(body, from, key) {
        Some(start) => if occurs_at(body, bytes_of("true"), start) {
            Ok(true)
        } else if occurs_at(body, bytes_of("false"), start) {
            Ok(false)
        } else {
            Err(VectorizeError::InvalidJson)
        },
        None => Err(VectorizeError::InvalidJson),
    }
}

/// The text in a field, without its quotes: up to the next quote.
pub open spec fn string_field(body: Seq<u8>, from: int, key: Seq<u8>) -> Result<
    Seq<u8>,
    VectorizeError,
> {
    match field_at(body, from, key) {
        Some(start) => if 0 <= start < body.len() && body[start] == 0x22 {
            match first_at(body, seq![0x22u8], start + 1) {
                Some(end) => Ok(body.subrange(start + 1, end)),
                None => Err(VectorizeError::InvalidJson),
            }
        } else {
            Err(VectorizeError::InvalidJson)
        },
        None => Err(VectorizeError::InvalidJson),
    }
}

/// The list in a field, with its brackets: up to the next closing bracket.
pub open spec fn array_field(body: Seq<u8>, from: int, key: Seq<u8>) -> Result<
    Seq<u8>,
    VectorizeError,
> {
    match field_at(body, from, key) {
        Some(start) => if 0 <= start < body.len() && body[start] == 0x5b {
            match first_at(body, seq![0x5du8], start + 1) {
                Some(end) => Ok(body.subrange(start, end + 1)),
                None => Err(VectorizeError::InvalidJson),
            }
        } else {
            Err(VectorizeError::InvalidJson)
        },
        None => Err(VectorizeError::InvalidJson),
    }
}

/// The first place at which `needle` stands in `array` has a quote on either side.
pub open spec fn contains_quoted(array: Seq<u8>, needle: Seq<u8>) -> bool {
    match first_at(array, needle, 0) {
        Some(i) => i > 0 && i + needle.len() < array.len() && array[i - 1] == 0x22 && array[i
            + needle.len()] == 0x22,
        None => false,
    }
}

/// Where the text of a literal is not empty, neither are its bytes.
proof fn lemma_bytes_not_empty(text: Seq<char>)
    requires
        text.len() > 0,
    ensures
        encode_utf8(text).len() > 0,
{
    vstd::utf8::encode_utf8_first_scalar(text);
}

/// Where the value of the name at `key_pos` starts.
pub fn value_start(body: &[u8], key_pos: usize) -> (start: Result<usize, VectorizeError>)
    ensures
        match start {
            Ok(at) => value_at(body@, key_pos as int) == Some(at as int) && at <= body@.len(),
            Err(error) => value_at(body@, key_pos as int) is None && error
                == VectorizeError::InvalidJson,
        },
{
    let colon_byte: [u8; 1] = [0x3au8];
    assert(colon_byte@ =~= seq![0x3au8]);
    let colon: usize = match find_key_from(body, key_pos, colon_byte.as_slice()) {
        Some(at) => at,
        None => {
            return Err(VectorizeError::InvalidJson);
        },
    };
    assert(body.len() == body@.len());
    let mut idx: usize = colon + 1;
    while idx < body.len() && (body[idx] == 0x20 || body[idx] == 0x0a || body[idx] == 0x0d
        || body[idx] == 0x09)
        invariant
            0 <= idx <= body@.len(),
            after_spaces(body@, idx as int) == after_spaces(body@, colon + 1),
        decreases body@.len() - idx,
    {
        idx = idx + 1;
    }
    Ok(idx)
}

/// Where the value of the first field called `key` from `from` on starts.
fn field_start(body: &[u8], from: usize, key: &[u8]) -> (start: Result<usize, VectorizeError>)
    requires
        key@.len() > 0,
    ensures
        match start {
            Ok(at) => field_at(body@, from as int, key@) == Some(at as int) && at <= body@.len(),
            Err(error) => field_at(body@, from as int, key@) is None && error
                == VectorizeError::InvalidJson,
        },
{
    match find_key_from(body, from, key) {
        Some(key_pos) => value_start(body, key_pos),
        None => Err(VectorizeError::InvalidJson),
    }
}

proof fn lemma_fraction_fits(digits: Seq<u8>)
    requires
        all_digits(digits),
    ensures
        0 <= decimal(digits) < pow10(digits.len()),
    decreases digits.len(),
{
    if digits.len() > 0 {
        let rest = digits.drop_last();
        assert(all_digits(rest)) by {
            assert forall|i: int| 0 <= i < rest.len() implies is_digit(#[trigger] rest[i]) by {
                assert(is_digit(digits[i]));
            }
        }
        lemma_fraction_fits(rest);
        assert(is_digit(digits[digits.len() - 1]));
    }
}

proof fn lemma_pow10_grows(n: nat, m: nat)
    requires
        n <= m,
    ensures
        1 <= pow10(n) <= pow10(m),
    decreases m,
{
    if n < m {
        lemma_pow10_grows(n, (m - 1) as nat);
    } else if m > 0 {
        lemma_pow10_grows((m - 1) as nat, (m - 1) as nat);
    }
}

proof fn lemma_pow10_18()
    ensures
        pow10(18) == 1_000_000_000_000_000_000,
{
    reveal_with_fuel(pow10, 19);
}

/// Reads the number that `buf` starts with.
#[verifier::rlimit(30)]
pub fn parse_number(buf: &[u8]) -> (parsed: Result<Number, VectorizeError>)
    ensures
        match parsed {
            Ok(number) => number_of(buf@) == Some(number),
            Err(error) => number_of(buf@) is None && error == VectorizeError::NumberTooLarge,
        },
{
    let negative: bool = buf.len() > 0 && buf[0] == 0x2d;
    let start: usize = if negative {
        1
    } else {
        0
    };
    let ghost t = unsigned_part(buf@);
    assert(t =~= buf@.skip(start as int));
    let (whole, end): (u64, usize) = match read_digits(buf, start, i64::MAX as u64) {
        Some(read) => read,
        None => {
            return Err(VectorizeError::NumberTooLarge);
        },
    };
    let ghost rest = t.skip(leading_digits(t).len() as int);
    proof {
        lemma_digit_count_bounds(t);
        assert(rest =~= buf@.skip(end as int));
    }
    let mut fraction: i64 = 0;
    let mut scale: i64 = 1;
    let ghost behind = fraction_digits(rest);
    if end < buf.len() && buf[end] == 0x2e {
        let from: usize = end + 1;
        let ghost s = buf@.skip(from as int);
        let ghost n = digit_count(s) as int;
        proof {
            assert(rest.skip(1) =~= s);
            lemma_digit_count_bounds(s);
            assert(behind == s.take(n));
            lemma_pow10_18();
        }
        let mut i: usize = from;
        while i < buf.len() && buf[i] >= 0x30 && buf[i] <= 0x39
            invariant
                from <= i <= buf@.len(),
                s == buf@.skip(from as int),
                n == digit_count(s),
                n <= s.len(),
                all_digits(s.take(n)),
                n < s.len() ==> !is_digit(s[n]),
                behind == s.take(n),
                number_of(buf@) is None <==> n > 18,
                i - from <= 18,
                i - from <= n,
                fraction == decimal(s.take(i - from)),
                scale == pow10((i - from) as nat),
                pow10(18) == 1_000_000_000_000_000_000,
            decreases buf@.len() - i,
        {
            let digit: i64 = (buf[i] - 0x30) as i64;
            proof {
                assert(s[i - from] == buf@[i as int]);
                lemma_decimal_push(s, i - from);
                if i - from < n {
                    assert(is_digit(s.take(n)[i - from]));
                }
            }
            if i - from == 18 {
                return Err(VectorizeError::NumberTooLarge);
            }
            proof {
                lemma_pow10_grows((i - from) as nat, 17);
                lemma_pow10_grows((i + 1 - from) as nat, 18);
                assert(all_digits(s.take(i - from))) by {
                    assert forall|j: int|
                        0 <= j < i - from implies is_digit(#[trigger] s.take(i - from)[j]) by {
                        assert(is_digit(s.take(n)[j]));
                    }
                }
                lemma_fraction_fits(s.take(i - from));
            }
            fraction = fraction * 10 + digit;
            scale = scale * 10;
            i = i + 1;
        }
        proof {
            if i < buf@.len() {
                assert(s[i - from] == buf@[i as int]);
            }
            if i - from < n {
                assert(is_digit(s.take(n)[i - from]));
            }
        }
    }
    Ok(Number { negative, whole: whole as i64, fraction, scale })
}

/// Reads the number in a field.
pub fn number_after(body: &[u8], from: usize, key: &[u8]) -> (read: Result<Number, VectorizeError>)
    requires
        key@.len() > 0,
    ensures
        read == number_field(body@, from as int, key@),
{
    let start: usize = match field_start(body, from, key) {
        Ok(at) => at,
        Err(error) => {
            return Err(error);
        },
    };
    assert(body@.subrange(start as int, body@.len() as int) =~= body@.skip(start as int));
    parse_number(&body[start..body.len()])
}

/// Reads the truth value in a field.
pub fn bool_after(body: &[u8], from: usize, key: &[u8]) -> (read: Result<bool, VectorizeError>)
    requires
        key@.len() > 0,
    ensures
        read == bool_field(body@, from as int, key@),
{
    let start: usize = match field_start(body, from, key) {
        Ok(at) => at,
        Err(error) => {
            return Err(error);
        },
    };
    if matches_at(body, "true".as_bytes(), start) {
        Ok(true)
    } else if matches_at(body, "false".as_bytes(), start) {
        Ok(false)
    } else {
        Err(VectorizeError::InvalidJson)
    }
}

/// Reads the text in a field.
pub fn string_after<'a>(body: &'a [u8], from: usize, key: &[u8]) -> (read: Result<
    &'a [u8],
    VectorizeError,
>)
    requires
        key@.len() > 0,
    ensures
        match read {
            Ok(text) => string_field(body@, from as int, key@) == Ok::<Seq<u8>, VectorizeError>(
                text@,
            ),
            Err(error) => string_field(body@, from as int, key@) == Err::<Seq<u8>, VectorizeError>(
                error,
            ) && error == VectorizeError::InvalidJson,
        },
{
    let start: usize = match field_start(body, from, key) {
        Ok(at) => at,
        Err(error) => {
            return Err(error);
        },
    };
    if start >= body.len() || body[start] != 0x22 {
        return Err(VectorizeError::InvalidJson);
    }
    let quote: [u8; 1] = [0x22u8];
    assert(quote@ =~= seq![0x22u8]);
    match find_key_from(body, start + 1, quote.as_slice()) {
        Some(end) => Ok(&body[start + 1..end]),
        None => Err(VectorizeError::InvalidJson),
    }
}

/// Reads the list in a field.
pub fn array_after<'a>(body: &'a [u8], from: usize, key: &[u8]) -> (read: Result<
    &'a [u8],
    VectorizeError,
>)
    requires
        key@.len() > 0,
    ensures
        match read {
            Ok(list) => array_field(body@, from as int, key@) == Ok::<Seq<u8>, VectorizeError>(
                list@,
            ),
            Err(error) => array_field(body@, from as int, key@) == Err::<Seq<u8>, VectorizeError>(
                error,
            ) && error == VectorizeError::InvalidJson,
        },
{
    let start: usize = match field_start(body, from, key) {
        Ok(at) => at,
        Err(error) => {
            return Err(error);
        },
    };
    if start >= body.len() || body[start] != 0x5b {
        return Err(VectorizeError::InvalidJson);
    }
    let bracket: [u8; 1] = [0x5du8];
    assert(bracket@ =~= seq![0x5du8]);
    assert(body.len() == body@.len());
    match find_key_from(body, start + 1, bracket.as_slice()) {
        Some(end) => Ok(&body[start..end + 1]),
        None => Err(VectorizeError::InvalidJson),
    }
}

/// Whether the value at `start` is `null`.
pub fn starts_with_json_null(body: &[u8], start: usize) -> (null: bool)
    ensures
        null == occurs_at(body@, bytes_of("null"), start as int),
{
    matches_at(body, "null".as_bytes(), start)
}

/// Whether the first place at which `needle` stands in `array` has a quote on either side.
pub fn array_contains_quoted(array: &[u8], needle: &[u8]) -> (found: bool)
    requires
        needle@.len() > 0,
    ensures
        found == contains_quoted(array@, needle@),
{
    match find_key(array, needle) {
        Some(i) => {
            i > 0 && needle.len() < array.len() - i && array[i - 1] == 0x22 && array[i
                + needle.len()] == 0x22
        },
        None => false,
    }
}

/// A merchant that is found stands in the list as a quoted name.
pub proof fn law_found_merchant_is_listed(array: Seq<u8>, needle: Seq<u8>)
    requires
        contains_quoted(array, needle),
    ensures
        exists|i: int|
            #[trigger] occurs_at(array, seq![0x22u8] + needle + seq![0x22u8], i),
{
    let i = first_at(array, needle, 0)->0;
    reveal(first_at);
    assert(is_first_at(array, needle, 0, i));
    let quoted = seq![0x22u8] + needle + seq![0x22u8];
    let there = array.subrange(i - 1, i - 1 + quoted.len());
    assert forall|j: int| 0 <= j < quoted.len() implies there[j] == quoted[j] by {
        if 0 < j < quoted.len() - 1 {
            assert(array.subrange(i, i + needle.len())[j - 1] == needle[j - 1]);
        }
    }
    assert(there =~= quoted);
    assert(occurs_at(array, quoted, i - 1));
}

/// Makes text of bytes with `std::str::from_utf8`.
///
/// Taken on trust: it succeeds exactly on bytes that are valid UTF-8, and gives the text
/// that has these bytes.
#[verifier::external_body]
fn text_from_utf8<'a>(bytes: &'a [u8]) -> (text: Option<&'a str>)
    ensures
        match text {
            Some(found) => valid_utf8(bytes@) && found.spec_bytes() == bytes@,
            None => !valid_utf8(bytes@),
        },
{
    std::str::from_utf8(bytes).ok()
}

/// Where the sections of a request start.
#[derive(Debug, Clone, Copy, PartialEq, Eq, Structural)]
pub struct Sections {
    pub transaction: usize,
    pub customer: usize,
    pub merchant: usize,
    pub terminal: usize,
    pub last_transaction: usize,
}

/// The sections of a request: each starts at the first mention of its quoted name.
pub open spec fn sections_of(body: Seq<u8>) -> Option<Sections> {
    match (
        first_at(body, bytes_of("\"transaction\""), 0),
        first_at(body, bytes_of("\"customer\""), 0),
        first_at(body, bytes_of("\"merchant\""), 0),
        first_at(body, bytes_of("\"terminal\""), 0),
        first_at(body, bytes_of("\"last_transaction\""), 0),
    ) {
        (Some(transaction), Some(customer), Some(merchant), Some(terminal), Some(last)) => Some(
            Sections {
                transaction: transaction as usize,
                customer: customer as usize,
                merchant: merchant as usize,
                terminal: terminal as usize,
                last_transaction: last as usize,
            },
        ),
        _ => None,
    }
}

/// Finds the sections of a request.
pub fn find_sections(body: &[u8]) -> (sections: Result<Sections, VectorizeError>)
    ensures
        match sections {
            Ok(found) => sections_of(body@) == Some(found),
            Err(error) => sections_of(body@) is None && error == VectorizeError::InvalidJson,
        },
{
    proof {
        reveal_strlit("\"transaction\"");
        reveal_strlit("\"customer\"");
        reveal_strlit("\"merchant\"");
        reveal_strlit("\"terminal\"");
        reveal_strlit("\"last_transaction\"");
        lemma_bytes_not_empty("\"transaction\""@);
        lemma_bytes_not_empty("\"customer\""@);
        lemma_bytes_not_empty("\"merchant\""@);
        lemma_bytes_not_empty("\"terminal\""@);
        lemma_bytes_not_empty("\"last_transaction\""@);
    }
    let transaction = find_key(body, "\"transaction\"".as_bytes());
    let customer = find_key(body, "\"customer\"".as_bytes());
    let merchant = find_key(body, "\"merchant\"".as_bytes());
    let terminal = find_key(body, "\"terminal\"".as_bytes());
    let last_transaction = find_key(body, "\"last_transaction\"".as_bytes());
    match (transaction, customer, merchant, terminal, last_transaction) {
        (Some(transaction), Some(customer), Some(merchant), Some(terminal), Some(last)) => Ok(
            Sections { transaction, customer, merchant, terminal, last_transaction: last },
        ),
        _ => Err(VectorizeError::InvalidJson),
    }
}

/// What is read of the transaction.
#[derive(Debug, Clone, Copy, PartialEq, Eq, Structural)]
pub struct TransactionFields {
    pub amount: Number,
    pub installments: Number,
    pub requested_minutes: i64,
    pub hour: u32,
    pub weekday: u32,
}

/// What the timestamp in a field says.
pub open spec fn time_field(body: Seq<u8>, from: int, key: Seq<u8>) -> Result<
    TimestampParts,
    VectorizeError,
> {
    match string_field(body, from, key) {
        Ok(text) => match parts_of(text) {
            Some(parts) => Ok(parts),
            None => Err(VectorizeError::InvalidJson),
        },
        Err(error) => Err(error),
    }
}

/// What is read of the transaction; the first field that fails decides on the error.
pub open spec fn transaction_fields(body: Seq<u8>, at: int) -> Result<
    TransactionFields,
    VectorizeError,
> {
    match (
        number_field(body, at, bytes_of("\"amount\"")),
        number_field(body, at, bytes_of("\"installments\"")),
        time_field(body, at, bytes_of("\"requested_at\"")),
    ) {
        (Err(error), _, _) => Err(error),
        (_, Err(error), _) => Err(error),
        (_, _, Err(error)) => Err(error),
        (Ok(amount), Ok(installments), Ok(parts)) => Ok(
            TransactionFields {
                amount,
                installments,
                requested_minutes: minute_of(parts) as i64,
                hour: parts.hour,
                weekday: weekday_of(day_of(parts)) as u32,
            },
        ),
    }
}

/// Reads the transaction.
pub fn read_transaction(body: &[u8], at: usize) -> (read: Result<TransactionFields, VectorizeError>)
    ensures
        read == transaction_fields(body@, at as int),
{
    proof {
        reveal_strlit("\"amount\"");
        reveal_strlit("\"installments\"");
        reveal_strlit("\"requested_at\"");
        lemma_bytes_not_empty("\"amount\""@);
        lemma_bytes_not_empty("\"installments\""@);
        lemma_bytes_not_empty("\"requested_at\""@);
    }
    let amount: Number = match number_after(body, at, "\"amount\"".as_bytes()) {
        Ok(value) => value,
        Err(error) => {
            return Err(error);
        },
    };
    let installments: Number = match number_after(body, at, "\"installments\"".as_bytes()) {
        Ok(value) => value,
        Err(error) => {
            return Err(error);
        },
    };
    let requested_at = match string_after(body, at, "\"requested_at\"".as_bytes()) {
        Ok(value) => value,
        Err(error) => {
            return Err(error);
        },
    };
    let requested_minutes: i64 = match timestamp_minutes(requested_at) {
        Ok(value) => value,
        Err(error) => {
            return Err(error);
        },
    };
    let hour: u32 = match hour_from_timestamp(requested_at) {
        Ok(value) => value,
        Err(error) => {
            return Err(error);
        },
    };
    let weekday: u32 = match weekday_from_ymd(requested_at) {
        Ok(value) => value,
        Err(error) => {
            return Err(error);
        },
    };
    Ok(TransactionFields { amount, installments, requested_minutes, hour, weekday })
}

/// What is read of the customer.
#[derive(Debug, Clone, Copy)]
pub struct CustomerFields<'a> {
    pub avg_amount: Number,
    pub tx_count_24h: Number,
    pub known_merchants: &'a [u8],
}

/// What is read of the customer: average amount, count of transactions, and known
/// merchants. The first field that fails decides on the error.
pub open spec fn customer_fields(body: Seq<u8>, at: int) -> Result<
    (Number, Number, Seq<u8>),
    VectorizeError,
> {
    match (
        number_field(body, at, bytes_of("\"avg_amount\"")),
        number_field(body, at, bytes_of("\"tx_count_24h\"")),
        array_field(body, at, bytes_of("\"known_merchants\"")),
    ) {
        (Err(error), _, _) => Err(error),
        (_, Err(error), _) => Err(error),
        (_, _, Err(error)) => Err(error),
        (Ok(average), Ok(count), Ok(known)) => Ok((average, count, known)),
    }
}

/// Reads the customer.
pub fn read_customer<'a>(body: &'a [u8], at: usize) -> (read: Result<
    CustomerFields<'a>,
    VectorizeError,
>)
    ensures
        match read {
            Ok(fields) => customer_fields(body@, at as int) == Ok::<_, VectorizeError>(
                (fields.avg_amount, fields.tx_count_24h, fields.known_merchants@),
            ),
            Err(error) => customer_fields(body@, at as int) == Err::<
                (Number, Number, Seq<u8>),
                VectorizeError,
            >(error),
        },
{
    proof {
        reveal_strlit("\"avg_amount\"");
        reveal_strlit("\"tx_count_24h\"");
        reveal_strlit("\"known_merchants\"");
        lemma_bytes_not_empty("\"avg_amount\""@);
        lemma_bytes_not_empty("\"tx_count_24h\""@);
        lemma_bytes_not_empty("\"known_merchants\""@);
    }
    let avg_amount: Number = match number_after(body, at, "\"avg_amount\"".as_bytes()) {
        Ok(value) => value,
        Err(error) => {
            return Err(error);
        },
    };
    let tx_count_24h: Number = match number_after(body, at, "\"tx_count_24h\"".as_bytes()) {
        Ok(value) => value,
        Err(error) => {
            return Err(error);
        },
    };
    let known_merchants = match array_after(body, at, "\"known_merchants\"".as_bytes()) {
        Ok(value) => value,
        Err(error) => {
            return Err(error);
        },
    };
    Ok(CustomerFields { avg_amount, tx_count_24h, known_merchants })
}

/// What is read of the merchant.
#[derive(Debug, Clone, Copy)]
pub struct MerchantFields<'a> {
    pub id: &'a [u8],
    pub mcc: &'a [u8],
    pub avg_amount: Number,
}

/// What is read of the merchant: name, category code, and average amount. The first field
/// that fails decides on the error.
pub open spec fn merchant_fields(body: Seq<u8>, at: int) -> Result<
    (Seq<u8>, Seq<u8>, Number),
    VectorizeError,
> {
    match (
        string_field(body, at, bytes_of("\"id\"")),
        string_field(body, at, bytes_of("\"mcc\"")),
        number_field(body, at, bytes_of("\"avg_amount\"")),
    ) {
        (Err(error), _, _) => Err(error),
        (_, Err(error), _) => Err(error),
        (_, _, Err(error)) => Err(error),
        (Ok(id), Ok(mcc), Ok(average)) => Ok((id, mcc, average)),
    }
}

/// Reads the merchant.
pub fn read_merchant<'a>(body: &'a [u8], at: usize) -> (read: Result<
    MerchantFields<'a>,
    VectorizeError,
>)
    ensures
        match read {
            Ok(fields) => merchant_fields(body@, at as int) == Ok::<_, VectorizeError>(
                (fields.id@, fields.mcc@, fields.avg_amount),
            ),
            Err(error) => merchant_fields(body@, at as int) == Err::<
                (Seq<u8>, Seq<u8>, Number),
                VectorizeError,
            >(error),
        },
{
    proof {
        reveal_strlit("\"id\"");
        reveal_strlit("\"mcc\"");
        reveal_strlit("\"avg_amount\"");
        lemma_bytes_not_empty("\"id\""@);
        lemma_bytes_not_empty("\"mcc\""@);
        lemma_bytes_not_empty("\"avg_amount\""@);
    }
    let id = match string_after(body, at, "\"id\"".as_bytes()) {
        Ok(value) => value,
        Err(error) => {
            return Err(error);
        },
    };
    let mcc = match string_after(body, at, "\"mcc\"".as_bytes()) {
        Ok(value) => value,
        Err(error) => {
            return Err(error);
        },
    };
    let avg_amount: Number = match number_after(body, at, "\"avg_amount\"".as_bytes()) {
        Ok(value) => value,
        Err(error) => {
            return Err(error);
        },
    };
    Ok(MerchantFields { id, mcc, avg_amount })
}

/// What is read of the terminal.
#[derive(Debug, Clone, Copy, PartialEq, Eq, Structural)]
pub struct TerminalFields {
    pub is_online: bool,
    pub card_present: bool,
    pub km_from_home: Number,
}

/// What is read of the terminal; the first field that fails decides on the error.
pub open spec fn terminal_fields(body: Seq<u8>, at: int) -> Result<TerminalFields, VectorizeError> {
    match (
        bool_field(body, at, bytes_of("\"is_online\"")),
        bool_field(body, at, bytes_of("\"card_present\"")),
        number_field(body, at, bytes_of("\"km_from_home\"")),
    ) {
        (Err(error), _, _) => Err(error),
        (_, Err(error), _) => Err(error),
        (_, _, Err(error)) => Err(error),
        (Ok(is_online), Ok(card_present), Ok(km_from_home)) => Ok(
            TerminalFields { is_online, card_present, km_from_home },
        ),
    }
}

/// Reads the terminal.
pub fn read_terminal(body: &[u8], at: usize) -> (read: Result<TerminalFields, VectorizeError>)
    ensures
        read == terminal_fields(body@, at as int),
{
    proof {
        reveal_strlit("\"is_online\"");
        reveal_strlit("\"card_present\"");
        reveal_strlit("\"km_from_home\"");
        lemma_bytes_not_empty("\"is_online\""@);
        lemma_bytes_not_empty("\"card_present\""@);
        lemma_bytes_not_empty("\"km_from_home\""@);
    }
    let is_online: bool = match bool_after(body, at, "\"is_online\"".as_bytes()) {
        Ok(value) => value,
        Err(error) => {
            return Err(error);
        },
    };
    let card_present: bool = match bool_after(body, at, "\"card_present\"".as_bytes()) {
        Ok(value) => value,
        Err(error) => {
            return Err(error);
        },
    };
    let km_from_home: Number = match number_after(body, at, "\"km_from_home\"".as_bytes()) {
        Ok(value) => value,
        Err(error) => {
            return Err(error);
        },
    };
    Ok(TerminalFields { is_online, card_present, km_from_home })
}

/// The 64-bit number nearest to `n`.
pub open spec fn saturated(n: int) -> i64 {
    if n > i64::MAX {
        i64::MAX
    } else if n < i64::MIN {
        i64::MIN
    } else {
        n as i64
    }
}

/// The difference of two numbers, or the 64-bit number nearest to it.
pub fn saturating_difference(a: i64, b: i64) -> (difference: i64)
    ensures
        difference == saturated(a - b),
        -0x8000_0000_0000_0000 <= a - b <= 0x7fff_ffff_ffff_ffff ==> difference == a - b,
        a - b > 0x7fff_ffff_ffff_ffff ==> difference == 0x7fff_ffff_ffff_ffff,
        a - b < -0x8000_0000_0000_0000 ==> difference == -0x8000_0000_0000_0000,
{
    let exact: i128 = a as i128 - b as i128;
    if exact > i64::MAX as i128 {
        i64::MAX
    } else if exact < i64::MIN as i128 {
        i64::MIN
    } else {
        exact as i64
    }
}

/// What is read of the last transaction.
#[derive(Debug, Clone, Copy, PartialEq, Eq, Structural)]
pub struct LastFields {
    /// Minutes from the last transaction to the request; negative where it is later, and
    /// the nearest number of 64 bits where they cannot be counted.
    pub minutes: i64,
    pub km_from_current: Number,
}

/// What is read of the last transaction, unless it is `null`; the first field that fails
/// decides on the error.
pub open spec fn last_fields(body: Seq<u8>, at: int, requested_minutes: int) -> Result<
    Option<LastFields>,
    VectorizeError,
> {
    match value_at(body, at) {
        None => Err(VectorizeError::InvalidJson),
        Some(start) => if occurs_at(body, bytes_of("null"), start) {
            Ok(None)
        } else {
            match (
                time_field(body, at, bytes_of("\"timestamp\"")),
                number_field(body, at, bytes_of("\"km_from_current\"")),
            ) {
                (Err(error), _) => Err(error),
                (_, Err(error)) => Err(error),
                (Ok(parts), Ok(km_from_current)) => Ok(
                    Some(
                        LastFields {
                            minutes: saturated(requested_minutes - minute_of(parts)),
                            km_from_current,
                        },
                    ),
                ),
            }
        },
    }
}

/// Reads the last transaction.
pub fn read_last(body: &[u8], at: usize, requested_minutes: i64) -> (read: Result<
    Option<LastFields>,
    VectorizeError,
>)
    ensures
        read == last_fields(body@, at as int, requested_minutes as int),
{
    proof {
        reveal_strlit("\"timestamp\"");
        reveal_strlit("\"km_from_current\"");
        lemma_bytes_not_empty("\"timestamp\""@);
        lemma_bytes_not_empty("\"km_from_current\""@);
    }
    let start: usize = match value_start(body, at) {
        Ok(value) => value,
        Err(error) => {
            return Err(error);
        },
    };
    if starts_with_json_null(body, start) {
        return Ok(None);
    }
    let timestamp = match string_after(body, at, "\"timestamp\"".as_bytes()) {
        Ok(value) => value,
        Err(error) => {
            return Err(error);
        },
    };
    let last_minutes: i64 = match timestamp_minutes(timestamp) {
        Ok(value) => value,
        Err(error) => {
            return Err(error);
        },
    };
    let km_from_current: Number = match number_after(body, at, "\"km_from_current\"".as_bytes()) {
        Ok(value) => value,
        Err(error) => {
            return Err(error);
        },
    };
    let minutes: i64 = saturating_difference(requested_minutes, last_minutes);
    Ok(Some(LastFields { minutes, km_from_current }))
}

/// What the features are computed from.
#[derive(Debug, Clone, Copy)]
pub struct RequestFields<'a> {
    pub transaction: TransactionFields,
    pub customer_avg_amount: Number,
    pub tx_count_24h: Number,
    pub known_merchant: bool,
    pub mcc: &'a str,
    pub merchant_avg_amount: Number,
    pub terminal: TerminalFields,
    pub last: Option<LastFields>,
}

/// What a request says, with the category code as bytes.
pub ghost struct RequestModel {
    pub transaction: TransactionFields,
    pub customer_avg_amount: Number,
    pub tx_count_24h: Number,
    pub known_merchant: bool,
    pub mcc: Seq<u8>,
    pub merchant_avg_amount: Number,
    pub terminal: TerminalFields,
    pub last: Option<LastFields>,
}

impl<'a> RequestFields<'a> {
    /// What the request says.
    pub open spec fn model(self) -> RequestModel {
        RequestModel {
            transaction: self.transaction,
            customer_avg_amount: self.customer_avg_amount,
            tx_count_24h: self.tx_count_24h,
            known_merchant: self.known_merchant,
            mcc: self.mcc.spec_bytes(),
            merchant_avg_amount: self.merchant_avg_amount,
            terminal: self.terminal,
            last: self.last,
        }
    }
}

/// What a request says. Transaction, customer, merchant, terminal and last transaction are
/// read in this order, and the first that fails decides on the error; last come a merchant
/// without a name, and a category code that is no text.
pub open spec fn request_of(body: Seq<u8>) -> Result<RequestModel, VectorizeError> {
    match sections_of(body) {
        None => Err(VectorizeError::InvalidJson),
        Some(sections) => match (
            transaction_fields(body, sections.transaction as int),
            customer_fields(body, sections.customer as int),
            merchant_fields(body, sections.merchant as int),
            terminal_fields(body, sections.terminal as int),
        ) {
            (Err(error), _, _, _) => Err(error),
            (_, Err(error), _, _) => Err(error),
            (_, _, Err(error), _) => Err(error),
            (_, _, _, Err(error)) => Err(error),
            (Ok(transaction), Ok(customer), Ok(merchant), Ok(terminal)) => match last_fields(
                body,
                sections.last_transaction as int,
                transaction.requested_minutes as int,
            ) {
                Err(error) => Err(error),
                Ok(last) => if merchant.0.len() == 0 {
                    Err(VectorizeError::EmptyMerchantId)
                } else if !valid_utf8(merchant.1) {
                    Err(VectorizeError::InvalidJson)
                } else {
                    Ok(
                        RequestModel {
                            transaction,
                            customer_avg_amount: customer.0,
                            tx_count_24h: customer.1,
                            known_merchant: contains_quoted(customer.2, merchant.0),
                            mcc: merchant.1,
                            merchant_avg_amount: merchant.2,
                            terminal,
                            last,
                        },
                    )
                },
            },
        },
    }
}

/// Reads a request.
pub fn read_request<'a>(body: &'a [u8]) -> (read: Result<RequestFields<'a>, VectorizeError>)
    ensures
        match read {
            Ok(fields) => request_of(body@) == Ok::<RequestModel, VectorizeError>(fields.model()),
            Err(error) => request_of(body@) == Err::<RequestModel, VectorizeError>(error),
        },
        read matches Ok(fields) ==> {
            &&& request_of(body@) matches Ok(said)
            &&& fields.transaction == said.transaction
            &&& fields.customer_avg_amount == said.customer_avg_amount
            &&& fields.tx_count_24h == said.tx_count_24h
            &&& fields.known_merchant == said.known_merchant
            &&& encode_utf8(fields.mcc@) == said.mcc
            &&& fields.merchant_avg_amount == said.merchant_avg_amount
            &&& fields.terminal == said.terminal
            &&& fields.last == said.last
        },
{
    let sections = match find_sections(body) {
        Ok(value) => value,
        Err(error) => {
            return Err(error);
        },
    };
    let transaction = match read_transaction(body, sections.transaction) {
        Ok(value) => value,
        Err(error) => {
            return Err(error);
        },
    };
    let customer = match read_customer(body, sections.customer) {
        Ok(value) => value,
        Err(error) => {
            return Err(error);
        },
    };
    let merchant = match read_merchant(body, sections.merchant) {
        Ok(value) => value,
        Err(error) => {
            return Err(error);
        },
    };
    let terminal = match read_terminal(body, sections.terminal) {
        Ok(value) => value,
        Err(error) => {
            return Err(error);
        },
    };
    let last = match read_last(body, sections.last_transaction, transaction.requested_minutes) {
        Ok(value) => value,
        Err(error) => {
            return Err(error);
        },
    };
    if merchant.id.len() == 0 {
        return Err(VectorizeError::EmptyMerchantId);
    }
    let known_merchant: bool = array_contains_quoted(customer.known_merchants, merchant.id);
    match text_from_utf8(merchant.mcc) {
        Some(mcc) => Ok(
            RequestFields {
                transaction,
                customer_avg_amount: customer.avg_amount,
                tx_count_24h: customer.tx_count_24h,
                known_merchant,
                mcc,
                merchant_avg_amount: merchant.avg_amount,
                terminal,
                last,
            },
        ),
        None => Err(VectorizeError::InvalidJson),
    }
}

/// What a request says is put together from its sections.
pub proof fn lemma_request_of(
    body: Seq<u8>,
    sections: Sections,
    transaction: TransactionFields,
    customer: (Number, Number, Seq<u8>),
    merchant: (Seq<u8>, Seq<u8>, Number),
    terminal: TerminalFields,
    last: Option<LastFields>,
)
    requires
        sections_of(body) == Some(sections),
        transaction_fields(body, sections.transaction as int) == Ok::<_, VectorizeError>(
            transaction,
        ),
        customer_fields(body, sections.customer as int) == Ok::<_, VectorizeError>(customer),
        merchant_fields(body, sections.merchant as int) == Ok::<_, VectorizeError>(merchant),
        terminal_fields(body, sections.terminal as int) == Ok::<_, VectorizeError>(terminal),
        last_fields(
            body,
            sections.last_transaction as int,
            transaction.requested_minutes as int,
        ) == Ok::<_, VectorizeError>(last),
        merchant.0.len() > 0,
        valid_utf8(merchant.1),
    ensures
        request_of(body) == Ok::<RequestModel, VectorizeError>(
            RequestModel {
                transaction,
                customer_avg_amount: customer.0,
                tx_count_24h: customer.1,
                known_merchant: contains_quoted(customer.2, merchant.0),
                mcc: merchant.1,
                merchant_avg_amount: merchant.2,
                terminal,
                last,
            },
        ),
{
}

/// A number that was written is read: digits, a point, digits, and something else.
#[verifier::spinoff_prover]
#[verifier::rlimit(40)]
pub proof fn law_written_number_is_read(whole: Seq<u8>, behind: Seq<u8>, rest: Seq<u8>)
    requires
        all_digits(whole),
        decimal(whole) <= i64::MAX,
        all_digits(behind),
        behind.len() <= 18,
        rest.len() > 0 ==> !is_digit(rest[0]),
    ensures
        number_of(whole + seq![0x2eu8] + behind + rest) == Some(
            Number {
                negative: false,
                whole: decimal(whole) as i64,
                fraction: decimal(behind) as i64,
                scale: pow10(behind.len()) as i64,
            },
        ),
        number_of(seq![0x2du8] + whole + seq![0x2eu8] + behind + rest) == Some(
            Number {
                negative: true,
                whole: decimal(whole) as i64,
                fraction: decimal(behind) as i64,
                scale: pow10(behind.len()) as i64,
            },
        ),
{
    let t = whole + seq![0x2eu8] + behind + rest;
    let n = whole.len() as int;
    assert(t.take(n) =~= whole);
    assert(t[n] == 0x2e);
    lemma_digit_count(t, n);
    let after = t.skip(n);
    let tail = after.skip(1);
    let k = behind.len() as int;
    assert(tail =~= behind + rest);
    assert(tail.take(k) =~= behind);
    lemma_digit_count(tail, k);
    assert(t[0] != 0x2d) by {
        if n > 0 {
            assert(t[0] == whole[0] && is_digit(whole[0]));
        }
    }
    let signed = seq![0x2du8] + whole + seq![0x2eu8] + behind + rest;
    assert(signed.skip(1) =~= t);
    assert(signed[0] == 0x2d);
}

/// Every number that is read is well formed, and positive exactly if its value is greater
/// than zero.
pub proof fn law_numbers_are_well_formed(s: Seq<u8>)
    requires
        number_of(s) is Some,
    ensures
        number_of(s)->0.wf(),
        number_of(s)->0.positive() <==> !number_of(s)->0.negative && number_of(s)->0.whole
            * number_of(s)->0.scale + number_of(s)->0.fraction > 0,
{
    let t = unsigned_part(s);
    let digits = leading_digits(t);
    let rest = t.skip(digits.len() as int);
    let behind = fraction_digits(rest);
    lemma_digit_count_bounds(t);
    assert(all_digits(behind)) by {
        if rest.len() > 0 && rest[0] == 0x2e {
            lemma_digit_count_bounds(rest.skip(1));
        }
    }
    lemma_fraction_fits(digits);
    lemma_fraction_fits(behind);
    lemma_pow10_grows(0, behind.len());
    lemma_pow10_grows(behind.len(), 18);
    lemma_pow10_18();
    let whole = decimal(digits);
    let scale = pow10(behind.len());
    assert(whole > 0 ==> whole * scale > 0) by (nonlinear_arith)
        requires
            scale >= 1,
    ;
    assert(whole == 0 ==> whole * scale == 0) by (nonlinear_arith);
}

/// A text that was written is read: a name, a colon, and the text between quotes.
pub proof fn law_written_string_is_read(
    before: Seq<u8>,
    key: Seq<u8>,
    text: Seq<u8>,
    rest: Seq<u8>,
    from: int,
)
    requires
        0 <= from <= before.len(),
        forall|i: int| 0 <= i < key.len() ==> #[trigger] key[i] != 0x3a,
        forall|i: int| 0 <= i < text.len() ==> #[trigger] text[i] != 0x22,
        first_at(before + key + seq![0x3au8, 0x22u8] + text + seq![0x22u8] + rest, key, from)
            == Some(before.len() as int),
    ensures
        string_field(
            before + key + seq![0x3au8, 0x22u8] + text + seq![0x22u8] + rest,
            from,
            key,
        ) == Ok::<Seq<u8>, VectorizeError>(text),
{
    let body = before + key + seq![0x3au8, 0x22u8] + text + seq![0x22u8] + rest;
    let at = before.len() as int;
    let colon = at + key.len();
    assert(body[colon] == 0x3a);
    assert(body.subrange(colon, colon + 1) =~= seq![0x3au8]);
    assert forall|j: int| at <= j < colon implies !#[trigger] occurs_at(body, seq![0x3au8], j) by {
        assert(body[j] == key[j - at]);
        assert(body.subrange(j, j + 1)[0] == body[j]);
    }
    assert(is_first_at(body, seq![0x3au8], at, colon));
    lemma_first_at(body, seq![0x3au8], at, colon);
    let start = colon + 1;
    assert(body[start] == 0x22);
    let end = start + 1 + text.len();
    assert(body[end] == 0x22);
    assert(body.subrange(end, end + 1) =~= seq![0x22u8]);
    assert forall|j: int| start + 1 <= j < end implies !#[trigger] occurs_at(
        body,
        seq![0x22u8],
        j,
    ) by {
        assert(body[j] == text[j - start - 1]);
        assert(body.subrange(j, j + 1)[0] == body[j]);
    }
    assert(is_first_at(body, seq![0x22u8], start + 1, end));
    lemma_first_at(body, seq![0x22u8], start + 1, end);
    assert(body.subrange(start + 1, end) =~= text);
}

/// The value of a field stands behind the first colon behind the first place of its name, and
/// behind the white space there. Of the value, a text reaches from one quote to the next, a list
/// from its opening bracket to the next closing one, and a truth value is spelled out.
pub proof fn law_value_stands_behind_its_name(
    body: Seq<u8>,
    from: int,
    key: Seq<u8>,
    name_at: int,
    colon: int,
    start: int,
)
    requires
        0 <= from <= name_at <= colon < start <= body.len(),
        name_at + key.len() <= body.len(),
        body.subrange(name_at, name_at + key.len()) == key,
        forall|j: int|
            from <= j < name_at ==> #[trigger] body.subrange(j, j + key.len()) != key,
        body[colon] == 0x3a,
        forall|j: int| name_at <= j < colon ==> #[trigger] body[j] != 0x3a,
        forall|j: int|
            colon < j < start ==> #[trigger] body[j] == 0x20 || body[j] == 0x0a || body[j] == 0x0d
                || body[j] == 0x09,
        start < body.len() ==> body[start] != 0x20 && body[start] != 0x0a && body[start] != 0x0d
            && body[start] != 0x09,
    ensures
        value_at(body, name_at) == Some(start),
        field_at(body, from, key) == Some(start),
        match number_of(body.skip(start)) {
            Some(number) => number_field(body, from, key) == Ok::<_, VectorizeError>(number),
            None => number_field(body, from, key) == Err::<Number, _>(
                VectorizeError::NumberTooLarge,
            ),
        },
        start < body.len() && body[start] == 0x22 ==> match string_field(body, from, key) {
            Ok(text) => {
                let end = start + 1 + text.len();
                &&& end < body.len()
                &&& body[end] == 0x22
                &&& text == body.subrange(start + 1, end)
                &&& forall|j: int| start < j < end ==> #[trigger] body[j] != 0x22
            },
            Err(error) => {
                &&& error == VectorizeError::InvalidJson
                &&& forall|j: int| start < j < body.len() ==> #[trigger] body[j] != 0x22
            },
        },
        start == body.len() || body[start] != 0x22 ==> string_field(body, from, key) == Err::<
            Seq<u8>,
            _,
        >(VectorizeError::InvalidJson),
        start < body.len() && body[start] == 0x5b ==> match array_field(body, from, key) {
            Ok(list) => {
                let end = start + list.len();
                &&& start + 1 < end <= body.len()
                &&& body[end - 1] == 0x5d
                &&& list == body.subrange(start, end)
                &&& forall|j: int| start < j < end - 1 ==> #[trigger] body[j] != 0x5d
            },
            Err(error) => {
                &&& error == VectorizeError::InvalidJson
                &&& forall|j: int| start < j < body.len() ==> #[trigger] body[j] != 0x5d
            },
        },
        start == body.len() || body[start] != 0x5b ==> array_field(body, from, key) == Err::<
            Seq<u8>,
            _,
        >(VectorizeError::InvalidJson),
{
    law_first_place_is_found(body, key, from, name_at);
    assert(body.subrange(colon, colon + 1) =~= seq![0x3au8]);
    assert forall|j: int| name_at <= j < colon implies #[trigger] body.subrange(j, j + 1)
        != seq![0x3au8] by {
        assert(body.subrange(j, j + 1)[0] == body[j]);
    }
    law_first_place_is_found(body, seq![0x3au8], name_at, colon);
    lemma_spaces_end(body, colon + 1, start);
    lemma_next_byte(body, 0x22, start + 1);
    lemma_next_byte(body, 0x5d, start + 1);
}

proof fn lemma_spaces_end(body: Seq<u8>, from: int, to: int)
    requires
        0 <= from <= to <= body.len(),
        forall|j: int| from <= j < to ==> is_space(#[trigger] body[j]),
        to < body.len() ==> !is_space(body[to]),
    ensures
        after_spaces(body, from) == to,
    decreases to - from,
{
    if from < to {
        assert(is_space(body[from]));
        lemma_spaces_end(body, from + 1, to);
    }
}

proof fn lemma_next_byte(body: Seq<u8>, byte: u8, from: int)
    requires
        0 <= from,
    ensures
        match first_at(body, seq![byte], from) {
            Some(i) => {
                &&& from <= i < body.len()
                &&& body[i] == byte
                &&& forall|j: int| from <= j < i ==> #[trigger] body[j] != byte
            },
            None => forall|j: int| from <= j < body.len() ==> #[trigger] body[j] != byte,
        },
{
    law_found_place_is_the_first(body, seq![byte], from);
    let end = match first_at(body, seq![byte], from) {
        Some(i) => {
            assert(body.subrange(i, i + 1)[0] == body[i]);
            i
        },
        None => body.len() as int,
    };
    assert forall|j: int| from <= j < end implies #[trigger] body[j] != byte by {
        let there = body.subrange(j, j + 1);
        assert(there != seq![byte]);
        if body[j] == byte {
            assert(there =~= seq![byte]);
        }
    }
}

/// A truth value is spelled out in the four letters of `true` or the five of `false`; nothing else
/// is one.
pub proof fn law_truth_value_is_spelled_out(body: Seq<u8>, from: int, key: Seq<u8>, start: int)
    requires
        field_at(body, from, key) == Some(start),
        0 <= start <= body.len(),
    ensures
        ({
            let yes = start + 4 <= body.len() && body[start] == 0x74 && body[start + 1] == 0x72
                && body[start + 2] == 0x75 && body[start + 3] == 0x65;
            let no = start + 5 <= body.len() && body[start] == 0x66 && body[start + 1] == 0x61
                && body[start + 2] == 0x6c && body[start + 3] == 0x73 && body[start + 4] == 0x65;
            &&& yes ==> bool_field(body, from, key) == Ok::<_, VectorizeError>(true)
            &&& no ==> bool_field(body, from, key) == Ok::<_, VectorizeError>(false)
            &&& !yes && !no ==> bool_field(body, from, key) == Err::<bool, _>(
                VectorizeError::InvalidJson,
            )
        }),
{
    reveal_strlit("true");
    reveal_strlit("false");
    vstd::utf8::is_ascii_chars_encode_utf8("true"@);
    vstd::utf8::is_ascii_chars_encode_utf8("false"@);
    assert(bytes_of("true") =~= seq![0x74u8, 0x72u8, 0x75u8, 0x65u8]);
    assert(bytes_of("false") =~= seq![0x66u8, 0x61u8, 0x6cu8, 0x73u8, 0x65u8]);
    if start + 4 <= body.len() {
        let four = body.subrange(start, start + 4);
        assert(four[0] == body[start] && four[1] == body[start + 1] && four[2] == body[start + 2]
            && four[3] == body[start + 3]);
        if four[0] == 0x74 && four[1] == 0x72 && four[2] == 0x75 && four[3] == 0x65 {
            assert(four =~= bytes_of("true"));
        }
    }
    if start + 5 <= body.len() {
        let five = body.subrange(start, start + 5);
        assert(five[0] == body[start] && five[1] == body[start + 1] && five[2] == body[start + 2]
            && five[3] == body[start + 3] && five[4] == body[start + 4]);
        if five[0] == 0x66 && five[1] == 0x61 && five[2] == 0x6c && five[3] == 0x73 && five[4]
            == 0x65 {
            assert(five =~= bytes_of("false"));
        }
    }
}

/// A field whose name does not stand in the text, or has no colon behind it, cannot be read.
pub proof fn law_missing_field_is_an_error(body: Seq<u8>, from: int, key: Seq<u8>)
    requires
        0 <= from,
        forall|j: int|
            from <= j && j + key.len() <= body.len() ==> #[trigger] body.subrange(j, j + key.len())
                != key || forall|k: int| j <= k < body.len() ==> #[trigger] body[k] != 0x3a,
    ensures
        field_at(body, from, key) is None,
        number_field(body, from, key) == Err::<Number, _>(VectorizeError::InvalidJson),
        bool_field(body, from, key) == Err::<bool, _>(VectorizeError::InvalidJson),
        string_field(body, from, key) == Err::<Seq<u8>, _>(VectorizeError::InvalidJson),
        array_field(body, from, key) == Err::<Seq<u8>, _>(VectorizeError::InvalidJson),
{
    law_found_place_is_the_first(body, key, from);
    if let Some(i) = first_at(body, key, from) {
        assert(body.subrange(i, i + key.len()) == key);
        lemma_next_byte(body, 0x3a, i);
    }
}

/// Ten to the power of a number is one, times ten for each step.
pub proof fn law_powers_of_ten(n: nat)
    ensures
        pow10(0) == 1,
        pow10(n + 1) == 10 * pow10(n),
{
}

/// A number is read digit for digit, with its sign and with the digits behind its point, whatever
/// follows that does not go on with it. It is too large exactly if what stands before the point
/// does not fit into 64 bits, or more than eighteen digits stand behind it.
#[verifier::spinoff_prover]
#[verifier::rlimit(40)]
pub proof fn law_number_is_read_as_written(
    negative: bool,
    whole: Seq<u8>,
    behind: Option<Seq<u8>>,
    more: Seq<u8>,
)
    requires
        forall|k: int| 0 <= k < whole.len() ==> 48 <= #[trigger] whole[k] <= 57,
        behind matches Some(digits) ==> forall|k: int|
            0 <= k < digits.len() ==> 48 <= #[trigger] digits[k] <= 57,
        more.len() > 0 ==> more[0] < 48 || more[0] > 57,
        behind is None && more.len() > 0 ==> more[0] != 0x2e,
        !negative && whole.len() == 0 && behind is None && more.len() > 0 ==> more[0] != 0x2d,
    ensures
        ({
            let sign = if negative {
                seq![0x2du8]
            } else {
                Seq::<u8>::empty()
            };
            let tail = match behind {
                Some(digits) => seq![0x2eu8] + digits,
                None => Seq::<u8>::empty(),
            };
            let fraction = match behind {
                Some(digits) => digits,
                None => Seq::<u8>::empty(),
            };
            match number_of(sign + whole + tail + more) {
                Some(number) => {
                    &&& decimal(whole) <= 0x7fff_ffff_ffff_ffff
                    &&& fraction.len() <= 18
                    &&& number.negative == negative
                    &&& number.whole == decimal(whole)
                    &&& number.fraction == decimal(fraction)
                    &&& number.scale == pow10(fraction.len())
                },
                None => decimal(whole) > 0x7fff_ffff_ffff_ffff || fraction.len() > 18,
            }
        }),
{
    let sign = if negative {
        seq![0x2du8]
    } else {
        Seq::<u8>::empty()
    };
    let tail = match behind {
        Some(digits) => seq![0x2eu8] + digits,
        None => Seq::<u8>::empty(),
    };
    let fraction = match behind {
        Some(digits) => digits,
        None => Seq::<u8>::empty(),
    };
    let s = sign + whole + tail + more;
    let t = unsigned_part(s);
    let n = whole.len() as int;
    assert(t =~= whole + (tail + more)) by {
        if negative {
            assert(s[0] == 0x2d);
        } else if n > 0 {
            assert(s[0] == whole[0]);
        } else if s.len() > 0 {
            assert(behind is Some ==> s[0] == 0x2e);
            assert(behind is None ==> s[0] == more[0]);
        }
    }
    assert(s.len() > 0 ==> (s[0] == 0x2d <==> negative)) by {
        if negative {
            assert(s[0] == 0x2d);
        } else if n > 0 {
            assert(s[0] == whole[0]);
        } else if s.len() > 0 {
            assert(behind is Some ==> s[0] == 0x2e);
            assert(behind is None ==> s[0] == more[0]);
        }
    }
    if (tail + more).len() > 0 {
        assert(behind is Some ==> (tail + more)[0] == 0x2e);
        assert(behind is None ==> (tail + more)[0] == more[0]);
    }
    law_digits_end_at_the_first_other_byte(whole, tail + more);
    let rest = t.skip(n);
    assert(rest =~= tail + more);
    law_digits_end_at_the_first_other_byte(fraction, more);
    match behind {
        Some(digits) => {
            assert(rest[0] == 0x2e);
            assert(rest.skip(1) =~= digits + more);
            assert(fraction_digits(rest) == digits);
        },
        None => {
            assert(rest =~= more);
            assert(fraction_digits(rest) =~= Seq::<u8>::empty());
        },
    }
    lemma_fraction_fits(whole);
    lemma_fraction_fits(fraction);
    if fraction.len() <= 18 {
        lemma_pow10_grows(fraction.len(), 18);
        lemma_pow10_18();
    }
}

/// The sections of a request start at the first places of their quoted names.
pub proof fn law_sections_start_at_their_names(body: Seq<u8>)
    requires
        body.len() <= usize::MAX,
    ensures
        match sections_of(body) {
            Some(sections) => {
                &&& first_at(body, bytes_of("\"transaction\""), 0) == Some(
                    sections.transaction as int,
                )
                &&& first_at(body, bytes_of("\"customer\""), 0) == Some(sections.customer as int)
                &&& first_at(body, bytes_of("\"merchant\""), 0) == Some(sections.merchant as int)
                &&& first_at(body, bytes_of("\"terminal\""), 0) == Some(sections.terminal as int)
                &&& first_at(body, bytes_of("\"last_transaction\""), 0) == Some(
                    sections.last_transaction as int,
                )
            },
            None => {
                ||| first_at(body, bytes_of("\"transaction\""), 0) is None
                ||| first_at(body, bytes_of("\"customer\""), 0) is None
                ||| first_at(body, bytes_of("\"merchant\""), 0) is None
                ||| first_at(body, bytes_of("\"terminal\""), 0) is None
                ||| first_at(body, bytes_of("\"last_transaction\""), 0) is None
            },
        },
{
    law_found_place_is_the_first(body, bytes_of("\"transaction\""), 0);
    law_found_place_is_the_first(body, bytes_of("\"customer\""), 0);
    law_found_place_is_the_first(body, bytes_of("\"merchant\""), 0);
    law_found_place_is_the_first(body, bytes_of("\"terminal\""), 0);
    law_found_place_is_the_first(body, bytes_of("\"last_transaction\""), 0);
}

/// A section is read exactly if each of its fields is, and it says what they say. The time of the
/// last transaction is counted in minutes before the request.
pub proof fn law_sections_say_what_their_fields_say(body: Seq<u8>, at: int, requested: int)
    requires
        -20_000_000_000 <= requested <= 20_000_000_000,
    ensures
        match transaction_fields(body, at) {
            Ok(said) => {
                &&& number_field(body, at, bytes_of("\"amount\"")) == Ok::<_, VectorizeError>(
                    said.amount,
                )
                &&& number_field(body, at, bytes_of("\"installments\"")) == Ok::<
                    _,
                    VectorizeError,
                >(said.installments)
                &&& string_field(body, at, bytes_of("\"requested_at\"")) matches Ok(text)
                &&& parts_of(text) matches Some(parts)
                &&& said.requested_minutes == minute_of(parts)
                &&& said.hour == parts.hour
                &&& said.weekday == weekday_of(day_of(parts))
            },
            Err(error) => {
                ||| number_field(body, at, bytes_of("\"amount\"")) == Err::<Number, _>(error)
                ||| number_field(body, at, bytes_of("\"installments\"")) == Err::<Number, _>(error)
                ||| string_field(body, at, bytes_of("\"requested_at\"")) == Err::<Seq<u8>, _>(
                    error,
                )
                ||| {
                    &&& string_field(body, at, bytes_of("\"requested_at\"")) matches Ok(text)
                    &&& parts_of(text) is None
                    &&& error == VectorizeError::InvalidJson
                }
            },
        },
        match customer_fields(body, at) {
            Ok((average, count, known)) => {
                &&& number_field(body, at, bytes_of("\"avg_amount\"")) == Ok::<_, VectorizeError>(
                    average,
                )
                &&& number_field(body, at, bytes_of("\"tx_count_24h\"")) == Ok::<
                    _,
                    VectorizeError,
                >(count)
                &&& array_field(body, at, bytes_of("\"known_merchants\"")) == Ok::<
                    _,
                    VectorizeError,
                >(known)
            },
            Err(error) => {
                ||| number_field(body, at, bytes_of("\"avg_amount\"")) == Err::<Number, _>(error)
                ||| number_field(body, at, bytes_of("\"tx_count_24h\"")) == Err::<Number, _>(error)
                ||| array_field(body, at, bytes_of("\"known_merchants\"")) == Err::<Seq<u8>, _>(
                    error,
                )
            },
        },
        match merchant_fields(body, at) {
            Ok((id, mcc, average)) => {
                &&& string_field(body, at, bytes_of("\"id\"")) == Ok::<_, VectorizeError>(id)
                &&& string_field(body, at, bytes_of("\"mcc\"")) == Ok::<_, VectorizeError>(mcc)
                &&& number_field(body, at, bytes_of("\"avg_amount\"")) == Ok::<_, VectorizeError>(
                    average,
                )
            },
            Err(error) => {
                ||| string_field(body, at, bytes_of("\"id\"")) == Err::<Seq<u8>, _>(error)
                ||| string_field(body, at, bytes_of("\"mcc\"")) == Err::<Seq<u8>, _>(error)
                ||| number_field(body, at, bytes_of("\"avg_amount\"")) == Err::<Number, _>(error)
            },
        },
        match terminal_fields(body, at) {
            Ok(said) => {
                &&& bool_field(body, at, bytes_of("\"is_online\"")) == Ok::<_, VectorizeError>(
                    said.is_online,
                )
                &&& bool_field(body, at, bytes_of("\"card_present\"")) == Ok::<_, VectorizeError>(
                    said.card_present,
                )
                &&& number_field(body, at, bytes_of("\"km_from_home\"")) == Ok::<
                    _,
                    VectorizeError,
                >(said.km_from_home)
            },
            Err(error) => {
                ||| bool_field(body, at, bytes_of("\"is_online\"")) == Err::<bool, _>(error)
                ||| bool_field(body, at, bytes_of("\"card_present\"")) == Err::<bool, _>(error)
                ||| number_field(body, at, bytes_of("\"km_from_home\"")) == Err::<Number, _>(error)
            },
        },
        match last_fields(body, at, requested) {
            Ok(None) => {
                &&& value_at(body, at) matches Some(start)
                &&& occurs_at(body, bytes_of("null"), start)
            },
            Ok(Some(said)) => {
                &&& value_at(body, at) matches Some(start)
                &&& !occurs_at(body, bytes_of("null"), start)
                &&& number_field(body, at, bytes_of("\"km_from_current\"")) == Ok::<
                    _,
                    VectorizeError,
                >(said.km_from_current)
                &&& string_field(body, at, bytes_of("\"timestamp\"")) matches Ok(text)
                &&& parts_of(text) matches Some(parts)
                &&& said.minutes == requested - minute_of(parts)
            },
            Err(error) => {
                ||| value_at(body, at) is None && error == VectorizeError::InvalidJson
                ||| number_field(body, at, bytes_of("\"km_from_current\"")) == Err::<Number, _>(
                    error,
                )
                ||| string_field(body, at, bytes_of("\"timestamp\"")) == Err::<Seq<u8>, _>(error)
                ||| {
                    &&& string_field(body, at, bytes_of("\"timestamp\"")) matches Ok(text)
                    &&& parts_of(text) is None
                    &&& error == VectorizeError::InvalidJson
                }
            },
        },
{
    if let Ok(text) = string_field(body, at, bytes_of("\"requested_at\"")) {
        if parts_of(text) is Some {
            lemma_minute_bounds(text);
        }
    }
    if let Ok(text) = string_field(body, at, bytes_of("\"timestamp\"")) {
        if parts_of(text) is Some {
            lemma_minute_bounds(text);
        }
    }
}

/// A request is read exactly if its five sections are, its merchant has a name, and the category
/// code is text; and it says what they say.
pub proof fn law_request_says_what_its_sections_say(body: Seq<u8>)
    ensures
        match request_of(body) {
            Ok(said) => {
                &&& sections_of(body) matches Some(sections)
                &&& transaction_fields(body, sections.transaction as int) == Ok::<
                    _,
                    VectorizeError,
                >(said.transaction)
                &&& customer_fields(body, sections.customer as int) matches Ok((average, count, known))
                &&& merchant_fields(body, sections.merchant as int) matches Ok((id, mcc, usual))
                &&& terminal_fields(body, sections.terminal as int) == Ok::<_, VectorizeError>(
                    said.terminal,
                )
                &&& last_fields(
                    body,
                    sections.last_transaction as int,
                    said.transaction.requested_minutes as int,
                ) == Ok::<_, VectorizeError>(said.last)
                &&& id.len() > 0
                &&& valid_utf8(mcc)
                &&& said.customer_avg_amount == average
                &&& said.tx_count_24h == count
                &&& said.known_merchant == contains_quoted(known, id)
                &&& said.mcc == mcc
                &&& said.merchant_avg_amount == usual
            },
            Err(VectorizeError::EmptyMerchantId) => {
                &&& sections_of(body) matches Some(sections)
                &&& merchant_fields(body, sections.merchant as int) matches Ok((id, _, _))
                    ==> id.len() == 0
            },
            Err(_) => {
                ||| sections_of(body) is None
                ||| {
                    &&& sections_of(body) matches Some(sections)
                    &&& {
                        ||| transaction_fields(body, sections.transaction as int) is Err
                        ||| customer_fields(body, sections.customer as int) is Err
                        ||| merchant_fields(body, sections.merchant as int) is Err
                        ||| terminal_fields(body, sections.terminal as int) is Err
                        ||| {
                            &&& transaction_fields(body, sections.transaction as int) matches Ok(
                                transaction,
                            )
                            &&& last_fields(
                                body,
                                sections.last_transaction as int,
                                transaction.requested_minutes as int,
                            ) is Err
                        }
                        ||| {
                            &&& merchant_fields(body, sections.merchant as int) matches Ok(
                                (_, mcc, _),
                            )
                            &&& !valid_utf8(mcc)
                        }
                    }
                }
            },
        },
{
}

} // verus!
