//! Searching byte strings, and reading decimal numbers in them.

use vstd::prelude::*;
use vstd::string::*;
use vstd::utf8::encode_utf8_decode_utf8;

verus! {

/// `needle` stands in `hay` at position `i`.
pub open spec fn occurs_at(hay: Seq<u8>, needle: Seq<u8>, i: int) -> bool {
    0 <= i && i + needle.len() <= hay.len() && hay.subrange(i, i + needle.len()) == needle
}

/// `i` is the first position from `from` on at which `needle` stands in `hay`.
pub open spec fn is_first_at(hay: Seq<u8>, needle: Seq<u8>, from: int, i: int) -> bool {
    &&& from <= i
    &&& occurs_at(hay, needle, i)
    &&& forall|j: int| from <= j < i ==> !#[trigger] occurs_at(hay, needle, j)
}

/// The first position from `from` on at which `needle` stands in `hay`.
#[verifier::opaque]
pub open spec fn first_at(hay: Seq<u8>, needle: Seq<u8>, from: int) -> Option<int> {
    if exists|i: int| is_first_at(hay, needle, from, i) {
        Some(choose|i: int| is_first_at(hay, needle, from, i))
    } else {
        None
    }
}

pub proof fn lemma_first_at(hay: Seq<u8>, needle: Seq<u8>, from: int, i: int)
    requires
        is_first_at(hay, needle, from, i),
    ensures
        first_at(hay, needle, from) == Some(i),
{
    reveal(first_at);
    let c = choose|c: int| is_first_at(hay, needle, from, c);
    assert(is_first_at(hay, needle, from, c));
    if c < i {
        assert(!occurs_at(hay, needle, c));
    } else if i < c {
        assert(!occurs_at(hay, needle, i));
    }
}

pub proof fn lemma_no_first_at(hay: Seq<u8>, needle: Seq<u8>, from: int)
    requires
        forall|j: int| from <= j ==> !#[trigger] occurs_at(hay, needle, j),
    ensures
        first_at(hay, needle, from) is None,
{
    reveal(first_at);
}

/// Whether `needle` stands in `hay` at position `i`.
pub fn matches_at(hay: &[u8], needle: &[u8], i: usize) -> (b: bool)
    ensures
        b == occurs_at(hay@, needle@, i as int),
{
    if i > hay.len() || needle.len() > hay.len() - i {
        return false;
    }
    let mut k: usize = 0;
    while k < needle.len()
        invariant
            0 <= k <= needle@.len(),
            i + needle@.len() <= hay@.len(),
            hay.len() == hay@.len(),
            forall|j: int| 0 <= j < k ==> hay@[i + j] == #[trigger] needle@[j],
        decreases needle@.len() - k,
    {
        if hay[i + k] != needle[k] {
            assert(hay@.subrange(i as int, i + needle@.len())[k as int] != needle@[k as int]);
            return false;
        }
        k = k + 1;
    }
    assert(hay@.subrange(i as int, i + needle@.len()) =~= needle@);
    true
}

/// Whether two byte strings are equal.
pub fn same_bytes(a: &[u8], b: &[u8]) -> (same: bool)
    ensures
        same == (a@ == b@),
{
    if a.len() != b.len() {
        return false;
    }
    let same: bool = matches_at(a, b, 0);
    assert(a@.subrange(0, a@.len() as int) =~= a@);
    same
}

/// Whether two texts are equal.
pub fn same_text(a: &str, b: &str) -> (same: bool)
    ensures
        same == (a@ == b@),
{
    let same: bool = same_bytes(a.as_bytes(), b.as_bytes());
    proof {
        if same {
            encode_utf8_decode_utf8(a@);
            encode_utf8_decode_utf8(b@);
        }
    }
    same
}

/// The first position at which `key` stands in `body`.
pub fn find_key(body: &[u8], key: &[u8]) -> (found: Option<usize>)
    requires
        key@.len() > 0,
    ensures
        match found {
            Some(i) => first_at(body@, key@, 0) == Some(i as int) && is_first_at(
                body@,
                key@,
                0,
                i as int,
            ),
            None => first_at(body@, key@, 0) is None && forall|j: int|
                0 <= j ==> !#[trigger] occurs_at(body@, key@, j),
        },
{
    find_key_from(body, 0, key)
}

/// The first position from `from` on at which `key` stands in `body`.
pub fn find_key_from(body: &[u8], from: usize, key: &[u8]) -> (found: Option<usize>)
    requires
        key@.len() > 0,
    ensures
        match found {
            Some(i) => first_at(body@, key@, from as int) == Some(i as int) && is_first_at(
                body@,
                key@,
                from as int,
                i as int,
            ),
            None => first_at(body@, key@, from as int) is None && forall|j: int|
                from <= j ==> !#[trigger] occurs_at(body@, key@, j),
        },
{
    let mut i: usize = from;
    while i < body.len() && key.len() <= body.len() - i
        invariant
            from <= i,
            key@.len() > 0,
            body.len() == body@.len(),
            forall|j: int| from <= j < i ==> !#[trigger] occurs_at(body@, key@, j),
        decreases body@.len() - i,
    {
        if matches_at(body, key, i) {
            proof {
                lemma_first_at(body@, key@, from as int, i as int);
            }
            return Some(i);
        }
        i = i + 1;
    }
    proof {
        lemma_no_first_at(body@, key@, from as int);
    }
    None
}

/// An ASCII digit.
pub open spec fn is_digit(byte: u8) -> bool {
    0x30 <= byte <= 0x39
}

/// All bytes are digits.
pub open spec fn all_digits(s: Seq<u8>) -> bool {
    forall|i: int| 0 <= i < s.len() ==> is_digit(#[trigger] s[i])
}

/// How many digits `s` starts with.
pub open spec fn digit_count(s: Seq<u8>) -> nat
    decreases s.len(),
{
    if s.len() > 0 && is_digit(s[0]) {
        1 + digit_count(s.skip(1))
    } else {
        0
    }
}

/// The digits that `s` starts with.
pub open spec fn leading_digits(s: Seq<u8>) -> Seq<u8> {
    s.take(digit_count(s) as int)
}

/// The number that a row of digits spells.
pub open spec fn decimal(digits: Seq<u8>) -> int
    decreases digits.len(),
{
    if digits.len() == 0 {
        0
    } else {
        10 * decimal(digits.drop_last()) + (digits.last() - 0x30)
    }
}

pub proof fn lemma_digit_count(s: Seq<u8>, n: int)
    requires
        0 <= n <= s.len(),
        all_digits(s.take(n)),
        n < s.len() ==> !is_digit(s[n]),
    ensures
        digit_count(s) == n,
    decreases n,
{
    if n > 0 {
        assert(is_digit(s.take(n)[0]));
        let t = s.skip(1);
        assert(t.take(n - 1) =~= s.take(n).skip(1));
        assert(all_digits(t.take(n - 1))) by {
            assert forall|i: int| 0 <= i < n - 1 implies is_digit(#[trigger] t.take(n - 1)[i]) by {
                assert(is_digit(s.take(n)[i + 1]));
            }
        }
        lemma_digit_count(t, n - 1);
    }
}

pub proof fn lemma_digit_count_bounds(s: Seq<u8>)
    ensures
        digit_count(s) <= s.len(),
        all_digits(leading_digits(s)),
        digit_count(s) < s.len() ==> !is_digit(s[digit_count(s) as int]),
    decreases s.len(),
{
    if s.len() > 0 && is_digit(s[0]) {
        let t = s.skip(1);
        lemma_digit_count_bounds(t);
        assert forall|i: int| 0 <= i < digit_count(s) implies is_digit(
            #[trigger] leading_digits(s)[i],
        ) by {
            if i > 0 {
                assert(is_digit(leading_digits(t)[i - 1]));
            }
        }
    }
}

pub proof fn lemma_decimal_push(s: Seq<u8>, n: int)
    requires
        0 <= n < s.len(),
    ensures
        decimal(s.take(n + 1)) == 10 * decimal(s.take(n)) + (s[n] - 0x30),
{
    assert(s.take(n + 1).drop_last() =~= s.take(n));
}

/// More digits never make the number smaller.
pub proof fn lemma_decimal_grows(s: Seq<u8>, n: int, m: int)
    requires
        0 <= n <= m <= s.len(),
        all_digits(s.take(m)),
    ensures
        0 <= decimal(s.take(n)) <= decimal(s.take(m)),
    decreases m,
{
    if m == 0 {
    } else {
        assert(is_digit(s.take(m)[m - 1]));
        lemma_decimal_push(s, m - 1);
        assert(all_digits(s.take(m - 1))) by {
            assert forall|i: int| 0 <= i < m - 1 implies is_digit(#[trigger] s.take(m - 1)[i]) by {
                assert(is_digit(s.take(m)[i]));
            }
        }
        if n < m {
            lemma_decimal_grows(s, n, m - 1);
        } else {
            lemma_decimal_grows(s, m - 1, m - 1);
        }
    }
}

/// Reads the digits from `from` on: the number that they spell, and where they end.
/// Nothing where the number exceeds `limit`.
pub fn read_digits(buf: &[u8], from: usize, limit: u64) -> (read: Option<(u64, usize)>)
    requires
        from <= buf@.len(),
    ensures
        match read {
            Some((value, end)) => {
                &&& value == decimal(leading_digits(buf@.skip(from as int)))
                &&& value <= limit
                &&& end == from + digit_count(buf@.skip(from as int))
                &&& end <= buf@.len()
            },
            None => decimal(leading_digits(buf@.skip(from as int))) > limit,
        },
{
    let ghost s = buf@.skip(from as int);
    let mut value: u64 = 0;
    let mut i: usize = from;
    while i < buf.len() && buf[i] >= 0x30 && buf[i] <= 0x39
        invariant
            from <= i <= buf@.len(),
            s == buf@.skip(from as int),
            all_digits(s.take(i - from)),
            value == decimal(s.take(i - from)),
            value <= limit,
        decreases buf@.len() - i,
    {
        let digit: u64 = (buf[i] - 0x30) as u64;
        proof {
            assert(s[i - from] == buf@[i as int]);
            lemma_decimal_push(s, i - from);
            assert(all_digits(s.take(i - from + 1)));
        }
        if digit > limit || value > (limit - digit) / 10 {
            proof {
                let n = digit_count(s) as int;
                lemma_digit_count_bounds(s);
                if n < i - from + 1 {
                    assert(s.take(i - from + 1)[n] == s[n]);
                    assert(false);
                }
                lemma_decimal_grows(s, i - from + 1, n);
            }
            return None;
        }
        value = value * 10 + digit;
        i = i + 1;
    }
    proof {
        if i < buf@.len() {
            assert(s[i - from] == buf@[i as int]);
        }
        lemma_digit_count(s, i - from);
    }
    Some((value, i))
}

/// A word is found at the first place from `from` on where it stands, wherever that is.
pub proof fn law_first_place_is_found(hay: Seq<u8>, needle: Seq<u8>, from: int, i: int)
    requires
        0 <= from <= i,
        i + needle.len() <= hay.len(),
        hay.subrange(i, i + needle.len()) == needle,
        forall|j: int| from <= j < i ==> #[trigger] hay.subrange(j, j + needle.len()) != needle,
    ensures
        first_at(hay, needle, from) == Some(i),
{
    assert forall|j: int| from <= j < i implies !#[trigger] occurs_at(hay, needle, j) by {
        assert(hay.subrange(j, j + needle.len()) != needle);
    }
    assert(is_first_at(hay, needle, from, i));
    lemma_first_at(hay, needle, from, i);
}

/// What is found stands there, and nowhere before; where nothing is found, it stands nowhere.
pub proof fn law_found_place_is_the_first(hay: Seq<u8>, needle: Seq<u8>, from: int)
    requires
        0 <= from,
    ensures
        match first_at(hay, needle, from) {
            Some(i) => {
                &&& from <= i
                &&& i + needle.len() <= hay.len()
                &&& hay.subrange(i, i + needle.len()) == needle
                &&& forall|j: int|
                    from <= j < i ==> #[trigger] hay.subrange(j, j + needle.len()) != needle
            },
            None => forall|j: int|
                from <= j && j + needle.len() <= hay.len() ==> #[trigger] hay.subrange(
                    j,
                    j + needle.len(),
                ) != needle,
        },
{
    reveal(first_at);
    match first_at(hay, needle, from) {
        Some(i) => {
            assert(is_first_at(hay, needle, from, i));
            assert forall|j: int| from <= j < i implies #[trigger] hay.subrange(
                j,
                j + needle.len(),
            ) != needle by {
                assert(!occurs_at(hay, needle, j));
            }
        },
        None => {
            assert forall|j: int|
                from <= j && j + needle.len() <= hay.len() implies #[trigger] hay.subrange(
                j,
                j + needle.len(),
            ) != needle by {
                if hay.subrange(j, j + needle.len()) == needle {
                    lemma_some_first(hay, needle, from, j);
                }
            }
        },
    }
}

proof fn lemma_some_first(hay: Seq<u8>, needle: Seq<u8>, from: int, j: int)
    requires
        from <= j,
        occurs_at(hay, needle, j),
    ensures
        exists|i: int| is_first_at(hay, needle, from, i),
    decreases j - from,
{
    if forall|x: int| from <= x < j ==> !#[trigger] occurs_at(hay, needle, x) {
        assert(is_first_at(hay, needle, from, j));
    } else {
        let x = choose|x: int| from <= x < j && #[trigger] occurs_at(hay, needle, x);
        lemma_some_first(hay, needle, from, x);
    }
}

/// Digits spell a number to the base ten: each further digit counts ones, and what stands before
/// it tens.
pub proof fn law_digits_spell_a_number(digits: Seq<u8>, digit: u8)
    ensures
        decimal(Seq::<u8>::empty()) == 0,
        decimal(seq![digit]) == digit - 48,
        decimal(digits.push(digit)) == 10 * decimal(digits) + (digit - 48),
{
    assert(digits.push(digit).drop_last() =~= digits);
    assert(seq![digit].drop_last() =~= Seq::<u8>::empty());
    reveal_with_fuel(decimal, 3);
}

/// The digits that a text starts with are all bytes from `0` to `9` up to the first other byte.
pub proof fn law_digits_end_at_the_first_other_byte(digits: Seq<u8>, rest: Seq<u8>)
    requires
        forall|k: int| 0 <= k < digits.len() ==> 48 <= #[trigger] digits[k] <= 57,
        rest.len() > 0 ==> rest[0] < 48 || rest[0] > 57,
    ensures
        leading_digits(digits + rest) == digits,
        digit_count(digits + rest) == digits.len(),
        all_digits(digits),
{
    let s = digits + rest;
    let n = digits.len() as int;
    assert(s.take(n) =~= digits);
    lemma_digit_count(s, n);
    assert(leading_digits(s) =~= digits);
}

} // verus!
