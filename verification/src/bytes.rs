//! The little-endian number formats of the data files.

use vstd::prelude::*;

verus! {

/// The two's complement bit pattern of `v`, as a number.
pub open spec fn bits_of_i16(v: i16) -> int {
    if v < 0 {
        v + 0x1_0000
    } else {
        v as int
    }
}

/// The byte at place `place` of `value`, least significant first.
pub open spec fn byte_at(value: int, place: int) -> u8 {
    if place == 0 {
        (value % 256) as u8
    } else if place == 1 {
        (value / 256 % 256) as u8
    } else if place == 2 {
        (value / 65536 % 256) as u8
    } else {
        (value / 16777216 % 256) as u8
    }
}

/// File contents for a list of `u16`.
pub open spec fn le_u16s(values: Seq<u16>) -> Seq<u8> {
    Seq::new(2 * values.len(), |i: int| byte_at(values[i / 2] as int, i % 2))
}

/// File contents for a list of `i16`.
pub open spec fn le_i16s(values: Seq<i16>) -> Seq<u8> {
    Seq::new(2 * values.len(), |i: int| byte_at(bits_of_i16(values[i / 2]), i % 2))
}

/// File contents for a list of `u32`.
pub open spec fn le_u32s(values: Seq<u32>) -> Seq<u8> {
    Seq::new(4 * values.len(), |i: int| byte_at(values[i / 4] as int, i % 4))
}

/// The `i16` whose bit pattern the two bytes spell.
pub open spec fn i16_from(lo: u8, hi: u8) -> i16 {
    let bits = lo + 256 * hi;
    if bits >= 0x8000 {
        (bits - 0x1_0000) as i16
    } else {
        bits as i16
    }
}

/// The list of `i16` that a file holds; a lone last byte is left out.
pub open spec fn i16s_of(bytes: Seq<u8>) -> Seq<i16> {
    Seq::new(bytes.len() / 2, |i: int| i16_from(bytes[2 * i], bytes[2 * i + 1]))
}

/// The list of `u32` that a file holds; up to three last bytes are left out.
pub open spec fn u32s_of(bytes: Seq<u8>) -> Seq<u32> {
    Seq::new(
        bytes.len() / 4,
        |i: int|
            (bytes[4 * i] + 256 * bytes[4 * i + 1] + 65536 * bytes[4 * i + 2] + 16777216
                * bytes[4 * i + 3]) as u32,
    )
}

/// Appends the bytes of `value`.
pub fn push_u16(out: &mut Vec<u8>, value: u16)
    ensures
        final(out)@ == old(out)@.push(byte_at(value as int, 0)).push(byte_at(value as int, 1)),
        ({
            let n = old(out)@.len() as int;
            &&& final(out)@.len() == n + 2
            &&& final(out)@[n] + 256 * final(out)@[n + 1] == value
        }),
{
    out.push((value % 256) as u8);
    out.push((value / 256) as u8);
}

/// Appends the bytes of `value`.
pub fn push_u32(out: &mut Vec<u8>, value: u32)
    ensures
        final(out)@ == old(out)@.push(byte_at(value as int, 0)).push(byte_at(value as int, 1)).push(
            byte_at(value as int, 2),
        ).push(byte_at(value as int, 3)),
        ({
            let n = old(out)@.len() as int;
            &&& final(out)@.len() == n + 4
            &&& final(out)@[n] + 256 * final(out)@[n + 1] + 65536 * final(out)@[n + 2] + 16777216
                * final(out)@[n + 3] == value
        }),
{
    out.push((value % 256) as u8);
    out.push((value / 256 % 256) as u8);
    out.push((value / 65536 % 256) as u8);
    out.push((value / 16777216) as u8);
}

/// The bit pattern of `value`.
pub fn i16_bits(value: i16) -> (bits: u16)
    ensures
        bits == bits_of_i16(value),
        value >= 0 ==> bits == value,
        value < 0 ==> bits == value + 65536,
{
    if value < 0 {
        (value as i32 + 0x1_0000) as u16
    } else {
        value as u16
    }
}

/// File contents for `values`.
pub fn encode_u16s(values: &[u16]) -> (out: Vec<u8>)
    ensures
        out@ == le_u16s(values@),
{
    let mut out: Vec<u8> = Vec::new();
    let mut i: usize = 0;
    while i < values.len()
        invariant
            0 <= i <= values@.len(),
            out@ == le_u16s(values@.take(i as int)),
        decreases values@.len() - i,
    {
        push_u16(&mut out, values[i]);
        assert(out@ =~= le_u16s(values@.take(i + 1)));
        i = i + 1;
    }
    assert(values@.take(values@.len() as int) =~= values@);
    out
}

/// File contents for `values`.
pub fn encode_i16s(values: &[i16]) -> (out: Vec<u8>)
    ensures
        out@ == le_i16s(values@),
{
    let mut out: Vec<u8> = Vec::new();
    let mut i: usize = 0;
    while i < values.len()
        invariant
            0 <= i <= values@.len(),
            out@ == le_i16s(values@.take(i as int)),
        decreases values@.len() - i,
    {
        push_u16(&mut out, i16_bits(values[i]));
        assert(out@ =~= le_i16s(values@.take(i + 1)));
        i = i + 1;
    }
    assert(values@.take(values@.len() as int) =~= values@);
    out
}

/// File contents for `values`.
pub fn encode_u32s(values: &[u32]) -> (out: Vec<u8>)
    ensures
        out@ == le_u32s(values@),
{
    let mut out: Vec<u8> = Vec::new();
    let mut i: usize = 0;
    while i < values.len()
        invariant
            0 <= i <= values@.len(),
            out@ == le_u32s(values@.take(i as int)),
        decreases values@.len() - i,
    {
        push_u32(&mut out, values[i]);
        assert(out@ =~= le_u32s(values@.take(i + 1)));
        i = i + 1;
    }
    assert(values@.take(values@.len() as int) =~= values@);
    out
}

/// The `i16` at position `i` of a file.
pub fn read_i16(bytes: &[u8], i: usize) -> (value: i16)
    requires
        2 * i + 1 < bytes@.len(),
    ensures
        value == i16s_of(bytes@)[i as int],
        bytes@[2 * i + 1] < 128 ==> value == bytes@[2 * i as int] + 256 * bytes@[2 * i + 1],
        bytes@[2 * i + 1] >= 128 ==> value == bytes@[2 * i as int] + 256 * bytes@[2 * i + 1] - 65536,
{
    assert(bytes.len() == bytes@.len());
    let lo: u8 = bytes[2 * i];
    let hi: u8 = bytes[2 * i + 1];
    let bits: i32 = lo as i32 + 256 * hi as i32;
    if bits >= 0x8000 {
        (bits - 0x1_0000) as i16
    } else {
        bits as i16
    }
}

/// The list of `i16` that a file holds.
pub fn decode_i16s(bytes: &[u8]) -> (values: Vec<i16>)
    ensures
        values@ == i16s_of(bytes@),
{
    let n: usize = bytes.len() / 2;
    let mut values: Vec<i16> = Vec::new();
    let mut i: usize = 0;
    while i < n
        invariant
            n == bytes@.len() / 2,
            0 <= i <= n,
            values@ == i16s_of(bytes@).take(i as int),
        decreases n - i,
    {
        values.push(read_i16(bytes, i));
        i = i + 1;
        assert(values@ =~= i16s_of(bytes@).take(i as int));
    }
    assert(values@ =~= i16s_of(bytes@));
    values
}

/// The list of `u32` that a file holds.
pub fn decode_u32s(bytes: &[u8]) -> (values: Vec<u32>)
    ensures
        values@ == u32s_of(bytes@),
{
    let n: usize = bytes.len() / 4;
    let mut values: Vec<u32> = Vec::new();
    let mut i: usize = 0;
    while i < n
        invariant
            n == bytes@.len() / 4,
            0 <= i <= n,
            values@ == u32s_of(bytes@).take(i as int),
        decreases n - i,
    {
        assert(bytes.len() == bytes@.len());
        let value: u32 = bytes[4 * i] as u32 + 256 * bytes[4 * i + 1] as u32 + 65536 * bytes[4 * i
            + 2] as u32 + 16777216 * bytes[4 * i + 3] as u32;
        values.push(value);
        i = i + 1;
        assert(values@ =~= u32s_of(bytes@).take(i as int));
    }
    assert(values@ =~= u32s_of(bytes@));
    values
}

/// Reading a written list of `i16` gives the list back.
pub proof fn law_i16_file_round_trip(values: Seq<i16>)
    ensures
        i16s_of(le_i16s(values)) == values,
        le_i16s(values).len() == 2 * values.len(),
{
    let bytes = le_i16s(values);
    assert forall|i: int| 0 <= i < values.len() implies i16s_of(bytes)[i] == values[i] by {
        let bits = bits_of_i16(values[i]);
        assert((2 * i) / 2 == i && (2 * i) % 2 == 0 && (2 * i + 1) / 2 == i && (2 * i + 1) % 2
            == 1);
        assert(bytes[2 * i] == byte_at(bits, 0));
        assert(bytes[2 * i + 1] == byte_at(bits, 1));
        assert(bits % 256 + 256 * (bits / 256 % 256) == bits);
    }
    assert(i16s_of(bytes) =~= values);
}

/// Reading a written list of `u32` gives the list back.
pub proof fn law_u32_file_round_trip(values: Seq<u32>)
    ensures
        u32s_of(le_u32s(values)) == values,
        le_u32s(values).len() == 4 * values.len(),
{
    let bytes = le_u32s(values);
    assert forall|i: int| 0 <= i < values.len() implies u32s_of(bytes)[i] == values[i] by {
        let v = values[i] as int;
        assert((4 * i) / 4 == i && (4 * i + 1) / 4 == i && (4 * i + 2) / 4 == i && (4 * i + 3) / 4
            == i);
        assert((4 * i) % 4 == 0 && (4 * i + 1) % 4 == 1 && (4 * i + 2) % 4 == 2 && (4 * i + 3) % 4
            == 3);
        assert(bytes[4 * i] == byte_at(v, 0));
        assert(bytes[4 * i + 1] == byte_at(v, 1));
        assert(bytes[4 * i + 2] == byte_at(v, 2));
        assert(bytes[4 * i + 3] == byte_at(v, 3));
        assert(v % 256 + 256 * (v / 256 % 256) + 65536 * (v / 65536 % 256) + 16777216 * (v
            / 16777216 % 256) == v);
    }
    assert(u32s_of(bytes) =~= values);
}

/// Numbers of sixteen bits are read from two bytes each, the lower byte first, as two's
/// complement; a lone last byte is left out.
pub proof fn law_i16_is_read_low_byte_first(bytes: Seq<u8>, i: int)
    requires
        0 <= i,
        2 * i + 1 < bytes.len(),
    ensures
        i16s_of(bytes).len() == bytes.len() / 2,
        bytes[2 * i + 1] < 128 ==> i16s_of(bytes)[i] == bytes[2 * i] + 256 * bytes[2 * i + 1],
        bytes[2 * i + 1] >= 128 ==> i16s_of(bytes)[i] == bytes[2 * i] + 256 * bytes[2 * i + 1]
            - 65536,
{
}

/// Numbers of thirty-two bits are read from four bytes each, the lowest byte first; up to three
/// last bytes are left out.
pub proof fn law_u32_is_read_low_byte_first(bytes: Seq<u8>, i: int)
    requires
        0 <= i,
        4 * i + 3 < bytes.len(),
    ensures
        u32s_of(bytes).len() == bytes.len() / 4,
        u32s_of(bytes)[i] == bytes[4 * i] + 256 * (bytes[4 * i + 1] + 256 * (bytes[4 * i + 2] + 256
            * bytes[4 * i + 3])),
{
}

/// Numbers are written to as many bytes as they have, the lowest byte first.
pub proof fn law_numbers_are_written_low_byte_first(
    words: Seq<u16>,
    signed: Seq<i16>,
    long: Seq<u32>,
    i: int,
)
    requires
        0 <= i,
    ensures
        le_u16s(words).len() == 2 * words.len(),
        i < words.len() ==> le_u16s(words)[2 * i] + 256 * le_u16s(words)[2 * i + 1] == words[i],
        le_i16s(signed).len() == 2 * signed.len(),
        i < signed.len() && signed[i] >= 0 ==> le_i16s(signed)[2 * i] + 256 * le_i16s(signed)[2 * i
            + 1] == signed[i],
        i < signed.len() && signed[i] < 0 ==> le_i16s(signed)[2 * i] + 256 * le_i16s(signed)[2 * i
            + 1] == signed[i] + 65536,
        le_u32s(long).len() == 4 * long.len(),
        i < long.len() ==> le_u32s(long)[4 * i] + 256 * (le_u32s(long)[4 * i + 1] + 256 * (le_u32s(
            long,
        )[4 * i + 2] + 256 * le_u32s(long)[4 * i + 3])) == long[i],
{
    assert((2 * i) / 2 == i && (2 * i) % 2 == 0 && (2 * i + 1) / 2 == i && (2 * i + 1) % 2 == 1);
    assert((4 * i) / 4 == i && (4 * i + 1) / 4 == i && (4 * i + 2) / 4 == i && (4 * i + 3) / 4
        == i);
    assert((4 * i) % 4 == 0 && (4 * i + 1) % 4 == 1 && (4 * i + 2) % 4 == 2 && (4 * i + 3) % 4
        == 3);
}

} // verus!
