//! Coarse partitions: which one a vector belongs to, and the order of vectors inside one.

use vstd::prelude::*;

use crate::distance::VECTOR_DIMENSIONS;

verus! {

/// Vectors are stored as tenths of thousandths.
pub const QUANTIZATION_SCALE: i16 = 10_000;

/// Bits of a partition key.
pub const PARTITION_BITS: usize = 8;

/// Number of partitions.
pub const PARTITION_COUNT: usize = 256;

/// A coordinate above this sets its bit of the partition key.
pub const PARTITION_THRESHOLD: i16 = 5_000;

/// The coordinate that decides each bit of the partition key.
pub const PARTITION_DIMS: [usize; 8] = [0, 2, 7, 12, 8, 1, 3, 4];

/// 1 where the coordinate is above the threshold, else 0.
pub open spec fn above(v: Seq<i16>, dim: int) -> int {
    if v[dim] > PARTITION_THRESHOLD {
        1
    } else {
        0
    }
}

/// The partition of `v`: bit `b` tells whether coordinate `PARTITION_DIMS[b]` is above the threshold.
pub open spec fn partition_key(v: Seq<i16>) -> int {
    above(v, 0) + 2 * above(v, 2) + 4 * above(v, 7) + 8 * above(v, 12) + 16 * above(v, 8) + 32
        * above(v, 1) + 64 * above(v, 3) + 128 * above(v, 4)
}

/// The weight of bit `b` of a partition key.
pub open spec fn bit_weight(b: int) -> int {
    if b == 0 {
        1
    } else if b == 1 {
        2
    } else if b == 2 {
        4
    } else if b == 3 {
        8
    } else if b == 4 {
        16
    } else if b == 5 {
        32
    } else if b == 6 {
        64
    } else {
        128
    }
}

/// What the first `bits` bits add to the partition key.
spec fn partial_key(v: Seq<i16>, bits: nat) -> int
    decreases bits,
{
    if bits == 0 {
        0
    } else {
        partial_key(v, (bits - 1) as nat) + bit_weight(bits - 1) * above(
            v,
            PARTITION_DIMS@[bits - 1] as int,
        )
    }
}

/// A coordinate moved into the range of `u16`.
pub open spec fn lifted(value: i16) -> int {
    value + 0x8000
}

/// The order key of a vector inside its partition: coordinates 8, 1, 3 and 4,
/// the first one weighing most.
pub open spec fn sort_key(v: Seq<i16>) -> int {
    lifted(v[8]) * 0x1_0000_0000_0000 + lifted(v[1]) * 0x1_0000_0000 + lifted(v[3]) * 0x1_0000
        + lifted(v[4])
}

/// The partition of a quantized vector.
pub fn partition_key_from_i16(vector: &[i16; VECTOR_DIMENSIONS]) -> (key: usize)
    ensures
        key == partition_key(vector@),
        key < PARTITION_COUNT,
{
    let mut key: usize = 0;
    let mut bit: usize = 0;
    let mut weight: usize = 1;
    while bit < PARTITION_BITS
        invariant
            0 <= bit <= PARTITION_BITS,
            weight == if bit < 8 { bit_weight(bit as int) } else { 256 },
            0 <= key < weight,
            key == partial_key(vector@, bit as nat),
        decreases PARTITION_BITS - bit,
    {
        let dim: usize = PARTITION_DIMS[bit];
        if vector[dim] > PARTITION_THRESHOLD {
            key = key + weight;
        }
        weight = weight * 2;
        bit = bit + 1;
    }
    proof {
        reveal_with_fuel(partial_key, 9);
    }
    key
}

/// The order key of a vector inside its partition. Eight coordinates of sixteen
/// bits each are shifted through the key, which keeps the last four.
pub fn sort_key_for_vector(vector: &[i16]) -> (key: u64)
    requires
        vector@.len() > 8,
    ensures
        key == sort_key(vector@),
{
    let first: u64 = (vector[8] as i64 + 0x8000) as u64;
    let second: u64 = (vector[1] as i64 + 0x8000) as u64;
    let third: u64 = (vector[3] as i64 + 0x8000) as u64;
    let fourth: u64 = (vector[4] as i64 + 0x8000) as u64;
    first * 0x1_0000_0000_0000 + second * 0x1_0000_0000 + third * 0x1_0000 + fourth
}

/// A partition key has one bit per deciding coordinate, set where that
/// coordinate is above the threshold.
pub proof fn law_partition_key_bits(v: Seq<i16>, b: int)
    requires
        0 <= b < PARTITION_BITS,
    ensures
        0 <= partition_key(v) < PARTITION_COUNT,
        partition_key(v) / bit_weight(b) % 2 == above(v, PARTITION_DIMS@[b] as int),
{
    let a0 = above(v, 0);
    let a1 = above(v, 2);
    let a2 = above(v, 7);
    let a3 = above(v, 12);
    let a4 = above(v, 8);
    let a5 = above(v, 1);
    let a6 = above(v, 3);
    let a7 = above(v, 4);
    let key = partition_key(v);
    if b == 0 {
        assert(key / 1 % 2 == a0);
    } else if b == 1 {
        assert(key / 2 % 2 == a1);
    } else if b == 2 {
        assert(key / 4 % 2 == a2);
    } else if b == 3 {
        assert(key / 8 % 2 == a3);
    } else if b == 4 {
        assert(key / 16 % 2 == a4);
    } else if b == 5 {
        assert(key / 32 % 2 == a5);
    } else if b == 6 {
        assert(key / 64 % 2 == a6);
    } else {
        assert(key / 128 % 2 == a7);
    }
}

/// Inside a partition, vectors are ordered by coordinates 8, 1, 3 and 4.
pub proof fn law_sort_key_orders_by_coordinates(a: Seq<i16>, b: Seq<i16>)
    ensures
        sort_key(a) < sort_key(b) <==> {
            ||| a[8] < b[8]
            ||| a[8] == b[8] && a[1] < b[1]
            ||| a[8] == b[8] && a[1] == b[1] && a[3] < b[3]
            ||| a[8] == b[8] && a[1] == b[1] && a[3] == b[3] && a[4] < b[4]
        },
{
}

/// The partition of a vector, coordinate by coordinate: each of the eight deciding coordinates
/// that lies above one half adds its own power of two.
pub proof fn law_partition_adds_powers_of_two(v: Seq<i16>)
    ensures
        partition_key(v) == (if v[0] > 5000 {
            1int
        } else {
            0
        }) + (if v[2] > 5000 {
            2int
        } else {
            0
        }) + (if v[7] > 5000 {
            4int
        } else {
            0
        }) + (if v[12] > 5000 {
            8int
        } else {
            0
        }) + (if v[8] > 5000 {
            16int
        } else {
            0
        }) + (if v[1] > 5000 {
            32int
        } else {
            0
        }) + (if v[3] > 5000 {
            64int
        } else {
            0
        }) + (if v[4] > 5000 {
            128int
        } else {
            0
        }),
        0 <= partition_key(v) < 256,
{
}

/// Two vectors have the same order key exactly if coordinates 8, 1, 3 and 4 are the same; the
/// key is the number whose digits to the base 65536 are these coordinates, each lifted by 32768.
pub proof fn law_order_key_has_four_digits(a: Seq<i16>, b: Seq<i16>)
    ensures
        sort_key(a) == sort_key(b) <==> a[8] == b[8] && a[1] == b[1] && a[3] == b[3] && a[4] == b[4],
        sort_key(a) == (((a[8] + 32768) * 65536 + (a[1] + 32768)) * 65536 + (a[3] + 32768)) * 65536
            + (a[4] + 32768),
{
}

} // verus!
