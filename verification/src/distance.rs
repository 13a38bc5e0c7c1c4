//! Squared Euclidean distance between quantized vectors, and its lower bound over a box.

use vstd::prelude::*;

verus! {

/// Dimensions of a transaction vector.
pub const VECTOR_DIMENSIONS: usize = 14;

/// Dimensions of a stored vector: the transaction vector and two zeros.
pub const DIMS_PADDED: usize = 16;

/// The sum of the squared differences of the first `n` coordinates.
pub open spec fn square_sum(a: Seq<i16>, b: Seq<i16>, n: nat) -> int
    decreases n,
{
    if n == 0 {
        0
    } else {
        square_sum(a, b, (n - 1) as nat) + (a[n - 1] - b[n - 1]) * (a[n - 1] - b[n - 1])
    }
}

/// Squared distance of two transaction vectors.
pub open spec fn squared_l2(a: Seq<i16>, b: Seq<i16>) -> int {
    square_sum(a, b, VECTOR_DIMENSIONS as nat)
}

/// How far `q` lies outside of `lo..=hi`.
pub open spec fn gap(q: int, lo: int, hi: int) -> int {
    if q < lo {
        lo - q
    } else if q > hi {
        q - hi
    } else {
        0
    }
}

/// The sum of the squared gaps of the first `n` coordinates.
pub open spec fn gap_sum(query: Seq<i16>, min: Seq<i16>, max: Seq<i16>, n: nat) -> int
    decreases n,
{
    if n == 0 {
        0
    } else {
        gap_sum(query, min, max, (n - 1) as nat) + gap(
            query[n - 1] as int,
            min[n - 1] as int,
            max[n - 1] as int,
        ) * gap(query[n - 1] as int, min[n - 1] as int, max[n - 1] as int)
    }
}

/// Squared distance from `query` to the box spanned by `min` and `max`.
pub open spec fn box_l2(query: Seq<i16>, min: Seq<i16>, max: Seq<i16>) -> int {
    gap_sum(query, min, max, VECTOR_DIMENSIONS as nat)
}

/// `v` lies in the box spanned by `min` and `max`.
pub open spec fn in_box(v: Seq<i16>, min: Seq<i16>, max: Seq<i16>) -> bool {
    forall|d: int|
        #![trigger v[d]]
        0 <= d < VECTOR_DIMENSIONS ==> min[d] <= v[d] <= max[d]
}

/// A transaction vector followed by zeros.
pub open spec fn padded(v: Seq<i16>) -> Seq<i16> {
    Seq::new(
        DIMS_PADDED as nat,
        |d: int|
            if d < VECTOR_DIMENSIONS {
                v[d]
            } else {
                0i16
            },
    )
}

/// The largest squared difference of two coordinates, rounded up to a power of two.
pub open spec fn max_square() -> int {
    0x1_0000_0000
}

pub proof fn lemma_square_bounds(x: int, bound: int)
    by (nonlinear_arith)
    requires
        -bound <= x <= bound,
    ensures
        0 <= x * x <= bound * bound,
{
}

/// Squared distance from `query` to `candidate`.
pub fn squared_l2_i16(query: &[i16; VECTOR_DIMENSIONS], candidate: &[i16]) -> (distance: i64)
    requires
        candidate@.len() >= VECTOR_DIMENSIONS,
    ensures
        distance == squared_l2(query@, candidate@),
        0 <= distance < i64::MAX,
{
    let mut acc: i64 = 0;
    let mut i: usize = 0;
    while i < VECTOR_DIMENSIONS
        invariant
            0 <= i <= VECTOR_DIMENSIONS,
            candidate@.len() >= VECTOR_DIMENSIONS,
            acc == square_sum(query@, candidate@, i as nat),
            0 <= acc <= i * max_square(),
        decreases VECTOR_DIMENSIONS - i,
    {
        let diff: i64 = query[i] as i64 - candidate[i] as i64;
        proof {
            lemma_square_bounds(diff as int, 0xffff);
        }
        acc = acc + diff * diff;
        i = i + 1;
    }
    acc
}

/// Squared distance of two stored vectors, over all sixteen dimensions.
pub fn l2_16dims(a: &[i16], b: &[i16]) -> (distance: i64)
    requires
        a@.len() >= DIMS_PADDED,
        b@.len() >= DIMS_PADDED,
    ensures
        distance == square_sum(a@, b@, DIMS_PADDED as nat),
        0 <= distance < i64::MAX,
{
    let mut acc: i64 = 0;
    let mut i: usize = 0;
    while i < DIMS_PADDED
        invariant
            0 <= i <= DIMS_PADDED,
            a@.len() >= DIMS_PADDED,
            b@.len() >= DIMS_PADDED,
            acc == square_sum(a@, b@, i as nat),
            0 <= acc <= i * max_square(),
        decreases DIMS_PADDED - i,
    {
        let diff: i64 = a[i] as i64 - b[i] as i64;
        proof {
            lemma_square_bounds(diff as int, 0xffff);
        }
        acc = acc + diff * diff;
        i = i + 1;
    }
    acc
}

/// Squared distance from `query` to the box spanned by `min` and `max`.
pub fn lower_bound_l2_i16(query: &[i16; VECTOR_DIMENSIONS], min: &[i16], max: &[i16]) -> (bound: i64)
    requires
        min@.len() >= VECTOR_DIMENSIONS,
        max@.len() >= VECTOR_DIMENSIONS,
    ensures
        bound == box_l2(query@, min@, max@),
{
    let mut acc: i64 = 0;
    let mut dim: usize = 0;
    while dim < VECTOR_DIMENSIONS
        invariant
            0 <= dim <= VECTOR_DIMENSIONS,
            min@.len() >= VECTOR_DIMENSIONS,
            max@.len() >= VECTOR_DIMENSIONS,
            acc == gap_sum(query@, min@, max@, dim as nat),
            0 <= acc <= dim * max_square(),
        decreases VECTOR_DIMENSIONS - dim,
    {
        let q: i64 = query[dim] as i64;
        let lo: i64 = min[dim] as i64;
        let hi: i64 = max[dim] as i64;
        let diff: i64 = if q < lo {
            lo - q
        } else if q > hi {
            q - hi
        } else {
            0
        };
        proof {
            lemma_square_bounds(diff as int, 0xffff);
        }
        acc = acc + diff * diff;
        dim = dim + 1;
    }
    acc
}

proof fn lemma_square_monotone(x: int, y: int)
    by (nonlinear_arith)
    requires
        0 <= x,
        x <= y || x <= -y,
    ensures
        x * x <= y * y,
{
}

proof fn lemma_gap_sum_below_square_sum(
    query: Seq<i16>,
    min: Seq<i16>,
    max: Seq<i16>,
    v: Seq<i16>,
    n: nat,
)
    requires
        in_box(v, min, max),
        n <= VECTOR_DIMENSIONS,
    ensures
        gap_sum(query, min, max, n) <= square_sum(query, v, n),
    decreases n,
{
    if n > 0 {
        lemma_gap_sum_below_square_sum(query, min, max, v, (n - 1) as nat);
        let d = n - 1;
        assert(min[d] <= v[d] && v[d] <= max[d]);
        lemma_square_monotone(
            gap(query[d] as int, min[d] as int, max[d] as int),
            (query[d] - v[d]) as int,
        );
    }
}

/// The distance to a box never exceeds the distance to a vector in it.
pub proof fn law_box_bounds_its_vectors(
    query: Seq<i16>,
    min: Seq<i16>,
    max: Seq<i16>,
    v: Seq<i16>,
)
    requires
        in_box(v, min, max),
    ensures
        box_l2(query, min, max) <= squared_l2(query, v),
{
    lemma_gap_sum_below_square_sum(query, min, max, v, VECTOR_DIMENSIONS as nat);
}

proof fn lemma_square_sum_agrees(a: Seq<i16>, b: Seq<i16>, n: nat)
    requires
        n <= VECTOR_DIMENSIONS,
    ensures
        square_sum(padded(a), padded(b), n) == square_sum(a, b, n),
    decreases n,
{
    if n > 0 {
        lemma_square_sum_agrees(a, b, (n - 1) as nat);
    }
}

/// Padding two vectors leaves their distance unchanged.
pub proof fn law_padding_keeps_distance(a: Seq<i16>, b: Seq<i16>)
    ensures
        square_sum(padded(a), padded(b), DIMS_PADDED as nat) == squared_l2(a, b),
{
    lemma_square_sum_agrees(a, b, VECTOR_DIMENSIONS as nat);
    let pa = padded(a);
    let pb = padded(b);
    assert(pa[14] == 0 && pb[14] == 0 && pa[15] == 0 && pb[15] == 0);
    lemma_square_bounds((pa[14] - pb[14]) as int, 0);
    lemma_square_bounds((pa[15] - pb[15]) as int, 0);
    assert(square_sum(pa, pb, 15) == square_sum(pa, pb, 14));
    assert(square_sum(pa, pb, 16) == square_sum(pa, pb, 15));
}

/// The distance of two transaction vectors is the sum of the squares of their fourteen
/// differences, and that of two stored vectors the sum over all sixteen.
pub proof fn law_distance_is_the_sum_of_squares(a: Seq<i16>, b: Seq<i16>)
    ensures
        squared_l2(a, b) == (a[0] - b[0]) * (a[0] - b[0])
            + (a[1] - b[1]) * (a[1] - b[1])
            + (a[2] - b[2]) * (a[2] - b[2])
            + (a[3] - b[3]) * (a[3] - b[3])
            + (a[4] - b[4]) * (a[4] - b[4])
            + (a[5] - b[5]) * (a[5] - b[5])
            + (a[6] - b[6]) * (a[6] - b[6])
            + (a[7] - b[7]) * (a[7] - b[7])
            + (a[8] - b[8]) * (a[8] - b[8])
            + (a[9] - b[9]) * (a[9] - b[9])
            + (a[10] - b[10]) * (a[10] - b[10])
            + (a[11] - b[11]) * (a[11] - b[11])
            + (a[12] - b[12]) * (a[12] - b[12])
            + (a[13] - b[13]) * (a[13] - b[13]),
        square_sum(a, b, 16) == (a[0] - b[0]) * (a[0] - b[0])
            + (a[1] - b[1]) * (a[1] - b[1])
            + (a[2] - b[2]) * (a[2] - b[2])
            + (a[3] - b[3]) * (a[3] - b[3])
            + (a[4] - b[4]) * (a[4] - b[4])
            + (a[5] - b[5]) * (a[5] - b[5])
            + (a[6] - b[6]) * (a[6] - b[6])
            + (a[7] - b[7]) * (a[7] - b[7])
            + (a[8] - b[8]) * (a[8] - b[8])
            + (a[9] - b[9]) * (a[9] - b[9])
            + (a[10] - b[10]) * (a[10] - b[10])
            + (a[11] - b[11]) * (a[11] - b[11])
            + (a[12] - b[12]) * (a[12] - b[12])
            + (a[13] - b[13]) * (a[13] - b[13])
            + (a[14] - b[14]) * (a[14] - b[14])
            + (a[15] - b[15]) * (a[15] - b[15]),
{
    reveal_with_fuel(square_sum, 17);
}

/// A stored vector is the transaction vector with two zeros behind it.
pub proof fn law_stored_vector_ends_in_zeros(v: Seq<i16>)
    ensures
        padded(v).len() == 16,
        forall|d: int| 0 <= d < 14 ==> #[trigger] padded(v)[d] == v[d],
        padded(v)[14] == 0,
        padded(v)[15] == 0,
{
}

/// Distance is the same in both directions, and zero from a vector to itself.
pub proof fn law_distance_is_symmetric(a: Seq<i16>, b: Seq<i16>)
    ensures
        squared_l2(a, b) == squared_l2(b, a),
        squared_l2(a, a) == 0,
        square_sum(a, b, 16) == square_sum(b, a, 16),
{
    lemma_square_sum_symmetric(a, b, 14);
    lemma_square_sum_symmetric(a, b, 16);
}

proof fn lemma_square_sum_symmetric(a: Seq<i16>, b: Seq<i16>, n: nat)
    ensures
        square_sum(a, b, n) == square_sum(b, a, n),
        square_sum(a, a, n) == 0,
    decreases n,
{
    if n > 0 {
        lemma_square_sum_symmetric(a, b, (n - 1) as nat);
        let x = (a[n - 1] - b[n - 1]) as int;
        assert(x * x == (-x) * (-x)) by (nonlinear_arith);
    }
}

/// The distance to a box is the distance to its nearest point: the query with each coordinate
/// moved into the box. No vector of the box is nearer.
pub proof fn law_box_distance_is_met(query: Seq<i16>, min: Seq<i16>, max: Seq<i16>, v: Seq<i16>)
    requires
        forall|d: int| 0 <= d < 14 ==> min[d] <= #[trigger] v[d] <= max[d],
    ensures
        box_l2(query, min, max) == squared_l2(
            query,
            Seq::new(
                14,
                |d: int|
                    if query[d] < min[d] {
                        min[d]
                    } else if query[d] > max[d] {
                        max[d]
                    } else {
                        query[d]
                    },
            ),
        ),
        box_l2(query, min, max) <= squared_l2(query, v),
{
    law_box_bounds_its_vectors(query, min, max, v);
    lemma_nearest_point(query, min, max, 14);
}

proof fn lemma_nearest_point(query: Seq<i16>, min: Seq<i16>, max: Seq<i16>, n: nat)
    requires
        n <= 14,
    ensures
        gap_sum(query, min, max, n) == square_sum(
            query,
            Seq::new(
                14,
                |d: int|
                    if query[d] < min[d] {
                        min[d]
                    } else if query[d] > max[d] {
                        max[d]
                    } else {
                        query[d]
                    },
            ),
            n,
        ),
    decreases n,
{
    if n > 0 {
        lemma_nearest_point(query, min, max, (n - 1) as nat);
        let d = n - 1;
        let x = gap(query[d] as int, min[d] as int, max[d] as int);
        assert(x * x == (-x) * (-x)) by (nonlinear_arith);
    }
}

} // verus!
