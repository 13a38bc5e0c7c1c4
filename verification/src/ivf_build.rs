//! Building the cell index: centroids by k-means, vectors grouped by cell.

use vstd::prelude::*;

use crate::bytes::{
    encode_i16s, encode_u32s, i16s_of, law_i16_file_round_trip, law_u32_file_round_trip, le_i16s,
    le_u32s, u32s_of,
};
use crate::dataset::{meta_problem, LoadedDataset, ReferenceLabel};
use crate::distance::{
    law_distance_is_the_sum_of_squares, law_padding_keeps_distance, padded, squared_l2,
    squared_l2_i16, DIMS_PADDED, VECTOR_DIMENSIONS,
};
use crate::ivf::{met, padded_l2, padded_row, probed, IvfIndex, NLIST, NPROBE};
use crate::partition::PARTITION_COUNT;

verus! {

/// How many rounds of k-means are made.
pub const KMEANS_ITERS: usize = 5;

/// The centroids that k-means starts from: every `n / NLIST`-th vector.
pub open spec fn first_centroids(dataset: LoadedDataset, n: nat) -> Seq<Seq<i16>> {
    Seq::new(NLIST as nat, |c: int| dataset.vector(c * (n / NLIST as nat)))
}

/// The nearest of the first `count` centroids, the first one among equals.
pub open spec fn closest(centroids: Seq<Seq<i16>>, v: Seq<i16>, count: nat) -> int
    decreases count,
{
    if count <= 1 {
        0
    } else {
        let best = closest(centroids, v, (count - 1) as nat);
        if squared_l2(centroids[count - 1], v) < squared_l2(centroids[best], v) {
            count - 1
        } else {
            best
        }
    }
}

/// The cell of each vector: that of its nearest centroid.
pub open spec fn assignment(dataset: LoadedDataset, n: nat, centroids: Seq<Seq<i16>>) -> Seq<u16> {
    Seq::new(n, |i: int| closest(centroids, dataset.vector(i), NLIST as nat) as u16)
}

/// The positions that are assigned to cell `c`, in order.
pub open spec fn in_cell(assigned: Seq<u16>, c: int) -> Seq<int>
    decreases assigned.len(),
{
    if assigned.len() == 0 {
        Seq::empty()
    } else {
        let rest = in_cell(assigned.drop_last(), c);
        if assigned.last() == c {
            rest.push(assigned.len() - 1)
        } else {
            rest
        }
    }
}

/// The sum of coordinate `d` of the vectors of cell `c`.
pub open spec fn cell_sum(dataset: LoadedDataset, assigned: Seq<u16>, c: int, d: int) -> int
    decreases assigned.len(),
{
    if assigned.len() == 0 {
        0
    } else {
        cell_sum(dataset, assigned.drop_last(), c, d) + if assigned.last() == c {
            dataset.vector(assigned.len() - 1)[d] as int
        } else {
            0
        }
    }
}

/// The quotient rounded towards zero.
pub open spec fn toward_zero(sum: int, count: int) -> int {
    if sum >= 0 {
        sum / count
    } else {
        -((-sum) / count)
    }
}

/// The mean of the vectors of each cell, rounded towards zero; a cell without vectors
/// keeps its centroid.
pub open spec fn means(
    dataset: LoadedDataset,
    assigned: Seq<u16>,
    centroids: Seq<Seq<i16>>,
) -> Seq<Seq<i16>> {
    Seq::new(
        NLIST as nat,
        |c: int|
            if in_cell(assigned, c).len() > 0 {
                Seq::new(
                    VECTOR_DIMENSIONS as nat,
                    |d: int|
                        toward_zero(
                            cell_sum(dataset, assigned, c, d),
                            in_cell(assigned, c).len() as int,
                        ) as i16,
                )
            } else {
                centroids[c]
            },
    )
}

/// The centroids after `rounds` rounds of k-means.
pub open spec fn refined(dataset: LoadedDataset, n: nat, rounds: nat) -> Seq<Seq<i16>>
    decreases rounds,
{
    if rounds == 0 {
        first_centroids(dataset, n)
    } else {
        let before = refined(dataset, n, (rounds - 1) as nat);
        means(dataset, assignment(dataset, n, before), before)
    }
}

/// The cells that the vectors end up in: those of the last round.
pub open spec fn final_assignment(dataset: LoadedDataset, n: nat) -> Seq<u16> {
    assignment(dataset, n, refined(dataset, n, (KMEANS_ITERS - 1) as nat))
}

/// How many vectors the cells before `c` hold.
pub open spec fn cells_below(assigned: Seq<u16>, c: nat) -> nat
    decreases c,
{
    if c == 0 {
        0
    } else {
        cells_below(assigned, (c - 1) as nat) + in_cell(assigned, c - 1).len()
    }
}

/// The positions grouped by cell, for the cells before `c`.
pub open spec fn grouped(assigned: Seq<u16>, c: nat) -> Seq<int>
    decreases c,
{
    if c == 0 {
        Seq::empty()
    } else {
        grouped(assigned, (c - 1) as nat) + in_cell(assigned, c - 1)
    }
}

/// The coordinates of some vectors, each padded.
pub open spec fn padded_values(vectors: Seq<Seq<i16>>) -> Seq<i16> {
    Seq::new(
        DIMS_PADDED as nat * vectors.len(),
        |j: int| padded(vectors[j / (DIMS_PADDED as int)])[j % (DIMS_PADDED as int)],
    )
}

/// The vectors grouped by cell.
pub open spec fn grouped_vectors(dataset: LoadedDataset, assigned: Seq<u16>) -> Seq<Seq<i16>> {
    let list = grouped(assigned, NLIST as nat);
    Seq::new(list.len(), |j: int| dataset.vector(list[j]))
}

/// The labels grouped by cell: 1 for a fraud.
pub open spec fn grouped_labels(dataset: LoadedDataset, assigned: Seq<u16>) -> Seq<u8> {
    let list = grouped(assigned, NLIST as nat);
    Seq::new(
        list.len(),
        |j: int|
            if dataset.label(list[j]) == ReferenceLabel::Fraud {
                1u8
            } else {
                0u8
            },
    )
}

/// Where the cells start, and last the number of vectors.
pub open spec fn cell_table(assigned: Seq<u16>) -> Seq<u32> {
    Seq::new(NLIST as nat + 1, |c: int| cells_below(assigned, c as nat) as u32)
}

/// Every vector is assigned to one of the cells.
pub open spec fn valid_cells(assigned: Seq<u16>) -> bool {
    forall|i: int| 0 <= i < assigned.len() ==> #[trigger] assigned[i] < NLIST
}

/// The contents of the four files of the index.
pub struct IvfFiles {
    pub centroids: Vec<u8>,
    pub vectors: Vec<u8>,
    pub labels: Vec<u8>,
    pub offsets: Vec<u8>,
}

proof fn lemma_closest_bounds(centroids: Seq<Seq<i16>>, v: Seq<i16>, count: nat)
    ensures
        0 <= closest(centroids, v, count),
        count > 0 ==> closest(centroids, v, count) < count,
    decreases count,
{
    if count > 1 {
        lemma_closest_bounds(centroids, v, (count - 1) as nat);
    }
}

/// No centroid is nearer than the closest, and those before it are farther.
pub proof fn law_closest_is_nearest(centroids: Seq<Seq<i16>>, v: Seq<i16>, count: nat)
    requires
        count > 0,
    ensures
        0 <= closest(centroids, v, count) < count,
        forall|j: int|
            0 <= j < count ==> squared_l2(centroids[closest(centroids, v, count)], v) <= squared_l2(
                #[trigger] centroids[j],
                v,
            ),
        forall|j: int|
            0 <= j < closest(centroids, v, count) ==> squared_l2(
                centroids[closest(centroids, v, count)],
                v,
            ) < squared_l2(#[trigger] centroids[j], v),
    decreases count,
{
    lemma_closest_bounds(centroids, v, count);
    if count > 1 {
        law_closest_is_nearest(centroids, v, (count - 1) as nat);
    }
}

proof fn lemma_in_cell_push(assigned: Seq<u16>, i: int, c: int)
    requires
        0 <= i < assigned.len(),
    ensures
        in_cell(assigned.take(i + 1), c) == if assigned[i] == c {
            in_cell(assigned.take(i), c).push(i)
        } else {
            in_cell(assigned.take(i), c)
        },
{
    assert(assigned.take(i + 1).drop_last() =~= assigned.take(i));
    assert(assigned.take(i + 1).last() == assigned[i]);
}

proof fn lemma_cell_sum_push(
    dataset: LoadedDataset,
    assigned: Seq<u16>,
    i: int,
    c: int,
    d: int,
)
    requires
        0 <= i < assigned.len(),
    ensures
        cell_sum(dataset, assigned.take(i + 1), c, d) == cell_sum(dataset, assigned.take(i), c, d)
            + if assigned[i] == c {
            dataset.vector(i)[d] as int
        } else {
            0
        },
{
    assert(assigned.take(i + 1).drop_last() =~= assigned.take(i));
    assert(assigned.take(i + 1).last() == assigned[i]);
}

proof fn lemma_cell_sum_bounds(dataset: LoadedDataset, assigned: Seq<u16>, c: int, d: int)
    ensures
        -32768 * in_cell(assigned, c).len() <= cell_sum(dataset, assigned, c, d) <= 32767 * in_cell(
            assigned,
            c,
        ).len(),
        in_cell(assigned, c).len() <= assigned.len(),
    decreases assigned.len(),
{
    if assigned.len() > 0 {
        lemma_cell_sum_bounds(dataset, assigned.drop_last(), c, d);
    }
}

proof fn lemma_mean_bounds(sum: int, count: int)
    requires
        count > 0,
        -32768 * count <= sum <= 32767 * count,
    ensures
        -32768 <= toward_zero(sum, count) <= 32767,
{
    if sum >= 0 {
        assert(0 <= sum / count <= 32767) by (nonlinear_arith)
            requires
                count > 0,
                0 <= sum <= 32767 * count,
        ;
    } else {
        let m = -sum;
        assert(0 <= m / count <= 32768) by (nonlinear_arith)
            requires
                count > 0,
                0 <= m <= 32768 * count,
        ;
    }
}

/// The centroids as arrays stand for the centroids as sequences.
pub open spec fn stands_for(list: Seq<[i16; VECTOR_DIMENSIONS]>, centroids: Seq<Seq<i16>>) -> bool {
    &&& list.len() == NLIST
    &&& centroids.len() == NLIST
    &&& forall|c: int| 0 <= c < NLIST ==> (#[trigger] list[c])@ == centroids[c]
}

/// The vectors of a data set that k-means reads are there.
pub open spec fn has_vectors(dataset: LoadedDataset, n: nat) -> bool {
    &&& dataset.has_vector(0)
    &&& forall|i: int| 0 <= i < n ==> #[trigger] dataset.has_vector(i)
}

/// The centroids that k-means starts from.
fn init_centroids(dataset: &LoadedDataset, n: usize) -> (list: Vec<[i16; VECTOR_DIMENSIONS]>)
    requires
        has_vectors(*dataset, n as nat),
    ensures
        stands_for(list@, first_centroids(*dataset, n as nat)),
{
    let step: usize = n / NLIST;
    let mut list: Vec<[i16; VECTOR_DIMENSIONS]> = Vec::new();
    let mut i: usize = 0;
    while i < NLIST
        invariant
            0 <= i <= NLIST,
            step == n / NLIST,
            has_vectors(*dataset, n as nat),
            list@.len() == i,
            forall|c: int|
                0 <= c < i ==> (#[trigger] list@[c])@ == first_centroids(*dataset, n as nat)[c],
        decreases NLIST - i,
    {
        assert(0 <= i * step && (n > 0 ==> i * step < n) && (n == 0 ==> i * step == 0))
            by (nonlinear_arith)
            requires
                step == n / 4096,
                0 <= i < 4096,
                0 <= n,
        ;
        assert(dataset.has_vector(i * step));
        let v = dataset.vector_at(i * step);
        let mut centroid: [i16; VECTOR_DIMENSIONS] = [0i16; VECTOR_DIMENSIONS];
        let mut d: usize = 0;
        while d < VECTOR_DIMENSIONS
            invariant
                0 <= d <= VECTOR_DIMENSIONS,
                v@.len() == VECTOR_DIMENSIONS,
                forall|e: int| 0 <= e < d ==> #[trigger] centroid@[e] == v@[e],
            decreases VECTOR_DIMENSIONS - d,
        {
            centroid[d] = v[d];
            d = d + 1;
        }
        assert(centroid@ =~= v@);
        list.push(centroid);
        i = i + 1;
    }
    list
}

/// The nearest centroid of a vector.
fn closest_centroid(
    list: &Vec<[i16; VECTOR_DIMENSIONS]>,
    v: &[i16],
    Ghost(centroids): Ghost<Seq<Seq<i16>>>,
) -> (best: u16)
    requires
        stands_for(list@, centroids),
        v@.len() == VECTOR_DIMENSIONS,
    ensures
        best == closest(centroids, v@, NLIST as nat),
        best < NLIST,
{
    let mut best_dist: i64 = i64::MAX;
    let mut best: u16 = 0;
    let mut c: usize = 0;
    while c < NLIST
        invariant
            0 <= c <= NLIST,
            stands_for(list@, centroids),
            v@.len() == VECTOR_DIMENSIONS,
            best == closest(centroids, v@, c as nat),
            best < NLIST,
            c == 0 ==> best_dist == i64::MAX,
            c > 0 ==> best < c && best_dist == squared_l2(centroids[best as int], v@),
        decreases NLIST - c,
    {
        assert(list@[c as int]@ == centroids[c as int]);
        let dist: i64 = squared_l2_i16(&list[c], v);
        if dist < best_dist {
            best_dist = dist;
            best = c as u16;
        }
        c = c + 1;
    }
    best
}

/// The cell of each vector.
fn assign_all(
    dataset: &LoadedDataset,
    n: usize,
    list: &Vec<[i16; VECTOR_DIMENSIONS]>,
    Ghost(centroids): Ghost<Seq<Seq<i16>>>,
) -> (assigned: Vec<u16>)
    requires
        has_vectors(*dataset, n as nat),
        stands_for(list@, centroids),
    ensures
        assigned@ == assignment(*dataset, n as nat, centroids),
        valid_cells(assigned@),
{
    let mut assigned: Vec<u16> = Vec::new();
    let mut i: usize = 0;
    while i < n
        invariant
            0 <= i <= n,
            has_vectors(*dataset, n as nat),
            stands_for(list@, centroids),
            assigned@ == assignment(*dataset, n as nat, centroids).take(i as int),
            valid_cells(assigned@),
        decreases n - i,
    {
        assert(dataset.has_vector(i as int));
        let best: u16 = closest_centroid(list, dataset.vector_at(i), Ghost(centroids));
        assigned.push(best);
        assert(assigned@ =~= assignment(*dataset, n as nat, centroids).take(i + 1));
        i = i + 1;
    }
    assert(assigned@ =~= assignment(*dataset, n as nat, centroids));
    assigned
}

/// The coordinate sums of all cells, one cell after the other.
#[verifier::rlimit(30)]
fn cell_sums(dataset: &LoadedDataset, assigned: &Vec<u16>) -> (sums: Vec<i64>)
    requires
        has_vectors(*dataset, assigned@.len()),
        valid_cells(assigned@),
        assigned@.len() <= u32::MAX,
    ensures
        sums@.len() == NLIST * VECTOR_DIMENSIONS,
        forall|j: int|
            0 <= j < NLIST * VECTOR_DIMENSIONS ==> #[trigger] sums@[j] == cell_sum(
                *dataset,
                assigned@,
                j / 14,
                j % 14,
            ),
{
    let mut sums: Vec<i64> = vec![0i64; NLIST * VECTOR_DIMENSIONS];
    let ghost list = assigned@;
    let mut i: usize = 0;
    while i < assigned.len()
        invariant
            0 <= i <= assigned@.len(),
            list == assigned@,
            has_vectors(*dataset, assigned@.len()),
            valid_cells(list),
            assigned@.len() <= u32::MAX,
            sums@.len() == NLIST * VECTOR_DIMENSIONS,
            forall|j: int|
                0 <= j < NLIST * VECTOR_DIMENSIONS ==> #[trigger] sums@[j] == cell_sum(
                    *dataset,
                    list.take(i as int),
                    j / 14,
                    j % 14,
                ),
        decreases assigned@.len() - i,
    {
        let c: usize = assigned[i] as usize;
        assert(list[i as int] < NLIST);
        assert(dataset.has_vector(i as int));
        let v = dataset.vector_at(i);
        let mut d: usize = 0;
        while d < VECTOR_DIMENSIONS
            invariant
                0 <= d <= VECTOR_DIMENSIONS,
                0 <= i < list.len() <= u32::MAX,
                c == list[i as int],
                c < NLIST,
                v@.len() == VECTOR_DIMENSIONS,
                v@ == dataset.vector(i as int),
                sums@.len() == NLIST * VECTOR_DIMENSIONS,
                forall|j: int|
                    0 <= j < NLIST * VECTOR_DIMENSIONS ==> #[trigger] sums@[j] == cell_sum(
                        *dataset,
                        list.take(
                            if j / 14 == c && j % 14 < d {
                                i + 1
                            } else {
                                i as int
                            },
                        ),
                        j / 14,
                        j % 14,
                    ),
            decreases VECTOR_DIMENSIONS - d,
        {
            let at: usize = c * VECTOR_DIMENSIONS + d;
            proof {
                assert(at / 14 == c && at % 14 == d);
                assert(sums@[at as int] == cell_sum(
                    *dataset,
                    list.take(i as int),
                    c as int,
                    d as int,
                ));
                lemma_cell_sum_bounds(*dataset, list.take(i as int), c as int, d as int);
                lemma_cell_sum_push(*dataset, list, i as int, c as int, d as int);
            }
            let sum: i64 = sums[at] + v[d] as i64;
            let ghost before = sums@;
            sums[at] = sum;
            proof {
                assert forall|j: int|
                    0 <= j < NLIST * VECTOR_DIMENSIONS implies #[trigger] sums@[j] == cell_sum(
                    *dataset,
                    list.take(
                        if j / 14 == c && j % 14 < d + 1 {
                            i + 1
                        } else {
                            i as int
                        },
                    ),
                    j / 14,
                    j % 14,
                ) by {
                    if j != at {
                        assert(sums@[j] == before[j]);
                    }
                }
            }
            d = d + 1;
        }
        proof {
            assert forall|j: int|
                0 <= j < NLIST * VECTOR_DIMENSIONS implies #[trigger] sums@[j] == cell_sum(
                *dataset,
                list.take(i + 1),
                j / 14,
                j % 14,
            ) by {
                lemma_cell_sum_push(*dataset, list, i as int, j / 14, j % 14);
            }
        }
        i = i + 1;
    }
    assert(list.take(list.len() as int) =~= list);
    sums
}

/// How many vectors each cell holds.
fn cell_counts(assigned: &Vec<u16>) -> (counts: Vec<u32>)
    requires
        valid_cells(assigned@),
        assigned@.len() <= u32::MAX,
    ensures
        counts@.len() == NLIST,
        forall|c: int|
            0 <= c < NLIST ==> #[trigger] counts@[c] == in_cell(assigned@, c).len(),
{
    let mut counts: Vec<u32> = vec![0u32; NLIST];
    let ghost list = assigned@;
    let mut i: usize = 0;
    while i < assigned.len()
        invariant
            0 <= i <= assigned@.len(),
            list == assigned@,
            valid_cells(list),
            list.len() <= u32::MAX,
            counts@.len() == NLIST,
            forall|c: int|
                0 <= c < NLIST ==> #[trigger] counts@[c] == in_cell(list.take(i as int), c).len(),
        decreases assigned@.len() - i,
    {
        let c: usize = assigned[i] as usize;
        assert(list[i as int] < NLIST);
        proof {
            lemma_in_cell_length(list.take(i as int), c as int);
        }
        let ghost before = counts@;
        counts[c] = counts[c] + 1;
        proof {
            assert forall|e: int| 0 <= e < NLIST implies #[trigger] counts@[e] == in_cell(
                list.take(i + 1),
                e,
            ).len() by {
                lemma_in_cell_push(list, i as int, e);
                assert(before[e] == in_cell(list.take(i as int), e).len());
            }
        }
        i = i + 1;
    }
    assert(list.take(list.len() as int) =~= list);
    counts
}

proof fn lemma_in_cell_length(assigned: Seq<u16>, c: int)
    ensures
        in_cell(assigned, c).len() <= assigned.len(),
    decreases assigned.len(),
{
    if assigned.len() > 0 {
        lemma_in_cell_length(assigned.drop_last(), c);
    }
}

/// Moves each centroid to the mean of its cell.
#[verifier::rlimit(30)]
fn move_centroids(
    dataset: &LoadedDataset,
    assigned: &Vec<u16>,
    list: &mut Vec<[i16; VECTOR_DIMENSIONS]>,
    Ghost(centroids): Ghost<Seq<Seq<i16>>>,
)
    requires
        has_vectors(*dataset, assigned@.len()),
        valid_cells(assigned@),
        assigned@.len() <= u32::MAX,
        stands_for(old(list)@, centroids),
    ensures
        stands_for(final(list)@, means(*dataset, assigned@, centroids)),
{
    let sums = cell_sums(dataset, assigned);
    let counts = cell_counts(assigned);
    let ghost moved = means(*dataset, assigned@, centroids);
    let mut c: usize = 0;
    while c < NLIST
        invariant
            0 <= c <= NLIST,
            moved == means(*dataset, assigned@, centroids),
            assigned@.len() <= u32::MAX,
            sums@.len() == NLIST * VECTOR_DIMENSIONS,
            forall|j: int|
                0 <= j < NLIST * VECTOR_DIMENSIONS ==> #[trigger] sums@[j] == cell_sum(
                    *dataset,
                    assigned@,
                    j / 14,
                    j % 14,
                ),
            counts@.len() == NLIST,
            forall|e: int|
                0 <= e < NLIST ==> #[trigger] counts@[e] == in_cell(assigned@, e).len(),
            list@.len() == NLIST,
            centroids.len() == NLIST,
            forall|e: int| 0 <= e < c ==> (#[trigger] list@[e])@ == moved[e],
            forall|e: int| c <= e < NLIST ==> (#[trigger] list@[e])@ == centroids[e],
        decreases NLIST - c,
    {
        let count: u32 = counts[c];
        if count > 0 {
            let mut centroid: [i16; VECTOR_DIMENSIONS] = [0i16; VECTOR_DIMENSIONS];
            let mut d: usize = 0;
            while d < VECTOR_DIMENSIONS
                invariant
                    0 <= d <= VECTOR_DIMENSIONS,
                    0 <= c < NLIST,
                    count > 0,
                    count == in_cell(assigned@, c as int).len(),
                    moved == means(*dataset, assigned@, centroids),
                    sums@.len() == NLIST * VECTOR_DIMENSIONS,
                    forall|j: int|
                        0 <= j < NLIST * VECTOR_DIMENSIONS ==> #[trigger] sums@[j] == cell_sum(
                            *dataset,
                            assigned@,
                            j / 14,
                            j % 14,
                        ),
                    forall|e: int|
                        0 <= e < d ==> #[trigger] centroid@[e] == moved[c as int][e],
                decreases VECTOR_DIMENSIONS - d,
            {
                let at: usize = c * VECTOR_DIMENSIONS + d;
                let sum: i64 = sums[at];
                proof {
                    assert(at / 14 == c && at % 14 == d);
                    assert(sum == cell_sum(*dataset, assigned@, c as int, d as int));
                    lemma_cell_sum_bounds(*dataset, assigned@, c as int, d as int);
                    lemma_mean_bounds(sum as int, count as int);
                }
                let mean: i64 = if sum >= 0 {
                    sum / (count as i64)
                } else {
                    -((-sum) / (count as i64))
                };
                centroid[d] = mean as i16;
                d = d + 1;
            }
            assert(centroid@ =~= moved[c as int]);
            list[c] = centroid;
        }
        c = c + 1;
    }
}

/// What `in_cell` lists: positions of the cell, each preceded by those before it.
proof fn lemma_in_cell_at(assigned: Seq<u16>, c: int, r: int)
    requires
        0 <= r < in_cell(assigned, c).len(),
    ensures
        0 <= in_cell(assigned, c)[r] < assigned.len(),
        assigned[in_cell(assigned, c)[r]] == c,
        in_cell(assigned.take(in_cell(assigned, c)[r]), c).len() == r,
    decreases assigned.len(),
{
    let rest = assigned.drop_last();
    let less = in_cell(rest, c);
    if r < less.len() {
        lemma_in_cell_at(rest, c, r);
        let i = less[r];
        assert(rest.take(i) =~= assigned.take(i));
    } else {
        assert(assigned.take(assigned.len() - 1) =~= rest);
    }
}

/// Position `i` stands in its cell after those before it.
proof fn lemma_in_cell_finds(assigned: Seq<u16>, i: int)
    requires
        0 <= i < assigned.len(),
    ensures
        ({
            let c = assigned[i] as int;
            let r = in_cell(assigned.take(i), c).len() as int;
            r < in_cell(assigned, c).len() && in_cell(assigned, c)[r] == i
        }),
    decreases assigned.len(),
{
    let c = assigned[i] as int;
    let rest = assigned.drop_last();
    if i < rest.len() {
        lemma_in_cell_finds(rest, i);
        assert(rest.take(i) =~= assigned.take(i));
    } else {
        assert(assigned.take(i) =~= rest);
    }
}

proof fn lemma_grouped_length(assigned: Seq<u16>, c: nat)
    ensures
        grouped(assigned, c).len() == cells_below(assigned, c),
    decreases c,
{
    if c > 0 {
        lemma_grouped_length(assigned, (c - 1) as nat);
    }
}

/// The cell `c` stands where the table says.
proof fn lemma_grouped_at(assigned: Seq<u16>, count: nat, c: int, r: int)
    requires
        0 <= c < count,
        0 <= r < in_cell(assigned, c).len(),
    ensures
        cells_below(assigned, c as nat) + r < cells_below(assigned, count),
        grouped(assigned, count)[cells_below(assigned, c as nat) + r] == in_cell(assigned, c)[r],
    decreases count,
{
    lemma_grouped_length(assigned, (count - 1) as nat);
    if c < count - 1 {
        lemma_grouped_at(assigned, (count - 1) as nat, c, r);
    }
}

/// Where position `i` goes.
pub open spec fn destination(assigned: Seq<u16>, i: int) -> int {
    (cells_below(assigned, assigned[i] as nat) + in_cell(
        assigned.take(i),
        assigned[i] as int,
    ).len()) as int
}

/// Every vector stands at its destination.
pub proof fn law_every_vector_is_grouped(assigned: Seq<u16>, i: int)
    requires
        valid_cells(assigned),
        0 <= i < assigned.len(),
    ensures
        0 <= destination(assigned, i) < grouped(assigned, NLIST as nat).len(),
        grouped(assigned, NLIST as nat)[destination(assigned, i)] == i,
        cells_below(assigned, assigned[i] as nat) <= destination(assigned, i) < cells_below(
            assigned,
            assigned[i] as nat + 1,
        ),
{
    let c = assigned[i] as int;
    let r = in_cell(assigned.take(i), c).len() as int;
    assert(assigned[i] < NLIST);
    lemma_in_cell_finds(assigned, i);
    lemma_grouped_at(assigned, NLIST as nat, c, r);
    lemma_grouped_length(assigned, NLIST as nat);
}

proof fn lemma_grouped_from(assigned: Seq<u16>, count: nat, j: int)
    requires
        0 <= j < grouped(assigned, count).len(),
    ensures
        0 <= grouped(assigned, count)[j] < assigned.len(),
        destination(assigned, grouped(assigned, count)[j]) == j,
    decreases count,
{
    let c = (count - 1) as nat;
    lemma_grouped_length(assigned, c);
    if j < grouped(assigned, c).len() {
        lemma_grouped_from(assigned, c, j);
    } else {
        lemma_in_cell_at(assigned, c as int, j - grouped(assigned, c).len());
    }
}

/// Every place holds one vector, and each place another one.
pub proof fn law_every_place_holds_one_vector(assigned: Seq<u16>, j: int)
    requires
        0 <= j < grouped(assigned, NLIST as nat).len(),
    ensures
        0 <= grouped(assigned, NLIST as nat)[j] < assigned.len(),
        destination(assigned, grouped(assigned, NLIST as nat)[j]) == j,
{
    lemma_grouped_from(assigned, NLIST as nat, j);
}

proof fn lemma_cells_below_push(assigned: Seq<u16>, i: int, c: nat)
    requires
        0 <= i < assigned.len(),
    ensures
        cells_below(assigned.take(i + 1), c) == cells_below(assigned.take(i), c) + if assigned[i]
            < c {
            1nat
        } else {
            0nat
        },
    decreases c,
{
    if c > 0 {
        lemma_cells_below_push(assigned, i, (c - 1) as nat);
        lemma_in_cell_push(assigned, i, c - 1);
    }
}

proof fn lemma_no_cells_below(assigned: Seq<u16>, c: nat)
    requires
        assigned.len() == 0,
    ensures
        cells_below(assigned, c) == 0,
    decreases c,
{
    if c > 0 {
        lemma_no_cells_below(assigned, (c - 1) as nat);
    }
}

proof fn lemma_cells_below_counts(assigned: Seq<u16>, m: int, c: nat)
    requires
        0 <= m <= assigned.len(),
    ensures
        cells_below(assigned.take(m), c) <= m,
        valid_cells(assigned) && c == NLIST ==> cells_below(assigned.take(m), c) == m,
    decreases m,
{
    if m == 0 {
        lemma_no_cells_below(assigned.take(0), c);
    } else {
        lemma_cells_below_counts(assigned, m - 1, c);
        lemma_cells_below_push(assigned, m - 1, c);
    }
}

/// The cells together hold all vectors.
pub proof fn law_cells_hold_all(assigned: Seq<u16>)
    requires
        valid_cells(assigned),
    ensures
        cells_below(assigned, NLIST as nat) == assigned.len(),
        grouped(assigned, NLIST as nat).len() == assigned.len(),
        forall|c: nat| #[trigger] cells_below(assigned, c) <= assigned.len(),
{
    assert(assigned.take(assigned.len() as int) =~= assigned);
    lemma_cells_below_counts(assigned, assigned.len() as int, NLIST as nat);
    lemma_grouped_length(assigned, NLIST as nat);
    assert forall|c: nat| #[trigger] cells_below(assigned, c) <= assigned.len() by {
        lemma_cells_below_counts(assigned, assigned.len() as int, c);
    }
}

/// Where the cells start, and last the number of vectors.
fn cell_starts(counts: &Vec<u32>, Ghost(assigned): Ghost<Seq<u16>>) -> (offsets: Vec<u32>)
    requires
        valid_cells(assigned),
        assigned.len() <= u32::MAX,
        counts@.len() == NLIST,
        forall|c: int| 0 <= c < NLIST ==> #[trigger] counts@[c] == in_cell(assigned, c).len(),
    ensures
        offsets@ == cell_table(assigned),
{
    let mut offsets: Vec<u32> = Vec::new();
    offsets.push(0);
    let mut total: u32 = 0;
    proof {
        law_cells_hold_all(assigned);
    }
    assert(offsets@ =~= cell_table(assigned).take(1));
    let mut c: usize = 0;
    while c < NLIST
        invariant
            0 <= c <= NLIST,
            assigned.len() <= u32::MAX,
            counts@.len() == NLIST,
            forall|e: int|
                0 <= e < NLIST ==> #[trigger] counts@[e] == in_cell(assigned, e).len(),
            forall|e: nat| #[trigger] cells_below(assigned, e) <= assigned.len(),
            total == cells_below(assigned, c as nat),
            offsets@ == cell_table(assigned).take(c + 1),
        decreases NLIST - c,
    {
        proof {
            assert(cells_below(assigned, (c + 1) as nat) <= assigned.len());
        }
        total = total + counts[c];
        offsets.push(total);
        c = c + 1;
        assert(offsets@ =~= cell_table(assigned).take(c + 1));
    }
    assert(offsets@ =~= cell_table(assigned));
    offsets
}

/// Vector `i` padded stands at place `j` of a flat list.
spec fn placed(out: Seq<i16>, j: int, v: Seq<i16>) -> bool {
    forall|d: int| 0 <= d < DIMS_PADDED ==> out[16 * j + d] == #[trigger] padded(v)[d]
}

/// Writes a vector into a flat list of padded vectors that is zero there.
fn place(out: &mut Vec<i16>, j: usize, v: &[i16])
    requires
        v@.len() == VECTOR_DIMENSIONS,
        16 * j + 16 <= old(out)@.len(),
        forall|d: int| 16 * j <= d < 16 * j + 16 ==> #[trigger] old(out)@[d] == 0,
    ensures
        final(out)@.len() == old(out)@.len(),
        placed(final(out)@, j as int, v@),
        forall|x: int|
            0 <= x < old(out)@.len() && !(16 * j <= x < 16 * j + 16) ==> #[trigger] final(out)@[x]
                == old(out)@[x],
{
    let ghost before = out@;
    assert(out.len() == out@.len());
    let start: usize = j * DIMS_PADDED;
    let mut d: usize = 0;
    while d < VECTOR_DIMENSIONS
        invariant
            0 <= d <= VECTOR_DIMENSIONS,
            v@.len() == VECTOR_DIMENSIONS,
            start == 16 * j,
            16 * j + 16 <= before.len(),
            out@.len() == before.len(),
            out.len() == out@.len(),
            forall|e: int| 0 <= e < d ==> out@[start + e] == #[trigger] v@[e],
            forall|x: int|
                0 <= x < before.len() && !(start <= x < start + d) ==> #[trigger] out@[x]
                    == before[x],
        decreases VECTOR_DIMENSIONS - d,
    {
        out[start + d] = v[d];
        d = d + 1;
    }
    assert forall|e: int| 0 <= e < DIMS_PADDED implies out@[16 * j + e] == #[trigger] padded(
        v@,
    )[e] by {
        if e < VECTOR_DIMENSIONS {
            assert(out@[start + e] == v@[e]);
        } else {
            assert(out@[start + e] == before[start + e]);
        }
    }
}

/// The vectors and labels grouped by cell.
#[verifier::rlimit(30)]
fn group_by_cell(dataset: &LoadedDataset, assigned: &Vec<u16>, offsets: &Vec<u32>) -> (out: (
    Vec<i16>,
    Vec<u8>,
))
    requires
        has_vectors(*dataset, assigned@.len()),
        forall|i: int| 0 <= i < assigned@.len() ==> #[trigger] dataset.has_label(i),
        valid_cells(assigned@),
        assigned@.len() <= u32::MAX,
        assigned@.len() * DIMS_PADDED <= usize::MAX,
        offsets@ == cell_table(assigned@),
    ensures
        out.0@ == padded_values(grouped_vectors(*dataset, assigned@)),
        out.1@ == grouped_labels(*dataset, assigned@),
{
    let n: usize = assigned.len();
    let ghost cells = assigned@;
    let ghost list = grouped(cells, NLIST as nat);
    proof {
        law_cells_hold_all(cells);
    }
    let mut vectors: Vec<i16> = vec![0i16; n * DIMS_PADDED];
    let mut labels: Vec<u8> = vec![0u8; n];
    let mut pos: Vec<u32> = vec![0u32; NLIST];
    proof {
        assert forall|j: int| 0 <= j < n implies 0 <= #[trigger] list[j] by {
            law_every_place_holds_one_vector(cells, j);
        }
    }
    let mut i: usize = 0;
    while i < n
        invariant
            0 <= i <= n,
            n == cells.len(),
            cells == assigned@,
            list == grouped(cells, NLIST as nat),
            list.len() == n,
            n * DIMS_PADDED <= usize::MAX,
            n <= u32::MAX,
            has_vectors(*dataset, n as nat),
            forall|e: int| 0 <= e < n ==> #[trigger] dataset.has_label(e),
            valid_cells(cells),
            offsets@ == cell_table(cells),
            vectors@.len() == 16 * n,
            labels@.len() == n,
            pos@.len() == NLIST,
            forall|c: int|
                0 <= c < NLIST ==> #[trigger] pos@[c] == in_cell(cells.take(i as int), c).len(),
            forall|j: int|
                0 <= j < n && #[trigger] list[j] < i ==> placed(
                    vectors@,
                    j,
                    dataset.vector(list[j]),
                ) && labels@[j] == grouped_labels(*dataset, cells)[j],
            forall|x: int|
                0 <= x < 16 * n && list[x / 16] >= i ==> #[trigger] vectors@[x] == 0,
        decreases n - i,
    {
        let cell: usize = assigned[i] as usize;
        let ghost at = destination(cells, i as int);
        proof {
            assert(cells[i as int] < NLIST);
            law_every_vector_is_grouped(cells, i as int);
            lemma_in_cell_length(cells.take(i as int), cell as int);
            assert(offsets@[cell as int] == cells_below(cells, cell as nat)) by {
                law_cells_hold_all(cells);
                assert(cells_below(cells, cell as nat) <= cells.len());
            }
            assert(dataset.has_vector(i as int) && dataset.has_label(i as int));
        }
        let dest: usize = (offsets[cell] + pos[cell]) as usize;
        assert(dest == at);
        let ghost pos_before = pos@;
        pos[cell] = pos[cell] + 1;
        let ghost vectors_before = vectors@;
        let ghost labels_before = labels@;
        proof {
            assert forall|x: int| 16 * dest <= x < 16 * dest + 16 implies #[trigger] vectors@[x]
                == 0 by {
                assert(x / 16 == dest);
            }
        }
        place(&mut vectors, dest, dataset.vector_at(i));
        labels[dest] = if dataset.label_at(i) == ReferenceLabel::Fraud {
            1
        } else {
            0
        };
        proof {
            assert forall|c: int| 0 <= c < NLIST implies #[trigger] pos@[c] == in_cell(
                cells.take(i + 1),
                c,
            ).len() by {
                lemma_in_cell_push(cells, i as int, c);
                assert(pos_before[c] == in_cell(cells.take(i as int), c).len());
            }
            assert forall|j: int| 0 <= j < n && #[trigger] list[j] < i + 1 implies placed(
                vectors@,
                j,
                dataset.vector(list[j]),
            ) && labels@[j] == grouped_labels(*dataset, cells)[j] by {
                law_every_place_holds_one_vector(cells, j);
                if j != dest {
                    assert(list[j] != i);
                    assert(placed(vectors_before, j, dataset.vector(list[j])));
                    let v = dataset.vector(list[j]);
                    assert forall|d: int| 0 <= d < DIMS_PADDED implies vectors@[16 * j + d]
                        == #[trigger] padded(v)[d] by {
                        assert(vectors@[16 * j + d] == vectors_before[16 * j + d]);
                    }
                }
            }
            assert forall|x: int|
                0 <= x < 16 * n && list[x / 16] >= i + 1 implies #[trigger] vectors@[x] == 0 by {
                if 16 * dest <= x < 16 * dest + 16 {
                    assert(x / 16 == dest);
                }
                assert(vectors@[x] == vectors_before[x]);
            }
        }
        i = i + 1;
    }
    proof {
        let want = padded_values(grouped_vectors(*dataset, cells));
        assert forall|x: int| 0 <= x < 16 * n implies #[trigger] vectors@[x] == want[x] by {
            let j = x / 16;
            let d = x % 16;
            law_every_place_holds_one_vector(cells, j);
            assert(list[j] < n);
            assert(placed(vectors@, j, dataset.vector(list[j])));
            assert(vectors@[16 * j + d] == padded(dataset.vector(list[j]))[d]);
        }
        assert(vectors@ =~= want);
        assert forall|j: int| 0 <= j < n implies #[trigger] labels@[j] == grouped_labels(
            *dataset,
            cells,
        )[j] by {
            law_every_place_holds_one_vector(cells, j);
            assert(list[j] < n);
        }
        assert(labels@ =~= grouped_labels(*dataset, cells));
    }
    (vectors, labels)
}

/// The centroids, each padded, one after the other.
fn pad_centroids(
    list: &Vec<[i16; VECTOR_DIMENSIONS]>,
    Ghost(centroids): Ghost<Seq<Seq<i16>>>,
) -> (out: Vec<i16>)
    requires
        stands_for(list@, centroids),
    ensures
        out@ == padded_values(centroids),
{
    let mut out: Vec<i16> = Vec::new();
    let mut c: usize = 0;
    while c < NLIST
        invariant
            0 <= c <= NLIST,
            stands_for(list@, centroids),
            out@ == padded_values(centroids.take(c as int)),
        decreases NLIST - c,
    {
        let ghost before = out@;
        assert(list@[c as int]@ == centroids[c as int]);
        out.extend_from_slice(list[c].as_slice());
        out.push(0);
        out.push(0);
        proof {
            let more = padded_values(centroids.take(c + 1));
            assert forall|x: int| 0 <= x < more.len() implies #[trigger] out@[x] == more[x] by {
                if x < 16 * c {
                    assert(out@[x] == before[x]);
                } else {
                    assert(x / 16 == c && x % 16 == x - 16 * c);
                }
            }
            assert(out@ =~= more);
        }
        c = c + 1;
    }
    assert(centroids.take(NLIST as int) =~= centroids);
    out
}

/// The vectors and labels that the description counts are there, and can be numbered.
pub open spec fn indexable(dataset: LoadedDataset) -> bool {
    let n = dataset.meta.total_vectors as usize;
    &&& has_vectors(dataset, n as nat)
    &&& forall|i: int| 0 <= i < n ==> #[trigger] dataset.has_label(i)
    &&& n <= u32::MAX
    &&& n * DIMS_PADDED <= usize::MAX
}

/// Whether the vectors and labels that the description counts are there, and can be
/// numbered.
pub fn is_indexable(dataset: &LoadedDataset) -> (fits: bool)
    ensures
        fits == indexable(*dataset),
{
    let n: usize = dataset.total_vectors();
    if n as u64 > u32::MAX as u64 || n > usize::MAX / DIMS_PADDED {
        return false;
    }
    let held: usize = dataset.vectors_i16.len() / VECTOR_DIMENSIONS;
    if held == 0 || held < n {
        proof {
            assert(held < n ==> !dataset.has_vector(n - 1));
            assert(held == 0 ==> !dataset.has_vector(0));
        }
        return false;
    }
    let mut i: usize = 0;
    while i < n
        invariant
            0 <= i <= n,
            n == dataset.meta.total_vectors as usize,
            forall|j: int| 0 <= j < i ==> #[trigger] dataset.has_label(j),
        decreases n - i,
    {
        if i >= dataset.labels.len() || dataset.labels[i] > 1 {
            assert(!dataset.has_label(i as int));
            return false;
        }
        i = i + 1;
    }
    true
}

/// Builds the index over a data set: five rounds of k-means from evenly spaced vectors,
/// then the vectors and labels grouped by the cell that they were last assigned to.
pub fn build_ivf(dataset: &LoadedDataset) -> (files: IvfFiles)
    requires
        indexable(*dataset),
    ensures
        ({
            let n = dataset.meta.total_vectors as usize as nat;
            let assigned = final_assignment(*dataset, n);
            &&& files.centroids@ == le_i16s(
                padded_values(refined(*dataset, n, KMEANS_ITERS as nat)),
            )
            &&& files.vectors@ == le_i16s(padded_values(grouped_vectors(*dataset, assigned)))
            &&& files.labels@ == grouped_labels(*dataset, assigned)
            &&& files.offsets@ == le_u32s(cell_table(assigned))
        }),
{
    let n: usize = dataset.total_vectors();
    let mut list = init_centroids(dataset, n);
    let ghost mut centroids = first_centroids(*dataset, n as nat);
    let mut assigned: Vec<u16> = Vec::new();
    let mut round: usize = 0;
    while round < KMEANS_ITERS
        invariant
            0 <= round <= KMEANS_ITERS,
            n <= u32::MAX,
            has_vectors(*dataset, n as nat),
            centroids == refined(*dataset, n as nat, round as nat),
            stands_for(list@, centroids),
            round > 0 ==> valid_cells(assigned@) && assigned@ == assignment(
                *dataset,
                n as nat,
                refined(*dataset, n as nat, (round - 1) as nat),
            ),
        decreases KMEANS_ITERS - round,
    {
        assigned = assign_all(dataset, n, &list, Ghost(centroids));
        move_centroids(dataset, &assigned, &mut list, Ghost(centroids));
        proof {
            centroids = means(*dataset, assigned@, centroids);
        }
        round = round + 1;
    }
    let counts = cell_counts(&assigned);
    let offsets = cell_starts(&counts, Ghost(assigned@));
    let (vectors, labels) = group_by_cell(dataset, &assigned, &offsets);
    let padded_centroids = pad_centroids(&list, Ghost(centroids));
    IvfFiles {
        centroids: encode_i16s(padded_centroids.as_slice()),
        vectors: encode_i16s(vectors.as_slice()),
        labels,
        offsets: encode_u32s(offsets.as_slice()),
    }
}

/// `index` is what the files built over the first `n` vectors load as.
pub open spec fn indexes(index: IvfIndex, dataset: LoadedDataset, n: nat) -> bool {
    let assigned = final_assignment(dataset, n);
    &&& index.centroid_values() == i16s_of(
        le_i16s(padded_values(refined(dataset, n, KMEANS_ITERS as nat))),
    )
    &&& index.vector_values() == i16s_of(
        le_i16s(padded_values(grouped_vectors(dataset, assigned))),
    )
    &&& index.label_file() == grouped_labels(dataset, assigned)
    &&& index.cell_offsets() == u32s_of(le_u32s(cell_table(assigned)))
}

proof fn lemma_refined_length(dataset: LoadedDataset, n: nat, rounds: nat)
    ensures
        refined(dataset, n, rounds).len() == NLIST,
{
}

proof fn lemma_assignment_valid(dataset: LoadedDataset, n: nat, centroids: Seq<Seq<i16>>)
    ensures
        valid_cells(assignment(dataset, n, centroids)),
{
    assert forall|i: int|
        0 <= i < n implies #[trigger] assignment(dataset, n, centroids)[i] < NLIST by {
        lemma_closest_bounds(centroids, dataset.vector(i), NLIST as nat);
    }
}

proof fn lemma_padded_row(vectors: Seq<Seq<i16>>, j: int)
    requires
        0 <= j < vectors.len(),
    ensures
        padded_row(padded_values(vectors), j) == padded(vectors[j]),
{
    let r = padded_row(padded_values(vectors), j);
    assert forall|d: int| 0 <= d < DIMS_PADDED implies r[d] == padded(vectors[j])[d] by {
        assert((16 * j + d) / 16 == j && (16 * j + d) % 16 == d);
    }
    assert(r =~= padded(vectors[j]));
}

/// The index that is built gives each vector back, padded, with its label, in the cell of
/// its nearest centroid of the last round.
#[verifier::rlimit(30)]
pub proof fn law_indexed_vectors_are_read(
    index: IvfIndex,
    dataset: LoadedDataset,
    n: nat,
    i: int,
)
    requires
        indexes(index, dataset, n),
        n <= u32::MAX,
        0 <= i < n,
    ensures
        ({
            let assigned = final_assignment(dataset, n);
            let at = destination(assigned, i);
            let cell = assigned[i] as int;
            &&& index.cell_offsets()[cell] <= at < index.cell_offsets()[cell + 1]
            &&& padded_row(index.vector_values(), at) == padded(dataset.vector(i))
            &&& index.label_file()[at] == if dataset.label(i) == ReferenceLabel::Fraud {
                1u8
            } else {
                0u8
            }
        }),
{
    let assigned = final_assignment(dataset, n);
    let vectors = grouped_vectors(dataset, assigned);
    let at = destination(assigned, i);
    let cell = assigned[i] as int;
    lemma_assignment_valid(dataset, n, refined(dataset, n, (KMEANS_ITERS - 1) as nat));
    law_cells_hold_all(assigned);
    law_every_vector_is_grouped(assigned, i);
    law_i16_file_round_trip(padded_values(vectors));
    law_u32_file_round_trip(cell_table(assigned));
    lemma_padded_row(vectors, at);
    assert(assigned[i] < NLIST);
    assert(cells_below(assigned, cell as nat) <= n && cells_below(assigned, (cell + 1) as nat) <= n);
    assert(index.cell_offsets()[cell] == cells_below(assigned, cell as nat));
    assert(index.cell_offsets()[cell + 1] == cells_below(assigned, (cell + 1) as nat));
}

/// The index that is built fits together, so that it answers every query.
#[verifier::rlimit(30)]
pub proof fn law_built_index_is_consistent(index: IvfIndex, dataset: LoadedDataset, n: nat)
    requires
        indexes(index, dataset, n),
        n <= u32::MAX,
    ensures
        index.consistent(),
        index.label_file().len() == n,
{
    let assigned = final_assignment(dataset, n);
    lemma_assignment_valid(dataset, n, refined(dataset, n, (KMEANS_ITERS - 1) as nat));
    assert(index.has_centroids()) by {
        let centroids = refined(dataset, n, KMEANS_ITERS as nat);
        lemma_refined_length(dataset, n, KMEANS_ITERS as nat);
        law_i16_file_round_trip(padded_values(centroids));
    }
    assert(index.cell_offsets() == cell_table(assigned)) by {
        law_u32_file_round_trip(cell_table(assigned));
    }
    assert(grouped(assigned, NLIST as nat).len() == n) by {
        law_cells_hold_all(assigned);
    }
    assert(index.vector_values().len() == 16 * n) by {
        law_i16_file_round_trip(padded_values(grouped_vectors(dataset, assigned)));
    }
    assert forall|c: int| 0 <= c < NLIST implies #[trigger] index.cell_fits(c) by {
        assert(cells_below(assigned, (c + 1) as nat) <= n) by {
            law_cells_hold_all(assigned);
        }
        assert(index.cell_offsets()[c + 1] == cells_below(assigned, (c + 1) as nat));
    }
}

/// The distance that a query computes to an indexed vector is that of the vectors
/// themselves.
pub proof fn law_indexed_distance_is_exact(
    index: IvfIndex,
    dataset: LoadedDataset,
    n: nat,
    i: int,
    query: Seq<i16>,
)
    requires
        indexes(index, dataset, n),
        n <= u32::MAX,
        0 <= i < n,
    ensures
        padded_l2(
            padded(query),
            padded_row(index.vector_values(), destination(final_assignment(dataset, n), i)),
        ) == squared_l2(query, dataset.vector(i)),
{
    law_indexed_vectors_are_read(index, dataset, n, i);
    law_padding_keeps_distance(query, dataset.vector(i));
}

/// A consistent data set whose description is in order can be indexed, if it holds a vector
/// and its vectors can be numbered.
pub proof fn law_consistent_data_is_indexable(dataset: LoadedDataset)
    requires
        dataset.consistent(),
        meta_problem(dataset.meta) is None,
        0 < dataset.meta.total_vectors <= u32::MAX,
        dataset.meta.total_vectors * DIMS_PADDED <= usize::MAX,
    ensures
        indexable(dataset),
{
    let n = dataset.meta.total_vectors as int;
    assert(dataset.partition_start(PARTITION_COUNT as int) == n);
    assert(14 * n <= dataset.vectors().len());
    assert forall|i: int| 0 <= i < n implies #[trigger] dataset.has_vector(i) by {}
    assert forall|i: int| 0 <= i < n implies #[trigger] dataset.has_label(i) by {
        assert(dataset.label_file()[i] <= 1);
    }
}

/// A vector whose cell is looked at is met, at its own distance.
pub proof fn law_vector_of_probed_cell_is_met(
    index: IvfIndex,
    dataset: LoadedDataset,
    n: nat,
    i: int,
    query: Seq<i16>,
    j: int,
)
    requires
        indexes(index, dataset, n),
        n <= u32::MAX,
        0 <= i < n,
        0 <= j < NPROBE,
        probed(index.centroid_values(), padded(query))[j] == final_assignment(dataset, n)[i],
    ensures
        met(
            index.vector_values(),
            index.cell_offsets(),
            padded(query),
            probed(index.centroid_values(), padded(query)),
            NPROBE as nat,
        ).contains(
            (
                squared_l2(query, dataset.vector(i)),
                destination(final_assignment(dataset, n), i) as u32,
            ),
        ),
{
    let assigned = final_assignment(dataset, n);
    let at = destination(assigned, i);
    let cells = probed(index.centroid_values(), padded(query));
    law_indexed_vectors_are_read(index, dataset, n, i);
    law_indexed_distance_is_exact(index, dataset, n, i, query);
    lemma_met_holds_span(
        index.vector_values(),
        index.cell_offsets(),
        padded(query),
        cells,
        NPROBE as nat,
        j,
        at,
    );
}

/// What lies in one of the cells is met.
proof fn lemma_met_holds_span(
    vectors: Seq<i16>,
    offsets: Seq<u32>,
    query: Seq<i16>,
    cells: Seq<u16>,
    count: nat,
    j: int,
    at: int,
)
    requires
        0 <= j < count,
        offsets[cells[j] as int] <= at < offsets[cells[j] + 1],
    ensures
        met(vectors, offsets, query, cells, count).contains(
            (padded_l2(query, padded_row(vectors, at)), at as u32),
        ),
    decreases count,
{
    let before = met(vectors, offsets, query, cells, (count - 1) as nat);
    let all = met(vectors, offsets, query, cells, count);
    let entry = (padded_l2(query, padded_row(vectors, at)), at as u32);
    if j < count - 1 {
        lemma_met_holds_span(vectors, offsets, query, cells, (count - 1) as nat, j, at);
        let a = choose|a: int| 0 <= a < before.len() && before[a] == entry;
        assert(all[a] == entry);
    } else {
        let from = offsets[cells[j] as int] as int;
        assert(all[before.len() + (at - from)] == entry);
    }
}

/// k-means starts from 4096 vectors that are spread evenly over the data set.
pub proof fn law_first_centroids_are_spread(dataset: LoadedDataset, n: nat, c: int)
    requires
        0 <= c < 4096,
    ensures
        first_centroids(dataset, n).len() == 4096,
        first_centroids(dataset, n)[c] == dataset.vector(c * (n as int / 4096)),
{
}

/// Every vector is assigned to the centroid at the least distance over all fourteen coordinates,
/// the first one where several are at that distance.
pub proof fn law_vectors_join_the_nearest_centroid(
    dataset: LoadedDataset,
    n: nat,
    centroids: Seq<Seq<i16>>,
    i: int,
)
    requires
        0 <= i < n,
        centroids.len() == 4096,
    ensures
        ({
            let distance = |x: Seq<i16>, y: Seq<i16>|
                (x[0] - y[0]) * (x[0] - y[0])
                    + (x[1] - y[1]) * (x[1] - y[1])
                    + (x[2] - y[2]) * (x[2] - y[2])
                    + (x[3] - y[3]) * (x[3] - y[3])
                    + (x[4] - y[4]) * (x[4] - y[4])
                    + (x[5] - y[5]) * (x[5] - y[5])
                    + (x[6] - y[6]) * (x[6] - y[6])
                    + (x[7] - y[7]) * (x[7] - y[7])
                    + (x[8] - y[8]) * (x[8] - y[8])
                    + (x[9] - y[9]) * (x[9] - y[9])
                    + (x[10] - y[10]) * (x[10] - y[10])
                    + (x[11] - y[11]) * (x[11] - y[11])
                    + (x[12] - y[12]) * (x[12] - y[12])
                    + (x[13] - y[13]) * (x[13] - y[13]);
            let v = dataset.vector(i);
            let cell = assignment(dataset, n, centroids)[i] as int;
            &&& assignment(dataset, n, centroids).len() == n
            &&& cell < 4096
            &&& forall|j: int|
                0 <= j < 4096 ==> distance(centroids[cell], v) <= distance(
                    #[trigger] centroids[j],
                    v,
                )
            &&& forall|j: int|
                0 <= j < cell ==> distance(centroids[cell], v) < distance(#[trigger] centroids[j], v)
        }),
{
    let v = dataset.vector(i);
    law_closest_is_nearest(centroids, v, 4096);
    let cell = assignment(dataset, n, centroids)[i] as int;
    assert(cell == closest(centroids, v, 4096));
    let distance = |x: Seq<i16>, y: Seq<i16>|
        (x[0] - y[0]) * (x[0] - y[0])
            + (x[1] - y[1]) * (x[1] - y[1])
            + (x[2] - y[2]) * (x[2] - y[2])
            + (x[3] - y[3]) * (x[3] - y[3])
            + (x[4] - y[4]) * (x[4] - y[4])
            + (x[5] - y[5]) * (x[5] - y[5])
            + (x[6] - y[6]) * (x[6] - y[6])
            + (x[7] - y[7]) * (x[7] - y[7])
            + (x[8] - y[8]) * (x[8] - y[8])
            + (x[9] - y[9]) * (x[9] - y[9])
            + (x[10] - y[10]) * (x[10] - y[10])
            + (x[11] - y[11]) * (x[11] - y[11])
            + (x[12] - y[12]) * (x[12] - y[12])
            + (x[13] - y[13]) * (x[13] - y[13]);
    assert forall|j: int| 0 <= j < 4096 implies distance(#[trigger] centroids[j], v) == squared_l2(
        centroids[j],
        v,
    ) by {
        law_distance_is_the_sum_of_squares(centroids[j], v);
    }
    law_distance_is_the_sum_of_squares(centroids[cell], v);
}

/// A cell lists the positions that are assigned to it, all of them, in rising order.
pub proof fn law_cell_lists_its_positions(assigned: Seq<u16>, c: int)
    ensures
        forall|i: int| #[trigger]
            in_cell(assigned, c).contains(i) <==> 0 <= i < assigned.len() && assigned[i] == c,
        forall|r: int, s: int|
            0 <= r < s < in_cell(assigned, c).len() ==> #[trigger] in_cell(assigned, c)[r]
                < #[trigger] in_cell(assigned, c)[s],
    decreases assigned.len(),
{
    let all = in_cell(assigned, c);
    if assigned.len() > 0 {
        let rest = assigned.drop_last();
        let less = in_cell(rest, c);
        let last = assigned.len() - 1;
        law_cell_lists_its_positions(rest, c);
        assert forall|r: int| 0 <= r < less.len() implies 0 <= #[trigger] less[r] < last by {
            assert(less.contains(less[r]));
        }
        assert forall|i: int| #[trigger] all.contains(i) <==> 0 <= i < assigned.len() && assigned[i]
            == c by {
            if all.contains(i) {
                let r = choose|r: int| 0 <= r < all.len() && all[r] == i;
                if r < less.len() {
                    assert(less[r] == i);
                    assert(less.contains(i));
                }
            }
            if 0 <= i < assigned.len() && assigned[i] == c {
                if i < last {
                    assert(rest[i] == c);
                    assert(less.contains(i));
                    let r = choose|r: int| 0 <= r < less.len() && less[r] == i;
                    assert(all[r] == i);
                } else {
                    assert(all[all.len() - 1] == i);
                }
            }
        }
    }
}

proof fn lemma_cell_sum_adds_up(dataset: LoadedDataset, assigned: Seq<u16>, c: int, d: int)
    ensures
        cell_sum(dataset, assigned, c, d) == in_cell(assigned, c).fold_left(
            0,
            |sum: int, i: int| sum + dataset.vector(i)[d],
        ),
    decreases assigned.len(),
{
    if assigned.len() > 0 {
        let rest = assigned.drop_last();
        lemma_cell_sum_adds_up(dataset, rest, c, d);
        if assigned.last() == c {
            assert(in_cell(assigned, c).drop_last() =~= in_cell(rest, c));
        }
    }
}

/// A centroid moves to the mean of the vectors of its cell: in each coordinate, to the quotient of
/// their sum and their number without what lies behind the point. Without vectors it stays.
pub proof fn law_centroids_move_to_the_mean(
    dataset: LoadedDataset,
    assigned: Seq<u16>,
    centroids: Seq<Seq<i16>>,
    c: int,
    d: int,
)
    requires
        0 <= c < 4096,
        0 <= d < 14,
    ensures
        ({
            let list = in_cell(assigned, c);
            let count = list.len();
            let sum = list.fold_left(0, |sum: int, i: int| sum + dataset.vector(i)[d]);
            let moved = means(dataset, assigned, centroids);
            let mean = moved[c][d] as int;
            &&& moved.len() == 4096
            &&& count == 0 ==> moved[c] == centroids[c]
            &&& count > 0 ==> moved[c].len() == 14
            &&& count > 0 && sum >= 0 ==> 0 <= mean && mean * count <= sum < (mean + 1) * count
            &&& count > 0 && sum < 0 ==> mean <= 0 && (mean - 1) * count < sum <= mean * count
        }),
{
    let count = in_cell(assigned, c).len() as int;
    let sum = cell_sum(dataset, assigned, c, d);
    lemma_cell_sum_adds_up(dataset, assigned, c, d);
    lemma_cell_sum_bounds(dataset, assigned, c, d);
    if count > 0 {
        lemma_mean_bounds(sum, count);
        let mean = means(dataset, assigned, centroids)[c][d] as int;
        assert(mean == toward_zero(sum, count));
        if sum >= 0 {
            assert(0 <= mean && mean * count <= sum < (mean + 1) * count) by (nonlinear_arith)
                requires
                    mean == sum / count,
                    count > 0,
                    sum >= 0,
            ;
        } else {
            assert(mean <= 0 && (mean - 1) * count < sum <= mean * count) by (nonlinear_arith)
                requires
                    mean == -((-sum) / count),
                    count > 0,
                    sum < 0,
            ;
        }
    }
}

/// Five rounds are made. Each assigns the vectors to the centroids that it starts with, and moves
/// these to the means; the vectors stay where the fifth round has put them.
pub proof fn law_five_rounds_are_made(dataset: LoadedDataset, n: nat, round: nat)
    ensures
        KMEANS_ITERS == 5,
        refined(dataset, n, 0) == first_centroids(dataset, n),
        refined(dataset, n, round + 1) == means(
            dataset,
            assignment(dataset, n, refined(dataset, n, round)),
            refined(dataset, n, round),
        ),
        final_assignment(dataset, n) == assignment(dataset, n, refined(dataset, n, 4)),
{
}

/// A cell starts behind all vectors of lesser cells.
pub proof fn law_cell_starts_behind_lesser_cells(assigned: Seq<u16>, c: nat)
    requires
        c <= 4096,
        assigned.len() <= u32::MAX,
    ensures
        cell_table(assigned).len() == 4097,
        cell_table(assigned)[c as int] == assigned.filter(|cell: u16| cell < c).len(),
{
    lemma_cells_below_are_counted(assigned, c);
    lemma_cells_below_counts(assigned, assigned.len() as int, c);
    assert(assigned.take(assigned.len() as int) =~= assigned);
}

proof fn lemma_cells_below_are_counted(assigned: Seq<u16>, c: nat)
    ensures
        cells_below(assigned, c) == assigned.filter(|cell: u16| cell < c).len(),
    decreases assigned.len(),
{
    reveal(Seq::filter);
    if assigned.len() > 0 {
        let last = assigned.len() - 1;
        lemma_cells_below_are_counted(assigned.drop_last(), c);
        lemma_cells_below_push(assigned, last, c);
        assert(assigned.take(last + 1) =~= assigned);
        assert(assigned.take(last) =~= assigned.drop_last());
    } else {
        lemma_no_cells_below(assigned, c);
    }
}

proof fn lemma_grouped_in_order(assigned: Seq<u16>, count: nat)
    ensures
        forall|j: int|
            0 <= j < grouped(assigned, count).len() ==> 0 <= #[trigger] grouped(assigned, count)[j]
                < assigned.len() && assigned[grouped(assigned, count)[j]] < count,
        forall|j: int, k: int|
            0 <= j < k < grouped(assigned, count).len() ==> {
                let one = #[trigger] grouped(assigned, count)[j];
                let other = #[trigger] grouped(assigned, count)[k];
                ||| assigned[one] < assigned[other]
                ||| assigned[one] == assigned[other] && one < other
            },
    decreases count,
{
    if count > 0 {
        let less = grouped(assigned, (count - 1) as nat);
        let cell = in_cell(assigned, count - 1);
        lemma_grouped_in_order(assigned, (count - 1) as nat);
        law_cell_lists_its_positions(assigned, count - 1);
        assert forall|r: int| 0 <= r < cell.len() implies 0 <= #[trigger] cell[r] < assigned.len()
            && assigned[cell[r]] == count - 1 by {
            assert(cell.contains(cell[r]));
        }
        let all = grouped(assigned, count);
        assert(all == less + cell);
    }
}

/// The index holds the vectors cell by cell, each cell in the order of the data set: `list` tells,
/// place by place, which vector stands there. Each takes sixteen numbers, the last two of them
/// zero, and one byte, which is 1 for a fraud.
pub proof fn law_index_is_laid_out_by_cell(dataset: LoadedDataset, n: nat) -> (list: Seq<int>)
    ensures
        ({
            let cells = final_assignment(dataset, n);
            let values = padded_values(grouped_vectors(dataset, cells));
            let labels = grouped_labels(dataset, cells);
            &&& list.len() == n
            &&& values.len() == 16 * n
            &&& labels.len() == n
            &&& forall|j: int| 0 <= j < n ==> 0 <= #[trigger] list[j] < n
            &&& forall|j: int, k: int|
                0 <= j < k < n ==> {
                    ||| cells[#[trigger] list[j]] < cells[#[trigger] list[k]]
                    ||| cells[list[j]] == cells[list[k]] && list[j] < list[k]
                }
            &&& forall|i: int|
                0 <= i < 16 * n ==> #[trigger] values[i] == if i % 16 < 14 {
                    dataset.vector(list[i / 16])[i % 16]
                } else {
                    0i16
                }
            &&& forall|j: int|
                0 <= j < n ==> #[trigger] labels[j] == if dataset.label(list[j])
                    == ReferenceLabel::Fraud {
                    1u8
                } else {
                    0u8
                }
        }),
{
    let cells = final_assignment(dataset, n);
    let list = grouped(cells, NLIST as nat);
    let vectors = grouped_vectors(dataset, cells);
    let values = padded_values(vectors);
    lemma_assignment_valid(dataset, n, refined(dataset, n, 4));
    law_cells_hold_all(cells);
    lemma_grouped_in_order(cells, NLIST as nat);
    list
}

/// The centroids are stored like the vectors: 4096 times sixteen numbers, the last two of them
/// zero.
pub proof fn law_centroids_are_stored_in_order(dataset: LoadedDataset, n: nat, i: int)
    requires
        0 <= i < 65536,
    ensures
        ({
            let centroids = refined(dataset, n, 5);
            let values = padded_values(centroids);
            &&& centroids.len() == 4096
            &&& values.len() == 65536
            &&& values[i] == if i % 16 < 14 {
                centroids[i / 16][i % 16]
            } else {
                0i16
            }
        }),
{
    lemma_refined_length(dataset, n, 5);
}

/// A data set can be indexed exactly if it holds a vector, and the vectors and labels that it
/// counts, and these can be numbered.
pub proof fn law_indexable_data_is_complete(dataset: LoadedDataset)
    requires
        dataset.meta.total_vectors <= usize::MAX,
    ensures
        ({
            let n = dataset.meta.total_vectors as int;
            indexable(dataset) <==> {
                &&& dataset.vectors().len() >= 14
                &&& dataset.vectors().len() >= 14 * n
                &&& dataset.label_file().len() >= n
                &&& forall|i: int| 0 <= i < n ==> #[trigger] dataset.label_file()[i] <= 1
                &&& n <= 4294967295
                &&& 16 * n <= usize::MAX
            }
        }),
{
    let n = dataset.meta.total_vectors as int;
    if indexable(dataset) {
        assert(dataset.has_vector(0));
        if n > 0 {
            assert(dataset.has_vector(n - 1));
            assert(dataset.has_label(n - 1));
        }
        assert forall|i: int| 0 <= i < n implies #[trigger] dataset.label_file()[i] <= 1 by {
            assert(dataset.has_label(i));
        }
    }
}

} // verus!
