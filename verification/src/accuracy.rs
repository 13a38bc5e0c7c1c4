//! Comparing the index with an exhaustive search.

use vstd::prelude::*;

use crate::dataset::{LoadedDataset, ReferenceLabel};
use crate::distance::{
    law_distance_is_the_sum_of_squares, squared_l2, squared_l2_i16, VECTOR_DIMENSIONS,
};
use crate::ivf::{
    frauds_among, law_consistent_index_answers, law_votes_count_every_fraud, IvfIndex,
};
use crate::ivf_build::indexable;
use crate::nearest::{
    backed, keep_nearest, keyed, law_nearest_are_picked_in_order, lemma_backed_admit,
    lemma_nearest_push, lemma_nearest_sorted, lemma_slot_bounds, nearest_k,
};
use crate::topk::NEIGHBOURS;

verus! {

/// The fraud votes from which on a query counts as a fraud.
pub const FRAUD_DECISION: usize = 3;

/// A vector as the exhaustive search sees it: its distance, and 1 for a fraud.
pub open spec fn entry(dataset: LoadedDataset, query: Seq<i16>, i: int) -> (int, u8) {
    (
        squared_l2(query, dataset.vector(i)),
        if dataset.label(i) == ReferenceLabel::Fraud {
            1u8
        } else {
            0u8
        },
    )
}

/// The first `n` vectors, as the exhaustive search sees them.
pub open spec fn entries(dataset: LoadedDataset, query: Seq<i16>, n: nat) -> Seq<(int, u8)> {
    Seq::new(n, |i: int| entry(dataset, query, i))
}

/// The place of a neighbour that was not found.
pub open spec fn nobody() -> (int, u8) {
    (i64::MAX as int, 0u8)
}

/// The vector at position `i` comes among the nearest when it is looked at.
pub open spec fn enters(dataset: LoadedDataset, query: Seq<i16>, i: int) -> bool {
    squared_l2(query, dataset.vector(i)) < backed(
        nearest_k(entries(dataset, query, i as nat), NEIGHBOURS as nat),
        nobody(),
        NEIGHBOURS as nat,
    ).last().0
}

proof fn lemma_distances_are_near(dataset: LoadedDataset, query: Seq<i16>, n: nat)
    requires
        forall|i: int| 0 <= i < n ==> squared_l2(query, #[trigger] dataset.vector(i)) < i64::MAX,
    ensures
        forall|a: int|
            0 <= a < nearest_k(entries(dataset, query, n), NEIGHBOURS as nat).len() ==> (
            #[trigger] nearest_k(entries(dataset, query, n), NEIGHBOURS as nat)[a]).0 < i64::MAX,
    decreases n,
{
    if n > 0 {
        let prev = entries(dataset, query, (n - 1) as nat);
        lemma_distances_are_near(dataset, query, (n - 1) as nat);
        assert(entries(dataset, query, n) =~= prev.push(entry(dataset, query, n - 1)));
        lemma_nearest_push(prev, entry(dataset, query, n - 1), NEIGHBOURS as nat);
        lemma_nearest_sorted(prev, NEIGHBOURS as nat);
        let s = nearest_k(prev, NEIGHBOURS as nat);
        lemma_slot_bounds(s, entry(dataset, query, n - 1).0);
        assert(squared_l2(query, dataset.vector(n - 1)) < i64::MAX);
    }
}

/// The five nearest among the first `n` vectors: distance, and 1 for a fraud. Where there
/// are fewer, the rest are at the greatest distance, with 0.
#[verifier::rlimit(30)]
pub fn brute_force_top5(
    dataset: &LoadedDataset,
    query: &[i16; VECTOR_DIMENSIONS],
    n: usize,
) -> (top: Vec<(i64, u8)>)
    requires
        forall|i: int|
            0 <= i < n ==> #[trigger] dataset.has_vector(i) && (enters(*dataset, query@, i)
                ==> dataset.has_label(i)),
    ensures
        keyed(top@) == backed(
            nearest_k(entries(*dataset, query@, n as nat), NEIGHBOURS as nat),
            nobody(),
            NEIGHBOURS as nat,
        ),
{
    let mut top: Vec<(i64, u8)> = Vec::new();
    top.push((i64::MAX, 0));
    top.push((i64::MAX, 0));
    top.push((i64::MAX, 0));
    top.push((i64::MAX, 0));
    top.push((i64::MAX, 0));
    let ghost k = NEIGHBOURS as nat;
    proof {
        assert(entries(*dataset, query@, 0) =~= Seq::empty());
        assert(keyed(top@) =~= backed(Seq::empty(), nobody(), k));
    }
    let mut i: usize = 0;
    while i < n
        invariant
            0 <= i <= n,
            k == NEIGHBOURS,
            forall|j: int|
                0 <= j < n ==> #[trigger] dataset.has_vector(j) && (enters(*dataset, query@, j)
                    ==> dataset.has_label(j)),
            forall|j: int|
                0 <= j < i ==> squared_l2(query@, #[trigger] dataset.vector(j)) < i64::MAX,
            keyed(top@) == backed(
                nearest_k(entries(*dataset, query@, i as nat), k),
                nobody(),
                k,
            ),
            top@.len() == NEIGHBOURS,
        decreases n - i,
    {
        assert(dataset.has_vector(i as int));
        let dist: i64 = squared_l2_i16(query, dataset.vector_at(i));
        let ghost prev = entries(*dataset, query@, i as nat);
        let ghost s = nearest_k(prev, k);
        proof {
            let e = entry(*dataset, query@, i as int);
            lemma_nearest_sorted(prev, k);
            lemma_distances_are_near(*dataset, query@, i as nat);
            lemma_backed_admit(s, e, nobody(), k);
            lemma_nearest_push(prev, e, k);
            assert(entries(*dataset, query@, (i + 1) as nat) =~= prev.push(e));
            assert(keyed(top@).last() == keyed(top@)[4]);
        }
        if dist < top[4].0 {
            let label: u8 = if dataset.label_at(i) == ReferenceLabel::Fraud {
                1
            } else {
                0
            };
            keep_nearest(&mut top, (dist, label));
        }
        i = i + 1;
    }
    top
}

/// How many of the neighbours are frauds.
pub open spec fn fraud_ones(top: Seq<(int, u8)>) -> nat
    decreases top.len(),
{
    if top.len() == 0 {
        0
    } else {
        fraud_ones(top.drop_last()) + if top.last().1 == 1 {
            1nat
        } else {
            0nat
        }
    }
}

/// How many of the neighbours are frauds.
pub fn count_frauds(top: &[(i64, u8)]) -> (votes: usize)
    ensures
        votes == fraud_ones(keyed(top@)),
        votes <= top@.len(),
{
    let ghost list = keyed(top@);
    let mut votes: usize = 0;
    let mut i: usize = 0;
    while i < top.len()
        invariant
            0 <= i <= top@.len(),
            list == keyed(top@),
            votes == fraud_ones(list.take(i as int)),
            votes <= i,
        decreases top@.len() - i,
    {
        assert(list.take(i + 1).drop_last() =~= list.take(i as int));
        if top[i].1 == 1 {
            votes = votes + 1;
        }
        i = i + 1;
    }
    assert(list.take(list.len() as int) =~= list);
    votes
}

/// How many of the five nearest of the first `n` vectors are frauds.
pub open spec fn exact_votes(dataset: LoadedDataset, query: Seq<i16>, n: nat) -> nat {
    fraud_ones(
        backed(
            nearest_k(entries(dataset, query, n), NEIGHBOURS as nat),
            nobody(),
            NEIGHBOURS as nat,
        ),
    )
}

/// What a comparison has counted so far.
#[derive(Debug, Clone, Copy, PartialEq, Eq, Structural)]
pub struct Tally {
    /// Queries compared.
    pub queries: usize,
    /// Queries with the same number of fraud votes.
    pub equal_votes: usize,
    /// Queries that were decided differently.
    pub mismatches: usize,
    /// Fraud votes of the exhaustive search.
    pub exact_votes: usize,
    /// Fraud votes of the index.
    pub index_votes: usize,
}

impl Tally {
    pub fn new() -> (tally: Self)
        ensures
            tally == (Tally {
                queries: 0,
                equal_votes: 0,
                mismatches: 0,
                exact_votes: 0,
                index_votes: 0,
            }),
    {
        Tally { queries: 0, equal_votes: 0, mismatches: 0, exact_votes: 0, index_votes: 0 }
    }

    /// No count exceeds the number of queries, nor the votes five for each.
    pub open spec fn wf(self) -> bool {
        &&& self.equal_votes + self.mismatches <= self.queries
        &&& self.exact_votes <= NEIGHBOURS * self.queries
        &&& self.index_votes <= NEIGHBOURS * self.queries
    }

    /// The counts with one more query.
    pub open spec fn with_query(self, exact: int, index: int) -> Tally {
        Tally {
            queries: (self.queries + 1) as usize,
            equal_votes: (self.equal_votes + if exact == index {
                1int
            } else {
                0
            }) as usize,
            mismatches: (self.mismatches + if (exact >= FRAUD_DECISION) != (index
                >= FRAUD_DECISION) {
                1int
            } else {
                0
            }) as usize,
            exact_votes: (self.exact_votes + exact) as usize,
            index_votes: (self.index_votes + index) as usize,
        }
    }

    /// Counts one query.
    pub fn record(&mut self, exact: usize, index: usize)
        requires
            old(self).wf(),
            exact <= NEIGHBOURS,
            index <= NEIGHBOURS,
            NEIGHBOURS * (old(self).queries + 1) <= usize::MAX,
        ensures
            final(self).wf(),
            *final(self) == old(self).with_query(exact as int, index as int),
            final(self).queries == old(self).queries + 1,
            final(self).exact_votes == old(self).exact_votes + exact,
            final(self).index_votes == old(self).index_votes + index,
            final(self).equal_votes == old(self).equal_votes + if exact == index {
                1int
            } else {
                0
            },
            final(self).mismatches == old(self).mismatches + if (exact >= FRAUD_DECISION) != (index
                >= FRAUD_DECISION) {
                1int
            } else {
                0
            },
            final(self).mismatches == old(self).mismatches + if exact < 3 && index >= 3 || exact
                >= 3 && index < 3 {
                1int
            } else {
                0
            },
    {
        self.queries = self.queries + 1;
        self.exact_votes = self.exact_votes + exact;
        self.index_votes = self.index_votes + index;
        if exact >= FRAUD_DECISION && index < FRAUD_DECISION {
            self.mismatches = self.mismatches + 1;
        } else if exact < FRAUD_DECISION && index >= FRAUD_DECISION {
            self.mismatches = self.mismatches + 1;
        }
        if exact == index {
            self.equal_votes = self.equal_votes + 1;
        }
    }
}

/// The position of the query numbered `number` in a data set of which every `step`-th
/// vector is asked for; shifted, so that the vectors that cells start from are not used.
pub fn sample_position(number: usize, step: usize) -> (position: usize)
    requires
        number * step + 7 <= usize::MAX,
    ensures
        position == number * step + 7,
{
    number * step + 7
}

/// The position of the query numbered `number`, of `queries` that are spread over `n` vectors.
pub open spec fn position_of(number: int, n: int, queries: int) -> int {
    number * (n / queries) + 7
}

/// Some query lies outside of the `n` vectors.
pub open spec fn some_position_outside(n: int, queries: int) -> bool {
    exists|number: int| 0 <= number < queries && #[trigger] position_of(number, n, queries) >= n
}

/// The counts of the first `number` of `queries` queries over the first `n` vectors.
pub open spec fn tally_of(
    dataset: LoadedDataset,
    index: IvfIndex,
    n: nat,
    queries: int,
    number: nat,
) -> Tally
    decreases number,
{
    if number == 0 {
        Tally { queries: 0, equal_votes: 0, mismatches: 0, exact_votes: 0, index_votes: 0 }
    } else {
        let query = dataset.vector(position_of(number - 1, n as int, queries));
        tally_of(dataset, index, n, queries, (number - 1) as nat).with_query(
            exact_votes(dataset, query, n) as int,
            frauds_among(index.label_file(), index.neighbours(query)) as int,
        )
    }
}

/// Compares the index with the exhaustive search on `queries` vectors of the data set, spread
/// evenly over it; nothing where one of them lies outside of the data set.
pub fn compare(dataset: &LoadedDataset, index: &IvfIndex, queries: usize) -> (tally: Option<Tally>)
    requires
        indexable(*dataset),
        index.consistent(),
        0 < queries,
        NEIGHBOURS * queries <= usize::MAX,
    ensures
        ({
            let n = dataset.meta.total_vectors as usize;
            match tally {
                Some(counts) => !some_position_outside(n as int, queries as int) && counts
                    == tally_of(*dataset, *index, n as nat, queries as int, queries as nat),
                None => some_position_outside(n as int, queries as int),
            }
        }),
        tally matches Some(counts) ==> {
            let n = dataset.meta.total_vectors as usize as int;
            let query = |q: int|
                dataset.vectors_i16@.subrange(
                    14 * (q * (n / queries as int) + 7),
                    14 * (q * (n / queries as int) + 7) + 14,
                );
            let exact = |q: int| exact_votes(*dataset, query(q), n as nat) as int;
            let indexed = |q: int|
                index.neighbours(query(q)).filter(
                    |e: (int, u32)| index.label_file()[e.1 as int] == 1,
                ).len() as int;
            &&& counts.queries == queries
            &&& counts.exact_votes == Seq::new(queries as nat, exact).fold_left(
                0int,
                |sum: int, v: int| sum + v,
            )
            &&& counts.index_votes == Seq::new(queries as nat, indexed).fold_left(
                0int,
                |sum: int, v: int| sum + v,
            )
            &&& counts.equal_votes == Seq::new(queries as nat, |q: int| q).filter(
                |q: int| exact(q) == indexed(q),
            ).len()
            &&& counts.mismatches == Seq::new(queries as nat, |q: int| q).filter(
                |q: int| exact(q) >= 3 && indexed(q) < 3 || exact(q) < 3 && indexed(q) >= 3,
            ).len()
        },
{
    let n: usize = dataset.total_vectors();
    let step: usize = n / queries;
    let mut tally = Tally::new();
    let mut number: usize = 0;
    while number < queries
        invariant
            0 <= number <= queries,
            0 < queries,
            NEIGHBOURS * queries <= usize::MAX,
            n == dataset.meta.total_vectors as usize,
            step == n / queries,
            indexable(*dataset),
            index.consistent(),
            tally.wf(),
            tally.queries == number,
            tally == tally_of(*dataset, *index, n as nat, queries as int, number as nat),
            forall|k: int|
                0 <= k < number ==> #[trigger] position_of(k, n as int, queries as int) < n,
        decreases queries - number,
    {
        assert(0 <= number * step <= n) by (nonlinear_arith)
            requires
                step == n / queries,
                0 <= number < queries,
                0 <= n,
        ;
        let position: usize = sample_position(number, step);
        assert(position == position_of(number as int, n as int, queries as int));
        if position >= n {
            return None;
        }
        assert(dataset.has_vector(position as int));
        let v = dataset.vector_at(position);
        let mut query: [i16; VECTOR_DIMENSIONS] = [0i16; VECTOR_DIMENSIONS];
        let mut d: usize = 0;
        while d < VECTOR_DIMENSIONS
            invariant
                0 <= d <= VECTOR_DIMENSIONS,
                v@.len() == VECTOR_DIMENSIONS,
                forall|e: int| 0 <= e < d ==> #[trigger] query@[e] == v@[e],
            decreases VECTOR_DIMENSIONS - d,
        {
            query[d] = v[d];
            d = d + 1;
        }
        assert(query@ =~= v@);
        proof {
            law_consistent_index_answers(*index, query@);
            assert forall|i: int| 0 <= i < n implies #[trigger] dataset.has_vector(i)
                && dataset.has_label(i) by {
                assert(dataset.has_label(i));
            }
        }
        let top = brute_force_top5(dataset, &query, n);
        proof {
            lemma_nearest_sorted(entries(*dataset, query@, n as nat), NEIGHBOURS as nat);
            assert(keyed(top@).len() == NEIGHBOURS);
        }
        let exact: usize = count_frauds(top.as_slice());
        tally.record(exact, index.fraud_votes(&query));
        number = number + 1;
    }
    proof {
        law_comparison_counts_every_query(
            *dataset,
            *index,
            n as nat,
            queries as int,
            queries as nat,
        );
    }
    Some(tally)
}

/// The exhaustive search sees every vector with the sum of the squares of its fourteen
/// differences from the query, and with 1 exactly if its label is not that of a legit one.
pub proof fn law_exhaustive_search_sees_every_vector(
    dataset: LoadedDataset,
    query: Seq<i16>,
    n: nat,
    i: int,
)
    requires
        0 <= i < n,
        14 * i + 14 <= dataset.vectors_i16@.len(),
    ensures
        ({
            let vectors = dataset.vectors_i16@;
            &&& entries(dataset, query, n).len() == n
            &&& entries(dataset, query, n)[i].0 == (query[0] - vectors[14 * i]) * (query[0] - vectors[14 * i])
                + (query[1] - vectors[14 * i + 1]) * (query[1] - vectors[14 * i + 1])
                + (query[2] - vectors[14 * i + 2]) * (query[2] - vectors[14 * i + 2])
                + (query[3] - vectors[14 * i + 3]) * (query[3] - vectors[14 * i + 3])
                + (query[4] - vectors[14 * i + 4]) * (query[4] - vectors[14 * i + 4])
                + (query[5] - vectors[14 * i + 5]) * (query[5] - vectors[14 * i + 5])
                + (query[6] - vectors[14 * i + 6]) * (query[6] - vectors[14 * i + 6])
                + (query[7] - vectors[14 * i + 7]) * (query[7] - vectors[14 * i + 7])
                + (query[8] - vectors[14 * i + 8]) * (query[8] - vectors[14 * i + 8])
                + (query[9] - vectors[14 * i + 9]) * (query[9] - vectors[14 * i + 9])
                + (query[10] - vectors[14 * i + 10]) * (query[10] - vectors[14 * i + 10])
                + (query[11] - vectors[14 * i + 11]) * (query[11] - vectors[14 * i + 11])
                + (query[12] - vectors[14 * i + 12]) * (query[12] - vectors[14 * i + 12])
                + (query[13] - vectors[14 * i + 13]) * (query[13] - vectors[14 * i + 13])
            &&& entries(dataset, query, n)[i].1 == if dataset.labels@[i] == 0 {
                0u8
            } else {
                1u8
            }
        }),
{
    law_distance_is_the_sum_of_squares(query, dataset.vector(i));
}

/// The fraud votes are counted entry by entry: as many as there are entries with a 1.
pub proof fn law_every_one_is_a_vote(top: Seq<(int, u8)>)
    ensures
        fraud_ones(top) == top.filter(|e: (int, u8)| e.1 == 1).len(),
        fraud_ones(top) <= top.len(),
    decreases top.len(),
{
    reveal(Seq::filter);
    if top.len() > 0 {
        law_every_one_is_a_vote(top.drop_last());
    }
}

/// The exact votes are those of the five nearest of all `n` vectors, or of all of them where
/// there are fewer: `sel` lists which vectors these are. They are different vectors, none that
/// is left out is nearer, and every fraud among them is a vote.
pub proof fn law_exact_votes_are_of_the_nearest(
    dataset: LoadedDataset,
    query: Seq<i16>,
    n: nat,
) -> (sel: Seq<int>)
    requires
        14 * n <= dataset.vectors_i16@.len(),
    ensures
        ({
            let vectors = dataset.vectors_i16@;
            let distance = |i: int|
                (query[0] - vectors[14 * i]) * (query[0] - vectors[14 * i])
                    + (query[1] - vectors[14 * i + 1]) * (query[1] - vectors[14 * i + 1])
                    + (query[2] - vectors[14 * i + 2]) * (query[2] - vectors[14 * i + 2])
                    + (query[3] - vectors[14 * i + 3]) * (query[3] - vectors[14 * i + 3])
                    + (query[4] - vectors[14 * i + 4]) * (query[4] - vectors[14 * i + 4])
                    + (query[5] - vectors[14 * i + 5]) * (query[5] - vectors[14 * i + 5])
                    + (query[6] - vectors[14 * i + 6]) * (query[6] - vectors[14 * i + 6])
                    + (query[7] - vectors[14 * i + 7]) * (query[7] - vectors[14 * i + 7])
                    + (query[8] - vectors[14 * i + 8]) * (query[8] - vectors[14 * i + 8])
                    + (query[9] - vectors[14 * i + 9]) * (query[9] - vectors[14 * i + 9])
                    + (query[10] - vectors[14 * i + 10]) * (query[10] - vectors[14 * i + 10])
                    + (query[11] - vectors[14 * i + 11]) * (query[11] - vectors[14 * i + 11])
                    + (query[12] - vectors[14 * i + 12]) * (query[12] - vectors[14 * i + 12])
                    + (query[13] - vectors[14 * i + 13]) * (query[13] - vectors[14 * i + 13]);
            &&& sel.len() == if n < 5 {
                n as int
            } else {
                5
            }
            &&& forall|a: int| 0 <= a < sel.len() ==> 0 <= #[trigger] sel[a] < n
            &&& forall|a: int, b: int|
                0 <= a < b < sel.len() ==> #[trigger] sel[a] != #[trigger] sel[b]
            &&& forall|a: int, i: int|
                #![trigger sel[a], sel.contains(i)]
                0 <= a < sel.len() && 0 <= i < n && !sel.contains(i) ==> {
                    ||| distance(sel[a]) < distance(i)
                    ||| distance(sel[a]) == distance(i) && sel[a] < i
                }
            &&& exact_votes(dataset, query, n) == sel.filter(|i: int| dataset.labels@[i] != 0).len()
        }),
{
    let vectors = dataset.vectors_i16@;
    let distance = |i: int|
        (query[0] - vectors[14 * i]) * (query[0] - vectors[14 * i])
            + (query[1] - vectors[14 * i + 1]) * (query[1] - vectors[14 * i + 1])
            + (query[2] - vectors[14 * i + 2]) * (query[2] - vectors[14 * i + 2])
            + (query[3] - vectors[14 * i + 3]) * (query[3] - vectors[14 * i + 3])
            + (query[4] - vectors[14 * i + 4]) * (query[4] - vectors[14 * i + 4])
            + (query[5] - vectors[14 * i + 5]) * (query[5] - vectors[14 * i + 5])
            + (query[6] - vectors[14 * i + 6]) * (query[6] - vectors[14 * i + 6])
            + (query[7] - vectors[14 * i + 7]) * (query[7] - vectors[14 * i + 7])
            + (query[8] - vectors[14 * i + 8]) * (query[8] - vectors[14 * i + 8])
            + (query[9] - vectors[14 * i + 9]) * (query[9] - vectors[14 * i + 9])
            + (query[10] - vectors[14 * i + 10]) * (query[10] - vectors[14 * i + 10])
            + (query[11] - vectors[14 * i + 11]) * (query[11] - vectors[14 * i + 11])
            + (query[12] - vectors[14 * i + 12]) * (query[12] - vectors[14 * i + 12])
            + (query[13] - vectors[14 * i + 13]) * (query[13] - vectors[14 * i + 13]);
    let items = entries(dataset, query, n);
    let sel = law_nearest_are_picked_in_order(items, 5);
    let top = nearest_k(items, 5);
    assert forall|i: int| 0 <= i < n implies (#[trigger] items[i]).0 == distance(i) && (items[i].1
        == 1 <==> dataset.labels@[i] != 0) by {
        law_exhaustive_search_sees_every_vector(dataset, query, n, i);
    }
    assert forall|a: int, i: int|
        #![trigger sel[a], sel.contains(i)]
        0 <= a < sel.len() && 0 <= i < n && !sel.contains(i) implies {
        ||| distance(sel[a]) < distance(i)
        ||| distance(sel[a]) == distance(i) && sel[a] < i
    } by {
        assert(items[sel[a]].0 == distance(sel[a]));
        assert(items[i].0 == distance(i));
    }
    lemma_fillers_do_not_vote(top, (5 - top.len()) as nat);
    assert(backed(top, nobody(), 5) =~= top + Seq::new((5 - top.len()) as nat, |i: int| nobody()));
    assert forall|a: int| 0 <= a < sel.len() implies ((#[trigger] top[a]).1 == 1
        <==> dataset.labels@[sel[a]] != 0) by {
        assert(items[sel[a]].0 == distance(sel[a]));
    }
    lemma_ones_are_frauds(dataset, top, sel);
    sel
}

/// The places of neighbours that were not found are no votes.
proof fn lemma_fillers_do_not_vote(top: Seq<(int, u8)>, n: nat)
    ensures
        fraud_ones(top + Seq::new(n, |i: int| nobody())) == fraud_ones(top),
    decreases n,
{
    let all = top + Seq::new(n, |i: int| nobody());
    if n == 0 {
        assert(all =~= top);
    } else {
        assert(all.drop_last() =~= top + Seq::new((n - 1) as nat, |i: int| nobody()));
        lemma_fillers_do_not_vote(top, (n - 1) as nat);
    }
}

proof fn lemma_ones_are_frauds(dataset: LoadedDataset, top: Seq<(int, u8)>, sel: Seq<int>)
    requires
        top.len() == sel.len(),
        forall|a: int|
            0 <= a < sel.len() ==> ((#[trigger] top[a]).1 == 1 <==> dataset.labels@[sel[a]] != 0),
    ensures
        fraud_ones(top) == sel.filter(|i: int| dataset.labels@[i] != 0).len(),
    decreases top.len(),
{
    reveal(Seq::filter);
    if top.len() > 0 {
        let less = top.drop_last();
        assert forall|a: int| 0 <= a < less.len() implies ((#[trigger] less[a]).1 == 1
            <==> dataset.labels@[sel.drop_last()[a]] != 0) by {
            assert(less[a] == top[a]);
        }
        lemma_ones_are_frauds(dataset, less, sel.drop_last());
        assert(top[top.len() - 1] == top.last());
    }
}

/// No more than five vote.
proof fn lemma_votes_are_few(dataset: LoadedDataset, index: IvfIndex, query: Seq<i16>, n: nat)
    ensures
        exact_votes(dataset, query, n) <= 5,
        index.neighbours(query).filter(
            |e: (int, u32)| index.label_file()[e.1 as int] == 1,
        ).len() <= 5,
        frauds_among(index.label_file(), index.neighbours(query)) == index.neighbours(query).filter(
            |e: (int, u32)| index.label_file()[e.1 as int] == 1,
        ).len(),
{
    let top = nearest_k(entries(dataset, query, n), 5);
    lemma_nearest_sorted(entries(dataset, query, n), 5);
    law_every_one_is_a_vote(backed(top, nobody(), 5));
    law_votes_count_every_fraud(index.label_file(), index.neighbours(query));
    index.neighbours(query).lemma_filter_len(
        |e: (int, u32)| index.label_file()[e.1 as int] == 1,
    );
    index.lemma_at_most_five(query);
}

/// A comparison counts every query once. Query number `q` is the vector at position
/// `q * (n / queries) + 7`; the votes are added up over all queries, and a query is equal where
/// both votes are the same, a mismatch where exactly one of them reaches three.
pub proof fn law_comparison_counts_every_query(
    dataset: LoadedDataset,
    index: IvfIndex,
    n: nat,
    queries: int,
    number: nat,
)
    requires
        5 * number <= usize::MAX,
    ensures
        ({
            let query = |q: int|
                dataset.vectors_i16@.subrange(
                    14 * (q * (n as int / queries) + 7),
                    14 * (q * (n as int / queries) + 7) + 14,
                );
            let exact = |q: int| exact_votes(dataset, query(q), n) as int;
            let indexed = |q: int|
                index.neighbours(query(q)).filter(
                    |e: (int, u32)| index.label_file()[e.1 as int] == 1,
                ).len() as int;
            let tally = tally_of(dataset, index, n, queries, number);
            &&& tally.queries == number
            &&& tally.exact_votes == Seq::new(number, exact).fold_left(0int, |sum: int, v: int| sum + v)
            &&& tally.index_votes == Seq::new(number, indexed).fold_left(
                0int,
                |sum: int, v: int| sum + v,
            )
            &&& tally.equal_votes == Seq::new(number, |q: int| q).filter(
                |q: int| exact(q) == indexed(q),
            ).len()
            &&& tally.mismatches == Seq::new(number, |q: int| q).filter(
                |q: int| exact(q) >= 3 && indexed(q) < 3 || exact(q) < 3 && indexed(q) >= 3,
            ).len()
        }),
        ({
            let tally = tally_of(dataset, index, n, queries, number);
            &&& tally.exact_votes <= 5 * number
            &&& tally.index_votes <= 5 * number
            &&& tally.equal_votes <= number
            &&& tally.mismatches <= number
        }),
    decreases number,
{
    let query = |q: int|
        dataset.vectors_i16@.subrange(
            14 * (q * (n as int / queries) + 7),
            14 * (q * (n as int / queries) + 7) + 14,
        );
    let exact = |q: int| exact_votes(dataset, query(q), n) as int;
    let indexed = |q: int|
        index.neighbours(query(q)).filter(
            |e: (int, u32)| index.label_file()[e.1 as int] == 1,
        ).len() as int;
    reveal(Seq::filter);
    if number > 0 {
        let less = (number - 1) as nat;
        law_comparison_counts_every_query(dataset, index, n, queries, less);
        let q = number - 1;
        lemma_votes_are_few(dataset, index, query(q), n);
        assert(dataset.vector(position_of(q, n as int, queries)) == query(q));
        assert(Seq::new(number, exact).drop_last() =~= Seq::new(less, exact));
        assert(Seq::new(number, indexed).drop_last() =~= Seq::new(less, indexed));
        assert(Seq::new(number, |q: int| q).drop_last() =~= Seq::new(less, |q: int| q));
    }
}

/// A comparison comes to nothing exactly if one of its queries lies behind the last vector.
pub proof fn law_comparison_needs_every_query(n: int, queries: int)
    ensures
        some_position_outside(n, queries) <==> exists|q: int|
            0 <= q < queries && #[trigger] (q * (n / queries)) + 7 >= n,
{
    if some_position_outside(n, queries) {
        let q = choose|q: int| 0 <= q < queries && #[trigger] position_of(q, n, queries) >= n;
        assert((q * (n / queries)) + 7 >= n);
    }
    if exists|q: int| 0 <= q < queries && #[trigger] (q * (n / queries)) + 7 >= n {
        let q = choose|q: int| 0 <= q < queries && #[trigger] (q * (n / queries)) + 7 >= n;
        assert(position_of(q, n, queries) >= n);
    }
}

/// Where there are fewer than five vectors, the places of the missing ones stand at the greatest
/// distance and do not vote.
pub proof fn law_missing_neighbours_do_not_vote(list: Seq<(int, u8)>, i: int)
    requires
        list.len() <= i < 5,
    ensures
        backed(list, nobody(), 5)[i] == (0x7fff_ffff_ffff_ffffint, 0u8),
        fraud_ones(backed(list, nobody(), 5)) == fraud_ones(list),
{
    lemma_fillers_do_not_vote(list, (5 - list.len()) as nat);
}

} // verus!
