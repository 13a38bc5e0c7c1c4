//! Exact search in the partition of the query, block by block.

use vstd::prelude::*;

use crate::dataset::{LoadedDataset, ReferenceLabel};
use crate::distance::{
    box_l2, in_box, law_box_bounds_its_vectors, law_distance_is_the_sum_of_squares,
    lower_bound_l2_i16, squared_l2, squared_l2_i16, VECTOR_DIMENSIONS,
};
use crate::nearest::{
    extended, insertion_sort, keyed, law_nearest_are_picked_in_order, lemma_far_items_are_ignored,
    lemma_nearest_sorted, lemma_shortlist_push, nearest_k, shortlist,
};
use crate::partition::{partition_key, partition_key_from_i16, PARTITION_COUNT};
use crate::topk::NEIGHBOURS;

verus! {

/// A vector as a search sees it: its distance from the query, and its label.
pub open spec fn candidate(dataset: LoadedDataset, query: Seq<i16>, i: int) -> (
    int,
    ReferenceLabel,
) {
    (squared_l2(query, dataset.vector(i)), dataset.label(i))
}

/// The candidates at the positions `from..to`.
pub open spec fn candidates(dataset: LoadedDataset, query: Seq<i16>, from: int, to: int) -> Seq<
    (int, ReferenceLabel),
> {
    Seq::new(
        if from < to {
            (to - from) as nat
        } else {
            0
        },
        |i: int| candidate(dataset, query, from + i),
    )
}

/// The candidates of block `b` of partition `p`.
pub open spec fn block_candidates(
    dataset: LoadedDataset,
    query: Seq<i16>,
    p: int,
    b: int,
) -> Seq<(int, ReferenceLabel)> {
    candidates(dataset, query, dataset.block_start(p, b), dataset.block_end(p, b))
}

/// A search that has met `seen` leaves block `b` out: it has `k` neighbours, and no
/// point of the block's box is nearer than the last of them.
pub open spec fn leaves_out(
    dataset: LoadedDataset,
    query: Seq<i16>,
    k: nat,
    seen: Seq<(int, ReferenceLabel)>,
    b: int,
) -> bool {
    seen.len() >= k && box_l2(query, dataset.min_of(b), dataset.max_of(b)) >= nearest_k(
        seen,
        k,
    ).last().0
}

/// The candidates that a search for `k` neighbours in partition `p` has met before block `b`.
pub open spec fn seen_before(dataset: LoadedDataset, query: Seq<i16>, p: int, k: nat, b: int) -> Seq<
    (int, ReferenceLabel),
>
    decreases b - dataset.first_block(p),
{
    if b <= dataset.first_block(p) {
        Seq::empty()
    } else {
        let seen = seen_before(dataset, query, p, k, b - 1);
        if leaves_out(dataset, query, k, seen, b - 1) {
            seen
        } else {
            seen + block_candidates(dataset, query, p, b - 1)
        }
    }
}

/// All candidates of partition `p` in the blocks before `b`.
pub open spec fn all_before(dataset: LoadedDataset, query: Seq<i16>, p: int, b: int) -> Seq<
    (int, ReferenceLabel),
>
    decreases b - dataset.first_block(p),
{
    if b <= dataset.first_block(p) {
        Seq::empty()
    } else {
        all_before(dataset, query, p, b - 1) + block_candidates(dataset, query, p, b - 1)
    }
}

/// The neighbours that a search for `k` of them finds in partition `p`.
pub open spec fn found(dataset: LoadedDataset, query: Seq<i16>, p: int, k: nat) -> Seq<
    (int, ReferenceLabel),
> {
    shortlist(seen_before(dataset, query, p, k, dataset.first_block(p + 1)), k)
}

/// The vectors of block `b` of partition `p` and their labels can be read.
pub open spec fn block_is_readable(dataset: LoadedDataset, p: int, b: int) -> bool {
    &&& dataset.block_start(p, b) + dataset.meta.block_size <= usize::MAX
    &&& forall|i: int|
        dataset.block_start(p, b) <= i < dataset.block_end(p, b) ==> #[trigger] dataset.has_vector(
            i,
        ) && dataset.has_label(i)
}

/// What the search reads at block `b` is there.
pub open spec fn step_is_readable(
    dataset: LoadedDataset,
    query: Seq<i16>,
    p: int,
    k: nat,
    b: int,
) -> bool {
    let seen = seen_before(dataset, query, p, k, b);
    &&& seen.len() >= k ==> dataset.has_bounds(b)
    &&& !leaves_out(dataset, query, k, seen, b) ==> block_is_readable(dataset, p, b)
}

/// What a search for `k` neighbours in partition `p` reads is there.
pub open spec fn scan_is_readable(
    dataset: LoadedDataset,
    query: Seq<i16>,
    p: int,
    k: nat,
) -> bool {
    &&& 0 <= p
    &&& p + 1 < dataset.meta.partition_offsets@.len()
    &&& p + 1 < dataset.meta.partition_block_offsets@.len()
    &&& k > 0 || dataset.first_block(p) >= dataset.first_block(p + 1)
    &&& forall|b: int|
        dataset.first_block(p) <= b < dataset.first_block(p + 1) ==> #[trigger] step_is_readable(
            dataset,
            query,
            p,
            k,
            b,
        )
}

/// One neighbour.
#[derive(Debug, Clone, Copy)]
pub struct SearchHit {
    pub distance: i64,
    pub label: ReferenceLabel,
}

/// Hits as the ranking sees them.
pub open spec fn hit_entries(hits: Seq<SearchHit>) -> Seq<(int, ReferenceLabel)> {
    Seq::new(hits.len(), |i: int| (hits[i].distance as int, hits[i].label))
}

/// How many of the neighbours are frauds.
pub open spec fn fraud_count(entries: Seq<(int, ReferenceLabel)>) -> nat
    decreases entries.len(),
{
    if entries.len() == 0 {
        0
    } else {
        fraud_count(entries.drop_last()) + if entries.last().1 == ReferenceLabel::Fraud {
            1nat
        } else {
            0nat
        }
    }
}

/// Takes one more candidate into a list of up to `k` neighbours.
fn offer(hits: &mut Vec<(i64, ReferenceLabel)>, k: usize, distance: i64, label: ReferenceLabel)
    requires
        k > 0,
        old(hits)@.len() <= k,
    ensures
        keyed(final(hits)@) == extended(keyed(old(hits)@), (distance as int, label), k as nat),
        final(hits)@.len() <= k,
        final(hits)@.len() >= old(hits)@.len(),
        old(hits)@.len() < k ==> final(hits)@.len() == old(hits)@.len() + 1,
{
    let ghost before = keyed(hits@);
    let ghost item = (distance as int, label);
    if hits.len() < k {
        hits.push((distance, label));
        assert(keyed(hits@) =~= before.push(item));
        if hits.len() == k {
            insertion_sort(hits);
        }
    } else if distance < hits[k - 1].0 {
        hits[k - 1] = (distance, label);
        assert(keyed(hits@) =~= before.drop_last().push(item));
        insertion_sort(hits);
    }
}

/// The neighbours of `query` in a partition: the nearest `k`, in order of distance; all
/// of them, in order of position, where there are fewer.
pub fn scan_partition(
    dataset: &LoadedDataset,
    query: &[i16; VECTOR_DIMENSIONS],
    partition: usize,
    k: usize,
) -> (hits: Vec<SearchHit>)
    requires
        scan_is_readable(*dataset, query@, partition as int, k as nat),
    ensures
        hit_entries(hits@) == found(*dataset, query@, partition as int, k as nat),
        hits@.len() <= k,
{
    let mut hits: Vec<(i64, ReferenceLabel)> = Vec::new();
    let blocks = dataset.partition_block_range(partition);
    let mut block: usize = blocks.start;
    let ghost p = partition as int;
    let ghost kk = k as nat;
    assert(keyed(hits@) =~= Seq::empty());
    proof {
        if k == 0 {
            lemma_nearest_sorted(Seq::<(int, ReferenceLabel)>::empty(), 0);
            assert(nearest_k(Seq::<(int, ReferenceLabel)>::empty(), 0) =~= Seq::empty());
        }
    }
    while block < blocks.end
        invariant
            scan_is_readable(*dataset, query@, p, kk),
            p == partition,
            kk == k,
            blocks.start == dataset.first_block(p),
            blocks.end == dataset.first_block(p + 1),
            blocks.start <= block,
            block <= blocks.end || blocks.end < blocks.start && block == blocks.start,
            keyed(hits@) == shortlist(seen_before(*dataset, query@, p, kk, block as int), kk),
            hits@.len() <= k,
        decreases blocks.end - block,
    {
        let ghost seen = seen_before(*dataset, query@, p, kk, block as int);
        proof {
            assert(step_is_readable(*dataset, query@, p, kk, block as int));
            lemma_shortlist_push(seen, (0, ReferenceLabel::Legit), kk);
        }
        assert(keyed(hits@).len() == hits@.len());
        let mut skip: bool = false;
        if hits.len() == k {
            let lower_bound: i64 = lower_bound_l2_i16(
                query,
                dataset.block_min(block),
                dataset.block_max(block),
            );
            assert(keyed(hits@).last() == keyed(hits@)[k - 1]);
            skip = lower_bound >= hits[k - 1].0;
        }
        if !skip {
            scan_block(dataset, query, partition, block, k, &mut hits, Ghost(seen));
        }
        block = block + 1;
    }
    let ghost entries = keyed(hits@);
    let mut out: Vec<SearchHit> = Vec::new();
    let mut i: usize = 0;
    while i < hits.len()
        invariant
            0 <= i <= hits@.len(),
            out@.len() == i,
            forall|j: int|
                0 <= j < i ==> (#[trigger] out@[j]).distance == hits@[j].0 && out@[j].label
                    == hits@[j].1,
        decreases hits@.len() - i,
    {
        out.push(SearchHit { distance: hits[i].0, label: hits[i].1 });
        i = i + 1;
    }
    assert(hit_entries(out@) =~= entries);
    out
}

/// Offers every vector of a block.
fn scan_block(
    dataset: &LoadedDataset,
    query: &[i16; VECTOR_DIMENSIONS],
    partition: usize,
    block: usize,
    k: usize,
    hits: &mut Vec<(i64, ReferenceLabel)>,
    Ghost(seen): Ghost<Seq<(int, ReferenceLabel)>>,
)
    requires
        k > 0,
        partition + 1 < dataset.meta.partition_offsets@.len(),
        partition + 1 < dataset.meta.partition_block_offsets@.len(),
        dataset.first_block(partition as int) <= block,
        block_is_readable(*dataset, partition as int, block as int),
        keyed(old(hits)@) == shortlist(seen, k as nat),
        old(hits)@.len() <= k,
    ensures
        keyed(final(hits)@) == shortlist(
            seen + block_candidates(*dataset, query@, partition as int, block as int),
            k as nat,
        ),
        final(hits)@.len() <= k,
{
    let range = dataset.block_vector_range(partition, block);
    let ghost from = range.start as int;
    let ghost kk = k as nat;
    let mut idx: usize = range.start;
    assert(seen + candidates(*dataset, query@, from, from) =~= seen);
    while idx < range.end
        invariant
            k > 0,
            kk == k,
            range.start == from,
            range.start == dataset.block_start(partition as int, block as int),
            range.end == dataset.block_end(partition as int, block as int),
            block_is_readable(*dataset, partition as int, block as int),
            from <= idx,
            idx <= range.end || range.end < from && idx == from,
            keyed(hits@) == shortlist(seen + candidates(*dataset, query@, from, idx as int), kk),
            hits@.len() <= k,
        decreases range.end - idx,
    {
        assert(dataset.has_vector(idx as int) && dataset.has_label(idx as int));
        let distance: i64 = squared_l2_i16(query, dataset.vector_at(idx));
        let label = dataset.label_at(idx);
        proof {
            let before = seen + candidates(*dataset, query@, from, idx as int);
            let item = candidate(*dataset, query@, idx as int);
            lemma_shortlist_push(before, item, kk);
            assert(before.push(item) =~= seen + candidates(*dataset, query@, from, idx + 1));
        }
        offer(hits, k, distance, label);
        idx = idx + 1;
    }
    proof {
        assert(candidates(*dataset, query@, from, idx as int) =~= block_candidates(
            *dataset,
            query@,
            partition as int,
            block as int,
        ));
    }
}

/// The neighbours of `query` in the partition that it falls into.
pub fn baseline_search_top_k(
    dataset: &LoadedDataset,
    query: &[i16; VECTOR_DIMENSIONS],
    k: usize,
) -> (hits: Vec<SearchHit>)
    requires
        scan_is_readable(*dataset, query@, partition_key(query@), k as nat),
    ensures
        hit_entries(hits@) == found(*dataset, query@, partition_key(query@), k as nat),
        hits@.len() <= k,
{
    let primary_partition: usize = partition_key_from_i16(query);
    scan_partition(dataset, query, primary_partition, k)
}

/// Search over one data set.
pub struct SearchIndex {
    dataset: LoadedDataset,
}

impl SearchIndex {
    /// The data set that is searched.
    pub closed spec fn data(self) -> LoadedDataset {
        self.dataset
    }

    pub fn new(dataset: LoadedDataset) -> (index: Self)
        ensures
            index.data() == dataset,
    {
        SearchIndex { dataset }
    }

    /// Whether there are enough vectors for a vote.
    pub fn is_ready(&self) -> (ready: bool)
        ensures
            ready == (self.data().meta.total_vectors >= NEIGHBOURS),
            ready <==> self.data().meta.total_vectors >= 5,
    {
        self.dataset.meta.total_vectors >= NEIGHBOURS as u64
    }

    /// Whether the data set fits together, so that every search can be made.
    pub fn is_consistent(&self) -> (fits: bool)
        ensures
            fits == self.data().consistent(),
    {
        self.dataset.is_consistent()
    }

    /// The `k` nearest neighbours of a quantized query in its partition.
    pub fn search_top_k(&self, query: &[i16; VECTOR_DIMENSIONS], k: usize) -> (hits: Vec<SearchHit>)
        requires
            scan_is_readable(self.data(), query@, partition_key(query@), k as nat),
        ensures
            hit_entries(hits@) == found(self.data(), query@, partition_key(query@), k as nat),
            hits@.len() <= k,
    {
        baseline_search_top_k(&self.dataset, query, k)
    }

    /// How many of the neighbours of a quantized query are frauds.
    pub fn fraud_votes(&self, query: &[i16; VECTOR_DIMENSIONS]) -> (votes: usize)
        requires
            scan_is_readable(self.data(), query@, partition_key(query@), NEIGHBOURS as nat),
        ensures
            votes == fraud_count(
                found(self.data(), query@, partition_key(query@), NEIGHBOURS as nat),
            ),
            votes == found(self.data(), query@, partition_key(query@), NEIGHBOURS as nat).filter(
                |e: (int, ReferenceLabel)| e.1 == ReferenceLabel::Fraud,
            ).len(),
            votes <= NEIGHBOURS,
    {
        let hits = self.search_top_k(query, NEIGHBOURS);
        let ghost entries = hit_entries(hits@);
        let mut votes: usize = 0;
        let mut i: usize = 0;
        while i < hits.len()
            invariant
                0 <= i <= hits@.len(),
                hits@.len() <= NEIGHBOURS,
                entries == hit_entries(hits@),
                votes == fraud_count(entries.take(i as int)),
                votes <= i,
            decreases hits@.len() - i,
        {
            assert(entries.take(i + 1).drop_last() =~= entries.take(i as int));
            if hits[i].label == ReferenceLabel::Fraud {
                votes = votes + 1;
            }
            i = i + 1;
        }
        proof {
            assert(entries.take(entries.len() as int) =~= entries);
            law_every_fraud_is_a_vote(entries);
        }
        votes
    }
}

/// Every vector of every block of partition `p` lies in the box of its block.
pub open spec fn bounds_hold(dataset: LoadedDataset, p: int) -> bool {
    forall|b: int, i: int|
        #![trigger dataset.block_start(p, b), dataset.vector(i)]
        dataset.first_block(p) <= b < dataset.first_block(p + 1) && dataset.block_start(p, b) <= i
            < dataset.block_end(p, b) ==> in_box(
            dataset.vector(i),
            dataset.min_of(b),
            dataset.max_of(b),
        )
}

/// The shortlist of more entries depends on the shortlist so far, not on what it came from.
proof fn lemma_shortlist_append<T>(
    one: Seq<(int, T)>,
    other: Seq<(int, T)>,
    more: Seq<(int, T)>,
    k: nat,
)
    requires
        k > 0,
        shortlist(one, k) == shortlist(other, k),
    ensures
        shortlist(one + more, k) == shortlist(other + more, k),
    decreases more.len(),
{
    if more.len() == 0 {
        assert(one + more =~= one);
        assert(other + more =~= other);
    } else {
        let less = more.drop_last();
        lemma_shortlist_append(one, other, less, k);
        lemma_shortlist_push(one + less, more.last(), k);
        lemma_shortlist_push(other + less, more.last(), k);
        assert((one + less).push(more.last()) =~= one + more);
        assert((other + less).push(more.last()) =~= other + more);
    }
}

proof fn lemma_pruned_like_full(
    dataset: LoadedDataset,
    query: Seq<i16>,
    p: int,
    k: nat,
    b: int,
)
    requires
        k > 0,
        bounds_hold(dataset, p),
        b <= dataset.first_block(p + 1),
    ensures
        shortlist(seen_before(dataset, query, p, k, b), k) == shortlist(
            all_before(dataset, query, p, b),
            k,
        ),
    decreases b - dataset.first_block(p),
{
    if b > dataset.first_block(p) {
        lemma_pruned_like_full(dataset, query, p, k, b - 1);
        let seen = seen_before(dataset, query, p, k, b - 1);
        let all = all_before(dataset, query, p, b - 1);
        let more = block_candidates(dataset, query, p, b - 1);
        if leaves_out(dataset, query, k, seen, b - 1) {
            lemma_shortlist_push(seen, (0, ReferenceLabel::Legit), k);
            lemma_shortlist_push(all, (0, ReferenceLabel::Legit), k);
            let last = nearest_k(seen, k).last().0;
            assert forall|j: int| 0 <= j < more.len() implies nearest_k(all, k).last().0 <= (
            #[trigger] more[j]).0 by {
                let i = dataset.block_start(p, b - 1) + j;
                assert(in_box(dataset.vector(i), dataset.min_of(b - 1), dataset.max_of(b - 1)));
                law_box_bounds_its_vectors(
                    query,
                    dataset.min_of(b - 1),
                    dataset.max_of(b - 1),
                    dataset.vector(i),
                );
            }
            lemma_far_items_are_ignored(all, more, k);
        } else {
            lemma_shortlist_append(seen, all, more, k);
        }
    }
}

/// Leaving out blocks loses nothing: where the bounds of the blocks hold, a search finds
/// what it would find by looking at every block.
pub proof fn law_pruning_loses_nothing(dataset: LoadedDataset, query: Seq<i16>, p: int, k: nat)
    requires
        k > 0,
        bounds_hold(dataset, p),
    ensures
        found(dataset, query, p, k) == shortlist(
            all_before(dataset, query, p, dataset.first_block(p + 1)),
            k,
        ),
{
    lemma_pruned_like_full(dataset, query, p, k, dataset.first_block(p + 1));
}

proof fn lemma_blocks_so_far(dataset: LoadedDataset, query: Seq<i16>, p: int, b: int)
    requires
        dataset.partition_is_tiled(p),
        dataset.first_block(p) <= b <= dataset.first_block(p + 1),
    ensures
        all_before(dataset, query, p, b) == candidates(
            dataset,
            query,
            dataset.partition_start(p),
            if b == dataset.first_block(p + 1) {
                dataset.partition_start(p + 1)
            } else {
                dataset.block_start(p, b)
            },
        ),
    decreases b,
{
    let start = dataset.partition_start(p);
    let size = dataset.meta.block_size as int;
    let first = dataset.first_block(p);
    let count = dataset.first_block(p + 1) - first;
    assert((first - first) * size == 0) by (nonlinear_arith);
    if b == first {
        assert(count * size == 0 || count > 0) by (nonlinear_arith)
            requires
                count >= 0,
        ;
        assert(all_before(dataset, query, p, b) =~= candidates(dataset, query, start, start));
    } else {
        lemma_blocks_so_far(dataset, query, p, b - 1);
        let local = b - 1 - first;
        assert((local + 1) * size == local * size + size) by (nonlinear_arith);
        assert(0 <= local * size) by (nonlinear_arith)
            requires
                local >= 0,
                size >= 0,
        ;
        if b < dataset.first_block(p + 1) {
            assert((local + 1) * size <= (count - 1) * size) by (nonlinear_arith)
                requires
                    local + 1 <= count - 1,
                    size >= 0,
            ;
        }
        let end = if b == dataset.first_block(p + 1) {
            dataset.partition_start(p + 1)
        } else {
            dataset.block_start(p, b)
        };
        assert(dataset.block_end(p, b - 1) == end);
        assert(dataset.block_start(p, b - 1) <= end);
        assert(all_before(dataset, query, p, b) =~= candidates(dataset, query, start, end));
    }
}

/// The neighbours that a search finds are the nearest of all vectors of the partition, in
/// order of position among equal distances, where its blocks cover it and their bounds hold.
pub proof fn law_search_is_exact(dataset: LoadedDataset, query: Seq<i16>, p: int, k: nat)
    requires
        k > 0,
        dataset.partition_is_tiled(p),
        bounds_hold(dataset, p),
    ensures
        found(dataset, query, p, k) == shortlist(
            candidates(
                dataset,
                query,
                dataset.partition_start(p),
                dataset.partition_start(p + 1),
            ),
            k,
        ),
{
    law_pruning_loses_nothing(dataset, query, p, k);
    lemma_blocks_so_far(dataset, query, p, dataset.first_block(p + 1));
}

/// In a consistent data set every search reads only what is there.
pub proof fn law_consistent_data_is_readable(
    dataset: LoadedDataset,
    query: Seq<i16>,
    p: int,
    k: nat,
)
    requires
        dataset.consistent(),
        0 <= p < PARTITION_COUNT,
        k > 0,
    ensures
        scan_is_readable(dataset, query, p, k),
{
    assert(dataset.partition_is_tiled(p));
    assert forall|b: int|
        dataset.first_block(p) <= b < dataset.first_block(p + 1) implies #[trigger] step_is_readable(
        dataset,
        query,
        p,
        k,
        b,
    ) by {
        dataset.lemma_offsets_ordered(p + 1, PARTITION_COUNT as int);
        let size = dataset.meta.block_size as int;
        let local = b - dataset.first_block(p);
        let count = dataset.first_block(p + 1) - dataset.first_block(p);
        assert(0 <= local * size <= (count - 1) * size) by (nonlinear_arith)
            requires
                0 <= local <= count - 1,
                size >= 0,
        ;
        assert(b + 1 <= dataset.first_block(PARTITION_COUNT as int));
        dataset.lemma_bounds_are_there(b);
        assert(dataset.block_start(p, b) < dataset.partition_start(p + 1));
        assert forall|i: int|
            dataset.block_start(p, b) <= i < dataset.block_end(
                p,
                b,
            ) implies #[trigger] dataset.has_vector(i) && dataset.has_label(i) by {
            assert(dataset.label_file()[i] <= 1);
        }
        assert(block_is_readable(dataset, p, b));
    }
}

/// The fraud votes are counted neighbour by neighbour: as many as there are neighbours labelled
/// fraud.
pub proof fn law_every_fraud_is_a_vote(entries: Seq<(int, ReferenceLabel)>)
    ensures
        fraud_count(entries) == entries.filter(
            |e: (int, ReferenceLabel)| e.1 == ReferenceLabel::Fraud,
        ).len(),
        (forall|i: int| 0 <= i < entries.len() ==> (#[trigger] entries[i]).1 == ReferenceLabel::Fraud)
            ==> fraud_count(entries) == entries.len(),
        (forall|i: int| 0 <= i < entries.len() ==> (#[trigger] entries[i]).1 == ReferenceLabel::Legit)
            ==> fraud_count(entries) == 0,
    decreases entries.len(),
{
    reveal(Seq::filter);
    if entries.len() > 0 {
        let rest = entries.drop_last();
        law_every_fraud_is_a_vote(rest);
        assert(forall|i: int| 0 <= i < rest.len() ==> #[trigger] rest[i] == entries[i]);
        assert(entries[entries.len() - 1] == entries.last());
    }
}

/// A hit is its distance and its label.
pub proof fn law_hits_are_entries(hits: Seq<SearchHit>, i: int)
    requires
        0 <= i < hits.len(),
    ensures
        hit_entries(hits).len() == hits.len(),
        hit_entries(hits)[i].0 == hits[i].distance,
        hit_entries(hits)[i].1 == hits[i].label,
{
}

/// A search in a partition gives the `k` nearest of its vectors, by the sum of the squares of
/// their fourteen differences from the query, with their labels: `sel` lists which they are,
/// counted from the start of the partition. They are different vectors, in order of distance
/// and, among equally near ones, of position; none that is left out comes before one of them.
/// Where the partition holds fewer than `k`, all are given, in order of position.
pub proof fn law_search_gives_the_nearest(
    dataset: LoadedDataset,
    query: Seq<i16>,
    p: int,
    k: nat,
) -> (sel: Seq<int>)
    requires
        k > 0,
        0 <= p < 256,
        dataset.consistent(),
        bounds_hold(dataset, p),
        dataset.meta.partition_offsets@[p] <= usize::MAX,
        dataset.meta.partition_offsets@[p + 1] <= usize::MAX,
    ensures
        ({
            let start = dataset.meta.partition_offsets@[p] as int;
            let count = dataset.meta.partition_offsets@[p + 1] - start;
            let vectors = dataset.vectors_i16@;
            let distance = |i: int|
                (query[0] - vectors[14 * (start + i)]) * (query[0] - vectors[14 * (start + i)])
                    + (query[1] - vectors[14 * (start + i) + 1]) * (query[1] - vectors[14 * (start + i) + 1])
                    + (query[2] - vectors[14 * (start + i) + 2]) * (query[2] - vectors[14 * (start + i) + 2])
                    + (query[3] - vectors[14 * (start + i) + 3]) * (query[3] - vectors[14 * (start + i) + 3])
                    + (query[4] - vectors[14 * (start + i) + 4]) * (query[4] - vectors[14 * (start + i) + 4])
                    + (query[5] - vectors[14 * (start + i) + 5]) * (query[5] - vectors[14 * (start + i) + 5])
                    + (query[6] - vectors[14 * (start + i) + 6]) * (query[6] - vectors[14 * (start + i) + 6])
                    + (query[7] - vectors[14 * (start + i) + 7]) * (query[7] - vectors[14 * (start + i) + 7])
                    + (query[8] - vectors[14 * (start + i) + 8]) * (query[8] - vectors[14 * (start + i) + 8])
                    + (query[9] - vectors[14 * (start + i) + 9]) * (query[9] - vectors[14 * (start + i) + 9])
                    + (query[10] - vectors[14 * (start + i) + 10]) * (query[10] - vectors[14 * (start + i) + 10])
                    + (query[11] - vectors[14 * (start + i) + 11]) * (query[11] - vectors[14 * (start + i) + 11])
                    + (query[12] - vectors[14 * (start + i) + 12]) * (query[12] - vectors[14 * (start + i) + 12])
                    + (query[13] - vectors[14 * (start + i) + 13]) * (query[13] - vectors[14 * (start + i) + 13]);
            let hits = found(dataset, query, p, k);
            &&& hits.len() == sel.len()
            &&& sel.len() == if count < k {
                count
            } else {
                k as int
            }
            &&& forall|a: int|
                0 <= a < sel.len() ==> {
                    &&& 0 <= #[trigger] sel[a] < count
                    &&& hits[a].0 == distance(sel[a])
                    &&& hits[a].1 == ReferenceLabel::Fraud <==> dataset.labels@[start + sel[a]] == 1
                }
            &&& forall|a: int, b: int|
                0 <= a < b < sel.len() ==> #[trigger] sel[a] != #[trigger] sel[b]
            &&& count < k ==> forall|a: int| 0 <= a < sel.len() ==> #[trigger] sel[a] == a
            &&& count >= k ==> forall|a: int, b: int|
                0 <= a < b < sel.len() ==> {
                    ||| distance(#[trigger] sel[a]) < distance(#[trigger] sel[b])
                    ||| distance(sel[a]) == distance(sel[b]) && sel[a] < sel[b]
                }
            &&& forall|a: int, i: int|
                #![trigger sel[a], sel.contains(i)]
                0 <= a < sel.len() && 0 <= i < count && !sel.contains(i) ==> {
                    ||| distance(sel[a]) < distance(i)
                    ||| distance(sel[a]) == distance(i) && sel[a] < i
                }
        }),
{
    let start = dataset.meta.partition_offsets@[p] as int;
    let count = dataset.meta.partition_offsets@[p + 1] - start;
    let vectors = dataset.vectors_i16@;
    let distance = |i: int|
        (query[0] - vectors[14 * (start + i)]) * (query[0] - vectors[14 * (start + i)])
            + (query[1] - vectors[14 * (start + i) + 1]) * (query[1] - vectors[14 * (start + i) + 1])
            + (query[2] - vectors[14 * (start + i) + 2]) * (query[2] - vectors[14 * (start + i) + 2])
            + (query[3] - vectors[14 * (start + i) + 3]) * (query[3] - vectors[14 * (start + i) + 3])
            + (query[4] - vectors[14 * (start + i) + 4]) * (query[4] - vectors[14 * (start + i) + 4])
            + (query[5] - vectors[14 * (start + i) + 5]) * (query[5] - vectors[14 * (start + i) + 5])
            + (query[6] - vectors[14 * (start + i) + 6]) * (query[6] - vectors[14 * (start + i) + 6])
            + (query[7] - vectors[14 * (start + i) + 7]) * (query[7] - vectors[14 * (start + i) + 7])
            + (query[8] - vectors[14 * (start + i) + 8]) * (query[8] - vectors[14 * (start + i) + 8])
            + (query[9] - vectors[14 * (start + i) + 9]) * (query[9] - vectors[14 * (start + i) + 9])
            + (query[10] - vectors[14 * (start + i) + 10]) * (query[10] - vectors[14 * (start + i) + 10])
            + (query[11] - vectors[14 * (start + i) + 11]) * (query[11] - vectors[14 * (start + i) + 11])
            + (query[12] - vectors[14 * (start + i) + 12]) * (query[12] - vectors[14 * (start + i) + 12])
            + (query[13] - vectors[14 * (start + i) + 13]) * (query[13] - vectors[14 * (start + i) + 13]);
    assert(dataset.partition_is_tiled(p));
    dataset.lemma_offsets_ordered(p + 1, 256);
    dataset.lemma_offsets_ordered(p, p + 1);
    law_search_is_exact(dataset, query, p, k);
    let items = candidates(dataset, query, start, start + count);
    let hits = found(dataset, query, p, k);
    assert(hits == shortlist(items, k));
    assert forall|i: int| 0 <= i < count implies (#[trigger] items[i]).0 == distance(i) && (
    items[i].1 == ReferenceLabel::Fraud <==> dataset.labels@[start + i] == 1) by {
        law_distance_is_the_sum_of_squares(query, dataset.vector(start + i));
        assert(dataset.label_file()[start + i] <= 1);
    }
    if count < k {
        let sel = Seq::new(count as nat, |a: int| a);
        assert forall|i: int| 0 <= i < count implies sel.contains(i) by {
            assert(sel[i] == i);
        }
        assert forall|a: int| 0 <= a < sel.len() implies {
            &&& 0 <= #[trigger] sel[a] < count
            &&& hits[a].0 == distance(sel[a])
            &&& hits[a].1 == ReferenceLabel::Fraud <==> dataset.labels@[start + sel[a]] == 1
        } by {
            assert(items[a].0 == distance(a));
        }
        sel
    } else {
        let sel = law_nearest_are_picked_in_order(items, k);
        assert forall|a: int| 0 <= a < sel.len() implies {
            &&& 0 <= #[trigger] sel[a] < count
            &&& hits[a].0 == distance(sel[a])
            &&& hits[a].1 == ReferenceLabel::Fraud <==> dataset.labels@[start + sel[a]] == 1
        } by {
            assert(items[sel[a]].0 == distance(sel[a]));
        }
        assert forall|a: int, i: int|
            #![trigger sel[a], sel.contains(i)]
            0 <= a < sel.len() && 0 <= i < count && !sel.contains(i) implies {
            ||| distance(sel[a]) < distance(i)
            ||| distance(sel[a]) == distance(i) && sel[a] < i
        } by {
            assert(items[sel[a]].0 == distance(sel[a]));
            assert(items[i].0 == distance(i));
        }
        sel
    }
}

} // verus!
