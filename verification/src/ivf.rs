//! The cell index: vectors grouped by their nearest centroid, of which a query looks at
//! the nearest few.

use vstd::prelude::*;

use crate::bytes::{decode_u32s, i16s_of, read_i16, u32s_of};
use crate::distance::{
    l2_16dims, law_distance_is_the_sum_of_squares, padded, square_sum, DIMS_PADDED,
    VECTOR_DIMENSIONS,
};
use crate::nearest::{
    backed, is_ranking, keep_nearest, keyed, law_nearest_are_picked_in_order,
    law_nearest_k_is_a_ranking, lemma_backed_admit,
    lemma_nearest_from_items, lemma_nearest_push, lemma_nearest_sorted, lemma_shortlist_push,
    lemma_slot_bounds, nearest_k, picked, ranks_before, shortlist, slot,
};
use crate::topk::{TopK, NEIGHBOURS};

verus! {

/// How many cells there are.
pub const NLIST: usize = 4096;

/// How many cells a query looks at.
pub const NPROBE: usize = 3;

pub const CENTROIDS_FILE: &'static str = "ivf-centroids.bin";

pub const VECTORS_FILE: &'static str = "ivf-vectors.bin";

pub const LABELS_FILE: &'static str = "ivf-labels.bin";

pub const OFFSETS_FILE: &'static str = "ivf-offsets.bin";

/// The padded vector at position `i` of a flat list of coordinates.
pub open spec fn padded_row(values: Seq<i16>, i: int) -> Seq<i16> {
    values.subrange(DIMS_PADDED * i, DIMS_PADDED * i + DIMS_PADDED)
}

/// Distance of two padded vectors.
pub open spec fn padded_l2(a: Seq<i16>, b: Seq<i16>) -> int {
    square_sum(a, b, DIMS_PADDED as nat)
}

/// The first `n` cells as a query sees them: distance of the centroid, and number.
pub open spec fn cell_entries(centroids: Seq<i16>, query: Seq<i16>, n: nat) -> Seq<(int, u16)> {
    Seq::new(n, |c: int| (padded_l2(query, padded_row(centroids, c)), c as u16))
}

/// The cells that a query looks at, nearest first; among equal distances the lower number.
pub open spec fn probed(centroids: Seq<i16>, query: Seq<i16>) -> Seq<u16> {
    let best = nearest_k(cell_entries(centroids, query, NLIST as nat), NPROBE as nat);
    Seq::new(NPROBE as nat, |j: int| best[j].1)
}

/// The vectors at the positions `from..to` as a query sees them: distance, and position.
pub open spec fn span(vectors: Seq<i16>, query: Seq<i16>, from: int, to: int) -> Seq<(int, u32)> {
    Seq::new(
        if from < to {
            (to - from) as nat
        } else {
            0
        },
        |j: int| (padded_l2(query, padded_row(vectors, from + j)), (from + j) as u32),
    )
}

/// The vectors that a query meets in the first `n` of the given cells.
pub open spec fn met(
    vectors: Seq<i16>,
    offsets: Seq<u32>,
    query: Seq<i16>,
    cells: Seq<u16>,
    n: nat,
) -> Seq<(int, u32)>
    decreases n,
{
    if n == 0 {
        Seq::empty()
    } else {
        met(vectors, offsets, query, cells, (n - 1) as nat) + span(
            vectors,
            query,
            offsets[cells[n - 1] as int] as int,
            offsets[cells[n - 1] + 1] as int,
        )
    }
}

/// How many of the entries are frauds.
pub open spec fn frauds_among(labels: Seq<u8>, entries: Seq<(int, u32)>) -> nat
    decreases entries.len(),
{
    if entries.len() == 0 {
        0
    } else {
        frauds_among(labels, entries.drop_last()) + if labels[entries.last().1 as int] == 1 {
            1nat
        } else {
            0nat
        }
    }
}

/// Reads the padded vector at position `i` of a file.
fn read_padded(bytes: &[u8], i: usize) -> (vector: [i16; DIMS_PADDED])
    requires
        DIMS_PADDED * i + DIMS_PADDED <= bytes@.len() / 2,
    ensures
        vector@ == padded_row(i16s_of(bytes@), i as int),
{
    let mut vector: [i16; DIMS_PADDED] = [0i16; DIMS_PADDED];
    let mut d: usize = 0;
    assert(bytes.len() == bytes@.len());
    while d < DIMS_PADDED
        invariant
            0 <= d <= DIMS_PADDED,
            DIMS_PADDED * i + DIMS_PADDED <= bytes@.len() / 2,
            bytes.len() == bytes@.len(),
            forall|e: int|
                0 <= e < d ==> #[trigger] vector@[e] == i16s_of(bytes@)[DIMS_PADDED * i + e],
        decreases DIMS_PADDED - d,
    {
        vector[d] = read_i16(bytes, DIMS_PADDED * i + d);
        d = d + 1;
    }
    assert(vector@ =~= padded_row(i16s_of(bytes@), i as int));
    vector
}

/// The query followed by zeros.
fn pad(query: &[i16; VECTOR_DIMENSIONS]) -> (q: [i16; DIMS_PADDED])
    ensures
        q@ == padded(query@),
{
    let mut q: [i16; DIMS_PADDED] = [0i16; DIMS_PADDED];
    let mut d: usize = 0;
    while d < VECTOR_DIMENSIONS
        invariant
            0 <= d <= VECTOR_DIMENSIONS,
            forall|e: int| 0 <= e < d ==> #[trigger] q@[e] == query@[e],
            forall|e: int| d <= e < DIMS_PADDED ==> #[trigger] q@[e] == 0,
        decreases VECTOR_DIMENSIONS - d,
    {
        q[d] = query[d];
        d = d + 1;
    }
    assert(q@ =~= padded(query@));
    q
}

/// The index over the contents of its four files.
pub struct IvfIndex<'a> {
    centroids: &'a [u8],
    vectors: &'a [u8],
    labels: &'a [u8],
    offsets: Vec<u32>,
    total: usize,
}

impl<'a> IvfIndex<'a> {
    /// The coordinates of the centroids.
    pub closed spec fn centroid_values(self) -> Seq<i16> {
        i16s_of(self.centroids@)
    }

    /// The coordinates of the vectors.
    pub closed spec fn vector_values(self) -> Seq<i16> {
        i16s_of(self.vectors@)
    }

    /// The label bytes.
    pub closed spec fn label_file(self) -> Seq<u8> {
        self.labels@
    }

    /// Where the cells start, and last the number of vectors.
    pub closed spec fn cell_offsets(self) -> Seq<u32> {
        self.offsets@
    }

    pub closed spec fn wf(self) -> bool {
        self.total == self.labels@.len()
    }

    /// The index over the contents of its files, taken as they are.
    pub fn load(
        centroids: &'a [u8],
        vectors: &'a [u8],
        labels: &'a [u8],
        offsets: &[u8],
    ) -> (index: Self)
        ensures
            index.wf(),
            index.centroid_values() == i16s_of(centroids@),
            index.vector_values() == i16s_of(vectors@),
            index.label_file() == labels@,
            index.cell_offsets() == u32s_of(offsets@),
    {
        IvfIndex {
            centroids,
            vectors,
            labels,
            offsets: decode_u32s(offsets),
            total: labels.len(),
        }
    }

    /// Whether there are enough vectors for a vote.
    pub fn is_ready(&self) -> (ready: bool)
        requires
            self.wf(),
        ensures
            ready == (self.label_file().len() >= NEIGHBOURS),
            ready <==> self.label_file().len() >= 5,
    {
        self.total >= NEIGHBOURS
    }

    /// The centroids of all cells are there.
    pub open spec fn has_centroids(self) -> bool {
        NLIST * DIMS_PADDED <= self.centroid_values().len()
    }

    /// The vectors of a cell are there.
    pub open spec fn has_cell(self, cell: int) -> bool {
        &&& cell + 1 < self.cell_offsets().len()
        &&& self.cell_offsets()[cell] < self.cell_offsets()[cell + 1] ==> DIMS_PADDED
            * self.cell_offsets()[cell + 1] <= self.vector_values().len()
    }

    /// The neighbours that a query finds: distance, and position.
    pub open spec fn neighbours(self, query: Seq<i16>) -> Seq<(int, u32)> {
        let q = padded(query);
        shortlist(
            met(
                self.vector_values(),
                self.cell_offsets(),
                q,
                probed(self.centroid_values(), q),
                NPROBE as nat,
            ),
            NEIGHBOURS as nat,
        )
    }

    /// What a query reads is there.
    pub open spec fn can_answer(self, query: Seq<i16>) -> bool {
        &&& self.has_centroids()
        &&& forall|j: int|
            0 <= j < NPROBE ==> self.has_cell(
                #[trigger] probed(self.centroid_values(), padded(query))[j] as int,
            )
        &&& forall|a: int|
            0 <= a < self.neighbours(query).len() ==> (#[trigger] self.neighbours(query)[a]).1
                < self.label_file().len()
    }

    /// The cells nearest to a padded query.
    #[verifier::rlimit(30)]
    pub fn closest_cells(&self, query: &[i16; DIMS_PADDED]) -> (cells: [u16; NPROBE])
        requires
            self.has_centroids(),
        ensures
            cells@ == probed(self.centroid_values(), query@),
            forall|j: int| 0 <= j < NPROBE ==> #[trigger] cells@[j] < NLIST,
            cells@.no_duplicates(),
            forall|j: int, c: u16|
                #![trigger cells@[j], cells@.contains(c)]
                0 <= j < NPROBE && c < NLIST && !cells@.contains(c) ==> square_sum(
                    query@,
                    padded_row(self.centroid_values(), cells@[j] as int),
                    16,
                ) <= square_sum(query@, padded_row(self.centroid_values(), c as int), 16),
    {
        let ghost values = self.centroid_values();
        let ghost k = NPROBE as nat;
        let ghost nobody = (i64::MAX as int, 0u16);
        let mut best: Vec<(i64, u16)> = Vec::new();
        best.push((i64::MAX, 0));
        best.push((i64::MAX, 0));
        best.push((i64::MAX, 0));
        proof {
            assert(cell_entries(values, query@, 0) =~= Seq::empty());
            assert(keyed(best@) =~= backed(Seq::empty(), nobody, k));
        }
        let mut idx: usize = 0;
        while idx < NLIST
            invariant
                0 <= idx <= NLIST,
                self.has_centroids(),
                values == self.centroid_values(),
                k == NPROBE,
                nobody == (i64::MAX as int, 0u16),
                best@.len() == NPROBE,
                keyed(best@) == backed(
                    nearest_k(cell_entries(values, query@, idx as nat), k),
                    nobody,
                    k,
                ),
                forall|a: int|
                    0 <= a < nearest_k(cell_entries(values, query@, idx as nat), k).len() ==> (
                    #[trigger] nearest_k(cell_entries(values, query@, idx as nat), k)[a]).0
                        < i64::MAX && nearest_k(cell_entries(values, query@, idx as nat), k)[a].1
                        < idx,
            decreases NLIST - idx,
        {
            let centroid: [i16; DIMS_PADDED] = read_padded(self.centroids, idx);
            let dist: i64 = l2_16dims(query.as_slice(), centroid.as_slice());
            proof {
                let prev = cell_entries(values, query@, idx as nat);
                let s = nearest_k(prev, k);
                let e = (dist as int, idx as u16);
                assert(cell_entries(values, query@, (idx + 1) as nat) =~= prev.push(e));
                lemma_nearest_sorted(prev, k);
                lemma_nearest_push(prev, e, k);
                lemma_backed_admit(s, e, nobody, k);
                lemma_slot_bounds(s, e.0);
                assert(keyed(best@).last() == keyed(best@)[2]);
                let t = nearest_k(prev.push(e), k);
                assert forall|a: int| 0 <= a < t.len() implies (#[trigger] t[a]).0 < i64::MAX
                    && t[a].1 < idx + 1 by {
                    let p = slot(s, e.0);
                    if a < p {
                        assert(t[a] == s[a]);
                    } else if a > p {
                        assert(t[a] == s[a - 1]);
                    }
                }
            }
            keep_nearest(&mut best, (dist, idx as u16));
            idx = idx + 1;
        }
        proof {
            let s = nearest_k(cell_entries(values, query@, NLIST as nat), k);
            lemma_nearest_sorted(cell_entries(values, query@, NLIST as nat), k);
            assert(backed(s, nobody, k) =~= s);
            assert(keyed(best@)[0] == s[0]);
            assert(keyed(best@)[1] == s[1]);
            assert(keyed(best@)[2] == s[2]);
        }
        let mut cells: [u16; NPROBE] = [0u16; NPROBE];
        cells[0] = best[0].1;
        cells[1] = best[1].1;
        cells[2] = best[2].1;
        proof {
            assert(cells@ =~= probed(values, query@));
            law_probed_cells_are_nearest(values, query@);
            assert forall|j: int, c: u16|
                #![trigger cells@[j], cells@.contains(c)]
                0 <= j < NPROBE && c < NLIST && !cells@.contains(c) implies square_sum(
                query@,
                padded_row(values, cells@[j] as int),
                16,
            ) <= square_sum(query@, padded_row(values, c as int), 16) by {
                law_stored_distance(query@, values, cells@[j] as int);
                law_stored_distance(query@, values, c as int);
            }
        }
        cells
    }

    /// Offers the vectors of a cell.
    fn scan_cell(
        &self,
        query: &[i16; DIMS_PADDED],
        cell: u16,
        top: &mut TopK,
        Ghost(seen): Ghost<Seq<(int, u32)>>,
    )
        requires
            self.has_cell(cell as int),
            old(top).wf(),
            old(top).entries() == shortlist(seen, NEIGHBOURS as nat),
        ensures
            final(top).wf(),
            final(top).entries() == shortlist(
                seen + span(
                    self.vector_values(),
                    query@,
                    self.cell_offsets()[cell as int] as int,
                    self.cell_offsets()[cell + 1] as int,
                ),
                NEIGHBOURS as nat,
            ),
    {
        let start: usize = self.offsets[cell as usize] as usize;
        let end: usize = self.offsets[cell as usize + 1] as usize;
        let ghost values = self.vector_values();
        let ghost from = start as int;
        let mut i: usize = start;
        assert(seen + span(values, query@, from, from) =~= seen);
        while i < end
            invariant
                self.has_cell(cell as int),
                values == self.vector_values(),
                start == from,
                start == self.cell_offsets()[cell as int],
                end == self.cell_offsets()[cell + 1],
                start <= i,
                i <= end || end < start && i == start,
                top.wf(),
                top.entries() == shortlist(
                    seen + span(values, query@, from, i as int),
                    NEIGHBOURS as nat,
                ),
            decreases end - i,
        {
            let vector: [i16; DIMS_PADDED] = read_padded(self.vectors, i);
            let dist: i64 = l2_16dims(query.as_slice(), vector.as_slice());
            proof {
                let before = seen + span(values, query@, from, i as int);
                let item = (dist as int, i as u32);
                lemma_shortlist_push(before, item, NEIGHBOURS as nat);
                assert(before.push(item) =~= seen + span(values, query@, from, i + 1));
            }
            top.push(dist, i as u32);
            i = i + 1;
        }
        proof {
            assert(span(values, query@, from, i as int) =~= span(
                values,
                query@,
                from,
                self.cell_offsets()[cell + 1] as int,
            ));
        }
    }

    /// The nearest five of what the given cells hold.
    fn nearest_in(&self, query: &[i16; DIMS_PADDED], cells: &[u16; NPROBE]) -> (top: TopK)
        requires
            forall|c: int| 0 <= c < NPROBE ==> self.has_cell(#[trigger] cells@[c] as int),
        ensures
            top.wf(),
            top.entries() == shortlist(
                met(self.vector_values(), self.cell_offsets(), query@, cells@, NPROBE as nat),
                NEIGHBOURS as nat,
            ),
    {
        let ghost values = self.vector_values();
        let ghost offsets = self.cell_offsets();
        let mut top = TopK::new();
        assert(top.entries() =~= shortlist(
            met(values, offsets, query@, cells@, 0),
            NEIGHBOURS as nat,
        ));
        let mut j: usize = 0;
        while j < NPROBE
            invariant
                0 <= j <= NPROBE,
                cells@.len() == NPROBE,
                forall|c: int| 0 <= c < NPROBE ==> self.has_cell(#[trigger] cells@[c] as int),
                values == self.vector_values(),
                offsets == self.cell_offsets(),
                top.wf(),
                top.entries() == shortlist(
                    met(values, offsets, query@, cells@, j as nat),
                    NEIGHBOURS as nat,
                ),
            decreases NPROBE - j,
        {
            let ghost seen = met(values, offsets, query@, cells@, j as nat);
            self.scan_cell(query, cells[j], &mut top, Ghost(seen));
            j = j + 1;
        }
        top
    }

    /// How many of the entries are frauds; nothing where a label is missing.
    fn count_frauds(&self, top: &TopK) -> (votes: Option<usize>)
        requires
            top.wf(),
        ensures
            match votes {
                Some(count) => {
                    &&& forall|a: int|
                        0 <= a < top.entries().len() ==> (#[trigger] top.entries()[a]).1
                            < self.label_file().len()
                    &&& count == frauds_among(self.label_file(), top.entries())
                    &&& count <= NEIGHBOURS
                },
                None => exists|a: int|
                    0 <= a < top.entries().len() && (#[trigger] top.entries()[a]).1
                        >= self.label_file().len(),
            },
    {
        let ghost entries = top.entries();
        let mut fraud: usize = 0;
        let mut i: usize = 0;
        while i < top.len()
            invariant
                0 <= i <= entries.len(),
                top.wf(),
                top.entries() == entries,
                forall|a: int|
                    0 <= a < i ==> (#[trigger] entries[a]).1 < self.label_file().len(),
                fraud == frauds_among(self.label_file(), entries.take(i as int)),
                fraud <= i,
            decreases entries.len() - i,
        {
            assert(entries.take(i + 1).drop_last() =~= entries.take(i as int));
            let at: usize = top.index(i) as usize;
            if at >= self.labels.len() {
                assert(entries[i as int].1 >= self.label_file().len());
                return None;
            }
            if self.labels[at] == 1 {
                fraud = fraud + 1;
            }
            i = i + 1;
        }
        assert(entries.take(entries.len() as int) =~= entries);
        Some(fraud)
    }

    /// Whether the vectors of a cell are there.
    fn cell_is_there(&self, cell: u16) -> (there: bool)
        ensures
            there == self.has_cell(cell as int),
    {
        let c: usize = cell as usize;
        if self.offsets.len() < 2 || c > self.offsets.len() - 2 {
            return false;
        }
        let end: u32 = self.offsets[c + 1];
        self.offsets[c] >= end || self.vectors.len() / 2 / DIMS_PADDED >= end as usize
    }

    /// How many of the neighbours that a query finds are frauds; nothing where the index lacks
    /// what the query reads.
    pub fn try_fraud_votes(&self, query: &[i16; VECTOR_DIMENSIONS]) -> (votes: Option<usize>)
        ensures
            match votes {
                Some(count) => {
                    &&& self.can_answer(query@)
                    &&& count == frauds_among(self.label_file(), self.neighbours(query@))
                    &&& count == self.neighbours(query@).filter(
                        |e: (int, u32)| self.label_file()[e.1 as int] == 1,
                    ).len()
                    &&& count <= NEIGHBOURS
                },
                None => !self.can_answer(query@),
            },
    {
        if self.centroids.len() / 2 < NLIST * DIMS_PADDED {
            return None;
        }
        let q = pad(query);
        let cells = self.closest_cells(&q);
        let mut j: usize = 0;
        while j < NPROBE
            invariant
                0 <= j <= NPROBE,
                q@ == padded(query@),
                cells@ == probed(self.centroid_values(), q@),
                forall|c: int| 0 <= c < j ==> self.has_cell(#[trigger] cells@[c] as int),
            decreases NPROBE - j,
        {
            if !self.cell_is_there(cells[j]) {
                assert(!self.has_cell(cells@[j as int] as int));
                return None;
            }
            j = j + 1;
        }
        let top = self.nearest_in(&q, &cells);
        let votes = self.count_frauds(&top);
        proof {
            assert(top.entries() == self.neighbours(query@));
            if votes is Some {
                assert forall|c: int| 0 <= c < NPROBE implies self.has_cell(
                    #[trigger] probed(self.centroid_values(), padded(query@))[c] as int,
                ) by {
                    assert(self.has_cell(cells@[c] as int));
                }
                assert(self.has_centroids());
                assert(self.can_answer(query@));
                law_votes_count_every_fraud(self.label_file(), self.neighbours(query@));
            }
        }
        votes
    }

    /// How many of the neighbours that a query finds are frauds.
    pub fn fraud_votes(&self, query: &[i16; VECTOR_DIMENSIONS]) -> (votes: usize)
        requires
            self.can_answer(query@),
        ensures
            votes == frauds_among(self.label_file(), self.neighbours(query@)),
            votes == self.neighbours(query@).filter(
                |e: (int, u32)| self.label_file()[e.1 as int] == 1,
            ).len(),
            votes <= NEIGHBOURS,
    {
        let q = pad(query);
        let cells = self.closest_cells(&q);
        let top = self.nearest_in(&q, &cells);
        proof {
            law_votes_count_every_fraud(self.label_file(), self.neighbours(query@));
        }
        match self.count_frauds(&top) {
            Some(votes) => votes,
            None => 0,
        }
    }

    /// A query finds no more than five neighbours.
    pub proof fn lemma_at_most_five(self, query: Seq<i16>)
        ensures
            self.neighbours(query).len() <= 5,
    {
        let q = padded(query);
        let items = met(
            self.vector_values(),
            self.cell_offsets(),
            q,
            probed(self.centroid_values(), q),
            NPROBE as nat,
        );
        lemma_nearest_sorted(items, 5);
    }

    /// Tables, centroids, vectors and labels fit together.
    pub open spec fn consistent(self) -> bool {
        &&& self.has_centroids()
        &&& NLIST < self.cell_offsets().len()
        &&& forall|c: int| 0 <= c < NLIST ==> #[trigger] self.cell_fits(c)
    }

    /// The vectors and the labels of a cell are there.
    pub open spec fn cell_fits(self, c: int) -> bool {
        self.cell_offsets()[c] < self.cell_offsets()[c + 1] ==> {
            &&& DIMS_PADDED * self.cell_offsets()[c + 1] <= self.vector_values().len()
            &&& self.cell_offsets()[c + 1] <= self.label_file().len()
        }
    }

    /// Whether tables, centroids, vectors and labels fit together.
    pub fn is_consistent(&self) -> (fits: bool)
        ensures
            fits == self.consistent(),
    {
        if self.centroids.len() / 2 < NLIST * DIMS_PADDED || self.offsets.len() <= NLIST {
            return false;
        }
        let mut c: usize = 0;
        while c < NLIST
            invariant
                0 <= c <= NLIST,
                self.has_centroids(),
                NLIST < self.cell_offsets().len(),
                forall|e: int| 0 <= e < c ==> #[trigger] self.cell_fits(e),
            decreases NLIST - c,
        {
            let start: u32 = self.offsets[c];
            let end: u32 = self.offsets[c + 1];
            if start < end {
                if self.vectors.len() / 2 / DIMS_PADDED < end as usize || self.labels.len()
                    < end as usize {
                    assert(!self.cell_fits(c as int));
                    return false;
                }
            }
            c = c + 1;
        }
        true
    }
}

/// What a query meets lies in the cells that it looks at.
proof fn lemma_met_within(
    vectors: Seq<i16>,
    offsets: Seq<u32>,
    query: Seq<i16>,
    cells: Seq<u16>,
    n: nat,
    limit: int,
    a: int,
)
    requires
        0 <= a < met(vectors, offsets, query, cells, n).len(),
        forall|j: int|
            0 <= j < n ==> offsets[#[trigger] cells[j] as int] >= offsets[cells[j] + 1]
                || offsets[cells[j] + 1] <= limit,
    ensures
        met(vectors, offsets, query, cells, n)[a].1 < limit,
    decreases n,
{
    let before = met(vectors, offsets, query, cells, (n - 1) as nat);
    if a < before.len() {
        lemma_met_within(vectors, offsets, query, cells, (n - 1) as nat, limit, a);
    } else {
        let cell = cells[n - 1];
        let from = offsets[cell as int] as int;
        let to = offsets[cell + 1] as int;
        assert(met(vectors, offsets, query, cells, n)[a] == span(vectors, query, from, to)[a
            - before.len()]);
    }
}

/// A query looks at existing cells.
pub proof fn law_probed_cells_exist(centroids: Seq<i16>, query: Seq<i16>, j: int)
    requires
        0 <= j < NPROBE,
    ensures
        probed(centroids, query)[j] < NLIST,
{
    let cells = cell_entries(centroids, query, NLIST as nat);
    lemma_nearest_sorted(cells, NPROBE as nat);
    let c = lemma_nearest_from_items(cells, NPROBE as nat, j);
}

/// A consistent index answers every query.
pub proof fn law_consistent_index_answers(index: IvfIndex, query: Seq<i16>)
    requires
        index.consistent(),
    ensures
        index.can_answer(query),
{
    let q = padded(query);
    let cells = probed(index.centroid_values(), q);
    assert forall|j: int| 0 <= j < NPROBE implies index.has_cell(#[trigger] cells[j] as int) by {
        law_probed_cells_exist(index.centroid_values(), q, j);
        assert(index.cell_fits(cells[j] as int));
    }
    let items = met(index.vector_values(), index.cell_offsets(), q, cells, NPROBE as nat);
    let limit = index.label_file().len() as int;
    assert forall|j: int| 0 <= j < NPROBE implies index.cell_offsets()[#[trigger] cells[j] as int]
        >= index.cell_offsets()[cells[j] + 1] || index.cell_offsets()[cells[j] + 1] <= limit by {
        law_probed_cells_exist(index.centroid_values(), q, j);
        assert(index.cell_fits(cells[j] as int));
    }
    assert forall|a: int| 0 <= a < index.neighbours(query).len() implies (
    #[trigger] index.neighbours(query)[a]).1 < limit by {
        if items.len() < NEIGHBOURS {
            lemma_met_within(
                index.vector_values(),
                index.cell_offsets(),
                q,
                cells,
                NPROBE as nat,
                limit,
                a,
            );
        } else {
            let i = lemma_nearest_from_items(items, NEIGHBOURS as nat, a);
            lemma_met_within(
                index.vector_values(),
                index.cell_offsets(),
                q,
                cells,
                NPROBE as nat,
                limit,
                i,
            );
        }
    }
}

/// The neighbours are the nearest of what a query meets: whatever is left out is at least as
/// far as each of them, and nothing is left out while there are fewer than five.
pub proof fn law_neighbours_are_nearest(index: IvfIndex, query: Seq<i16>, i: int, a: int)
    requires
        0 <= a < index.neighbours(query).len(),
        ({
            let q = padded(query);
            let items = met(
                index.vector_values(),
                index.cell_offsets(),
                q,
                probed(index.centroid_values(), q),
                NPROBE as nat,
            );
            &&& 0 <= i < items.len()
            &&& !index.neighbours(query).contains(items[i])
        }),
    ensures
        ({
            let q = padded(query);
            let items = met(
                index.vector_values(),
                index.cell_offsets(),
                q,
                probed(index.centroid_values(), q),
                NPROBE as nat,
            );
            &&& index.neighbours(query).len() == NEIGHBOURS
            &&& index.neighbours(query)[a].0 <= items[i].0
        }),
{
    let q = padded(query);
    let items = met(
        index.vector_values(),
        index.cell_offsets(),
        q,
        probed(index.centroid_values(), q),
        NPROBE as nat,
    );
    let k = NEIGHBOURS as nat;
    let list = index.neighbours(query);
    if items.len() < k {
        assert(list.contains(items[i]));
    } else {
        lemma_nearest_sorted(items, k);
        law_nearest_k_is_a_ranking(items, k);
        let sel = choose|sel: Seq<int>|
            #[trigger] is_ranking(items, k, sel) && picked(items, sel) == nearest_k(items, k);
        if sel.contains(i) {
            let b = choose|b: int| 0 <= b < sel.len() && sel[b] == i;
            assert(picked(items, sel)[b] == items[i]);
            assert(list.contains(items[i]));
        }
        assert(ranks_before(items, sel[a], i));
        assert(picked(items, sel)[a] == items[sel[a]]);
    }
}

/// The distance from a query to the stored vector at position `i` is the sum of the squares of
/// their sixteen differences.
pub proof fn law_stored_distance(query: Seq<i16>, values: Seq<i16>, i: int)
    requires
        0 <= i,
        16 * i + 16 <= values.len(),
    ensures
        padded_l2(query, padded_row(values, i)) == (query[0] - values[16 * i]) * (query[0] - values[16 * i])
            + (query[1] - values[16 * i + 1]) * (query[1] - values[16 * i + 1])
            + (query[2] - values[16 * i + 2]) * (query[2] - values[16 * i + 2])
            + (query[3] - values[16 * i + 3]) * (query[3] - values[16 * i + 3])
            + (query[4] - values[16 * i + 4]) * (query[4] - values[16 * i + 4])
            + (query[5] - values[16 * i + 5]) * (query[5] - values[16 * i + 5])
            + (query[6] - values[16 * i + 6]) * (query[6] - values[16 * i + 6])
            + (query[7] - values[16 * i + 7]) * (query[7] - values[16 * i + 7])
            + (query[8] - values[16 * i + 8]) * (query[8] - values[16 * i + 8])
            + (query[9] - values[16 * i + 9]) * (query[9] - values[16 * i + 9])
            + (query[10] - values[16 * i + 10]) * (query[10] - values[16 * i + 10])
            + (query[11] - values[16 * i + 11]) * (query[11] - values[16 * i + 11])
            + (query[12] - values[16 * i + 12]) * (query[12] - values[16 * i + 12])
            + (query[13] - values[16 * i + 13]) * (query[13] - values[16 * i + 13])
            + (query[14] - values[16 * i + 14]) * (query[14] - values[16 * i + 14])
            + (query[15] - values[16 * i + 15]) * (query[15] - values[16 * i + 15]),
{
    law_distance_is_the_sum_of_squares(query, padded_row(values, i));
}

/// A query looks at the three cells whose centroids are nearest to it over all sixteen
/// coordinates: they are different cells, the nearest comes first and the lower number among
/// equally near ones, and no cell that is left out is nearer than one of them.
pub proof fn law_probed_cells_are_nearest(centroids: Seq<i16>, query: Seq<i16>)
    requires
        centroids.len() >= 4096 * 16,
    ensures
        ({
            let cells = probed(centroids, query);
            let distance = |c: int|
                (query[0] - centroids[16 * c]) * (query[0] - centroids[16 * c])
                    + (query[1] - centroids[16 * c + 1]) * (query[1] - centroids[16 * c + 1])
                    + (query[2] - centroids[16 * c + 2]) * (query[2] - centroids[16 * c + 2])
                    + (query[3] - centroids[16 * c + 3]) * (query[3] - centroids[16 * c + 3])
                    + (query[4] - centroids[16 * c + 4]) * (query[4] - centroids[16 * c + 4])
                    + (query[5] - centroids[16 * c + 5]) * (query[5] - centroids[16 * c + 5])
                    + (query[6] - centroids[16 * c + 6]) * (query[6] - centroids[16 * c + 6])
                    + (query[7] - centroids[16 * c + 7]) * (query[7] - centroids[16 * c + 7])
                    + (query[8] - centroids[16 * c + 8]) * (query[8] - centroids[16 * c + 8])
                    + (query[9] - centroids[16 * c + 9]) * (query[9] - centroids[16 * c + 9])
                    + (query[10] - centroids[16 * c + 10]) * (query[10] - centroids[16 * c + 10])
                    + (query[11] - centroids[16 * c + 11]) * (query[11] - centroids[16 * c + 11])
                    + (query[12] - centroids[16 * c + 12]) * (query[12] - centroids[16 * c + 12])
                    + (query[13] - centroids[16 * c + 13]) * (query[13] - centroids[16 * c + 13])
                    + (query[14] - centroids[16 * c + 14]) * (query[14] - centroids[16 * c + 14])
                    + (query[15] - centroids[16 * c + 15]) * (query[15] - centroids[16 * c + 15]);
            &&& cells.len() == 3
            &&& forall|j: int| 0 <= j < 3 ==> 0 <= #[trigger] cells[j] < 4096
            &&& cells[0] != cells[1] && cells[1] != cells[2] && cells[0] != cells[2]
            &&& distance(cells[0] as int) <= distance(cells[1] as int) <= distance(cells[2] as int)
            &&& forall|j: int, c: u16|
                #![trigger cells[j], cells.contains(c)]
                0 <= j < 3 && c < 4096 && !cells.contains(c) ==> {
                    ||| distance(cells[j] as int) < distance(c as int)
                    ||| distance(cells[j] as int) == distance(c as int) && cells[j] < c
                }
        }),
{
    let cells = probed(centroids, query);
    let distance = |c: int|
        (query[0] - centroids[16 * c]) * (query[0] - centroids[16 * c])
            + (query[1] - centroids[16 * c + 1]) * (query[1] - centroids[16 * c + 1])
            + (query[2] - centroids[16 * c + 2]) * (query[2] - centroids[16 * c + 2])
            + (query[3] - centroids[16 * c + 3]) * (query[3] - centroids[16 * c + 3])
            + (query[4] - centroids[16 * c + 4]) * (query[4] - centroids[16 * c + 4])
            + (query[5] - centroids[16 * c + 5]) * (query[5] - centroids[16 * c + 5])
            + (query[6] - centroids[16 * c + 6]) * (query[6] - centroids[16 * c + 6])
            + (query[7] - centroids[16 * c + 7]) * (query[7] - centroids[16 * c + 7])
            + (query[8] - centroids[16 * c + 8]) * (query[8] - centroids[16 * c + 8])
            + (query[9] - centroids[16 * c + 9]) * (query[9] - centroids[16 * c + 9])
            + (query[10] - centroids[16 * c + 10]) * (query[10] - centroids[16 * c + 10])
            + (query[11] - centroids[16 * c + 11]) * (query[11] - centroids[16 * c + 11])
            + (query[12] - centroids[16 * c + 12]) * (query[12] - centroids[16 * c + 12])
            + (query[13] - centroids[16 * c + 13]) * (query[13] - centroids[16 * c + 13])
            + (query[14] - centroids[16 * c + 14]) * (query[14] - centroids[16 * c + 14])
            + (query[15] - centroids[16 * c + 15]) * (query[15] - centroids[16 * c + 15]);
    let items = cell_entries(centroids, query, 4096);
    let sel = law_nearest_are_picked_in_order(items, 3);
    assert forall|c: int| 0 <= c < 4096 implies (#[trigger] items[c]).0 == distance(c) && items[c].1
        == c by {
        law_stored_distance(query, centroids, c);
    }
    assert forall|j: int| 0 <= j < 3 implies #[trigger] cells[j] == sel[j] && items[sel[j]].0
        == distance(sel[j]) && 0 <= sel[j] < 4096 by {
        assert(nearest_k(items, 3)[j] == items[sel[j]]);
    }
    assert(cells[0] == sel[0] && cells[1] == sel[1] && cells[2] == sel[2]);
    assert forall|j: int, c: u16|
        #![trigger cells[j], cells.contains(c)]
        0 <= j < 3 && c < 4096 && !cells.contains(c) implies {
        ||| distance(cells[j] as int) < distance(c as int)
        ||| distance(cells[j] as int) == distance(c as int) && cells[j] < c
    } by {
        if sel.contains(c as int) {
            let a = choose|a: int| 0 <= a < sel.len() && sel[a] == c as int;
            assert(cells[a] == c);
        }
        assert(items[c as int].0 == distance(c as int));
        assert(items[sel[j]].0 == distance(sel[j]));
    }
}

/// A query meets every vector of the three cells that it looks at, cell by cell and in order of
/// position, each with its distance over all sixteen coordinates, and nothing else.
pub proof fn law_query_meets_its_cells(
    vectors: Seq<i16>,
    offsets: Seq<u32>,
    query: Seq<i16>,
    cells: Seq<u16>,
)
    requires
        cells.len() == 3,
        forall|j: int|
            0 <= j < 3 ==> offsets[#[trigger] cells[j] as int] >= offsets[cells[j] + 1] || 16
                * offsets[cells[j] + 1] <= vectors.len(),
    ensures
        ({
            let distance = |i: int|
                (query[0] - vectors[16 * i]) * (query[0] - vectors[16 * i])
                    + (query[1] - vectors[16 * i + 1]) * (query[1] - vectors[16 * i + 1])
                    + (query[2] - vectors[16 * i + 2]) * (query[2] - vectors[16 * i + 2])
                    + (query[3] - vectors[16 * i + 3]) * (query[3] - vectors[16 * i + 3])
                    + (query[4] - vectors[16 * i + 4]) * (query[4] - vectors[16 * i + 4])
                    + (query[5] - vectors[16 * i + 5]) * (query[5] - vectors[16 * i + 5])
                    + (query[6] - vectors[16 * i + 6]) * (query[6] - vectors[16 * i + 6])
                    + (query[7] - vectors[16 * i + 7]) * (query[7] - vectors[16 * i + 7])
                    + (query[8] - vectors[16 * i + 8]) * (query[8] - vectors[16 * i + 8])
                    + (query[9] - vectors[16 * i + 9]) * (query[9] - vectors[16 * i + 9])
                    + (query[10] - vectors[16 * i + 10]) * (query[10] - vectors[16 * i + 10])
                    + (query[11] - vectors[16 * i + 11]) * (query[11] - vectors[16 * i + 11])
                    + (query[12] - vectors[16 * i + 12]) * (query[12] - vectors[16 * i + 12])
                    + (query[13] - vectors[16 * i + 13]) * (query[13] - vectors[16 * i + 13])
                    + (query[14] - vectors[16 * i + 14]) * (query[14] - vectors[16 * i + 14])
                    + (query[15] - vectors[16 * i + 15]) * (query[15] - vectors[16 * i + 15]);
            let part = |c: int|
                Seq::new(
                    if offsets[c] < offsets[c + 1] {
                        (offsets[c + 1] - offsets[c]) as nat
                    } else {
                        0
                    },
                    |i: int| (distance(offsets[c] + i), (offsets[c] + i) as u32),
                );
            met(vectors, offsets, query, cells, 3) == part(cells[0] as int) + part(cells[1] as int)
                + part(cells[2] as int)
        }),
{
    let distance = |i: int|
        (query[0] - vectors[16 * i]) * (query[0] - vectors[16 * i])
            + (query[1] - vectors[16 * i + 1]) * (query[1] - vectors[16 * i + 1])
            + (query[2] - vectors[16 * i + 2]) * (query[2] - vectors[16 * i + 2])
            + (query[3] - vectors[16 * i + 3]) * (query[3] - vectors[16 * i + 3])
            + (query[4] - vectors[16 * i + 4]) * (query[4] - vectors[16 * i + 4])
            + (query[5] - vectors[16 * i + 5]) * (query[5] - vectors[16 * i + 5])
            + (query[6] - vectors[16 * i + 6]) * (query[6] - vectors[16 * i + 6])
            + (query[7] - vectors[16 * i + 7]) * (query[7] - vectors[16 * i + 7])
            + (query[8] - vectors[16 * i + 8]) * (query[8] - vectors[16 * i + 8])
            + (query[9] - vectors[16 * i + 9]) * (query[9] - vectors[16 * i + 9])
            + (query[10] - vectors[16 * i + 10]) * (query[10] - vectors[16 * i + 10])
            + (query[11] - vectors[16 * i + 11]) * (query[11] - vectors[16 * i + 11])
            + (query[12] - vectors[16 * i + 12]) * (query[12] - vectors[16 * i + 12])
            + (query[13] - vectors[16 * i + 13]) * (query[13] - vectors[16 * i + 13])
            + (query[14] - vectors[16 * i + 14]) * (query[14] - vectors[16 * i + 14])
            + (query[15] - vectors[16 * i + 15]) * (query[15] - vectors[16 * i + 15]);
    let part = |c: int|
        Seq::new(
            if offsets[c] < offsets[c + 1] {
                (offsets[c + 1] - offsets[c]) as nat
            } else {
                0
            },
            |i: int| (distance(offsets[c] + i), (offsets[c] + i) as u32),
        );
    reveal_with_fuel(met, 4);
    assert forall|j: int| 0 <= j < 3 implies part(#[trigger] cells[j] as int) == span(
        vectors,
        query,
        offsets[cells[j] as int] as int,
        offsets[cells[j] + 1] as int,
    ) by {
        let c = cells[j] as int;
        let listed = span(vectors, query, offsets[c] as int, offsets[c + 1] as int);
        assert forall|i: int| 0 <= i < listed.len() implies part(c)[i] == listed[i] by {
            law_stored_distance(query, vectors, offsets[c] + i);
        }
        assert(part(c) =~= listed);
    }
    assert(met(vectors, offsets, query, cells, 3) =~= part(cells[0] as int) + part(cells[1] as int)
        + part(cells[2] as int));
}

/// The votes of some entries are counted entry by entry: as many as there are entries whose
/// label is 1.
pub proof fn law_votes_count_every_fraud(labels: Seq<u8>, entries: Seq<(int, u32)>)
    ensures
        frauds_among(labels, entries) == entries.filter(
            |e: (int, u32)| labels[e.1 as int] == 1,
        ).len(),
    decreases entries.len(),
{
    reveal(Seq::filter);
    if entries.len() > 0 {
        law_votes_count_every_fraud(labels, entries.drop_last());
    }
}

/// Of what a query meets in its three cells, the five nearest vote, or all of it where there is
/// less: `sel` lists where they stand among what is met. They are different places, nothing
/// that is left out is nearer, and every one of them with label 1 is a vote.
pub proof fn law_nearest_five_vote(index: IvfIndex, query: Seq<i16>) -> (sel: Seq<int>)
    requires
        query.len() == 14,
        index.can_answer(query),
    ensures
        ({
            let cells = probed(index.centroid_values(), query + seq![0i16, 0i16]);
            let items = met(
                index.vector_values(),
                index.cell_offsets(),
                query + seq![0i16, 0i16],
                cells,
                3,
            );
            let list = index.neighbours(query);
            &&& list.len() == sel.len()
            &&& items.len() < 5 ==> list == items
            &&& items.len() >= 5 ==> sel.len() == 5
            &&& forall|a: int|
                0 <= a < sel.len() ==> 0 <= #[trigger] sel[a] < items.len() && list[a]
                    == items[sel[a]]
            &&& forall|a: int, b: int|
                0 <= a < b < sel.len() ==> #[trigger] sel[a] != #[trigger] sel[b]
            &&& forall|a: int, j: int|
                #![trigger sel[a], items[j]]
                0 <= a < sel.len() && 0 <= j < items.len() && !sel.contains(j) ==> items[sel[a]].0
                    <= items[j].0
            &&& frauds_among(index.label_file(), list) == list.filter(
                |e: (int, u32)| index.label_file()[e.1 as int] == 1,
            ).len()
        }),
{
    let q = query + seq![0i16, 0i16];
    assert(padded(query) =~= q);
    let cells = probed(index.centroid_values(), q);
    let items = met(index.vector_values(), index.cell_offsets(), q, cells, 3);
    law_votes_count_every_fraud(index.label_file(), index.neighbours(query));
    if items.len() < 5 {
        let sel = Seq::new(items.len(), |a: int| a);
        assert forall|j: int| 0 <= j < items.len() implies sel.contains(j) by {
            assert(sel[j] == j);
        }
        sel
    } else {
        law_nearest_are_picked_in_order(items, 5)
    }
}

/// An index fits together exactly if it has 4096 centroids of sixteen numbers, a table with an
/// entry for each cell and one more, and for each cell with vectors all of them and their labels.
pub proof fn law_consistent_index_fits_together(index: IvfIndex)
    ensures
        index.consistent() <==> {
            let starts = index.cell_offsets();
            &&& 65536 <= index.centroid_values().len()
            &&& 4097 <= starts.len()
            &&& forall|c: int|
                #![trigger starts[c]]
                0 <= c < 4096 && starts[c] < starts[c + 1] ==> 16 * starts[c + 1]
                    <= index.vector_values().len() && starts[c + 1] <= index.label_file().len()
        },
{
    let starts = index.cell_offsets();
    if index.consistent() {
        assert forall|c: int| #![trigger starts[c]] 0 <= c < 4096 implies index.cell_fits(c) by {}
    } else {
        assert forall|c: int| 0 <= c < 4096 && !#[trigger] index.cell_fits(c) implies starts[c]
            == starts[c] by {}
    }
}

} // verus!
