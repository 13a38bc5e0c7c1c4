//! The five nearest vectors met so far.

use vstd::prelude::*;

use crate::nearest::{
    extended, lemma_nearest_of_sorted, lemma_slot_step, lemma_sorted_prefix_grows, nearest_k, slot,
    stable_sorted,
};

verus! {

/// How many neighbours vote.
pub const NEIGHBOURS: usize = 5;

/// Distances and vector indices of the nearest vectors met so far.
pub struct TopK {
    dists: [i64; 5],
    indices: [u32; 5],
    len: usize,
}

impl TopK {
    /// No more than five entries are held.
    pub closed spec fn wf(self) -> bool {
        self.len <= 5
    }

    /// The entries held: distance and vector index.
    pub closed spec fn entries(self) -> Seq<(int, u32)> {
        Seq::new(self.len as nat, |i: int| (self.dists@[i] as int, self.indices@[i]))
    }

    /// The slots behind the entries, which are still to be filled.
    pub closed spec fn spare(self) -> Seq<(int, u32)> {
        Seq::new(
            (5 - self.len) as nat,
            |i: int| (self.dists@[self.len + i] as int, self.indices@[self.len + i]),
        )
    }

    /// Holds nothing.
    pub fn new() -> (top: Self)
        ensures
            top.wf(),
            top.entries() == Seq::<(int, u32)>::empty(),
            top.spare() == Seq::new(5, |i: int| (i64::MAX as int, 0u32)),
    {
        let top = TopK { dists: [i64::MAX; 5], indices: [0u32; 5], len: 0 };
        assert(top.spare() =~= Seq::new(5, |i: int| (i64::MAX as int, 0u32)));
        assert(top.entries() =~= Seq::<(int, u32)>::empty());
        top
    }

    /// How many entries are held.
    pub fn len(&self) -> (n: usize)
        requires
            self.wf(),
        ensures
            n == self.entries().len(),
            n <= 5,
    {
        self.len
    }

    /// The vector index of the entry at `i`.
    pub fn index(&self, i: usize) -> (idx: u32)
        requires
            self.wf(),
            i < self.entries().len(),
        ensures
            idx == self.entries()[i as int].1,
    {
        self.indices[i]
    }

    /// Takes a vector into account.
    pub fn push(&mut self, dist: i64, idx: u32)
        requires
            old(self).wf(),
        ensures
            final(self).wf(),
            final(self).entries() == extended(old(self).entries(), (dist as int, idx), 5),
            final(self).spare() == if old(self).entries().len() < 5 {
                old(self).spare().skip(1)
            } else {
                old(self).spare()
            },
    {
        let ghost list = self.entries();
        if self.len < 5 {
            self.dists[self.len] = dist;
            self.indices[self.len] = idx;
            self.len = self.len + 1;
            assert(self.entries() =~= list.push((dist as int, idx)));
            assert(self.spare() =~= old(self).spare().skip(1));
            if self.len == 5 {
                self.sort();
            }
        } else if dist < self.dists[4] {
            assert(list.last() == (self.dists@[4] as int, self.indices@[4]));
            self.dists[4] = dist;
            self.indices[4] = idx;
            assert(self.entries() =~= list.drop_last().push((dist as int, idx)));
            assert(self.spare() =~= old(self).spare());
            self.sort();
        } else {
            assert(list.last() == (self.dists@[4] as int, self.indices@[4]));
        }
    }

    /// Sorts the entries by distance; entries at equal distance keep their order, and the
    /// slots behind them stay as they are.
    pub fn sort(&mut self)
        requires
            old(self).wf(),
        ensures
            final(self).wf(),
            final(self).entries() == stable_sorted(old(self).entries()),
            final(self).spare() == old(self).spare(),
    {
        let n: usize = self.len;
        let ghost items = self.entries();
        let ghost spare = self.spare();
        if n == 0 {
            return ;
        }
        proof {
            lemma_nearest_of_sorted(items.take(1), n as nat);
            assert(items =~= items.take(1) + items.skip(1));
        }
        let mut i: usize = 1;
        while i < n
            invariant
                1 <= i <= n <= 5,
                self.len == n,
                items.len() == n,
                self.spare() == spare,
                self.entries() == nearest_k(items.take(i as int), n as nat) + items.skip(i as int),
            decreases n - i,
        {
            let ghost s = nearest_k(items.take(i as int), n as nat);
            proof {
                lemma_sorted_prefix_grows(items, i as int, n as nat);
                assert(self.entries()[i as int] == items[i as int]);
                assert(self.entries() =~= s.insert(i as int, items[i as int]) + items.skip(i + 1));
                assert(s.take(i as int) =~= s);
            }
            let dist: i64 = self.dists[i];
            let idx: u32 = self.indices[i];
            let mut j: usize = i;
            while j > 0 && self.dists[j] < self.dists[j - 1]
                invariant
                    0 <= j <= i < n <= 5,
                    self.len == n,
                    items.len() == n,
                    self.spare() == spare,
                    s.len() == i,
                    items[i as int] == (dist as int, idx),
                    self.dists@[j as int] == dist,
                    self.indices@[j as int] == idx,
                    self.entries() == s.insert(j as int, items[i as int]) + items.skip(i + 1),
                    slot(s.take(j as int), dist as int) == slot(s, dist as int),
                decreases j,
            {
                let previous_dist: i64 = self.dists[j - 1];
                let previous_idx: u32 = self.indices[j - 1];
                let ghost before = self.entries();
                proof {
                    assert(before[j - 1] == s[j - 1]);
                    lemma_slot_step(s, dist as int, j as int);
                }
                self.dists[j] = previous_dist;
                self.dists[j - 1] = dist;
                self.indices[j] = previous_idx;
                self.indices[j - 1] = idx;
                j = j - 1;
                proof {
                    assert(self.spare() =~= spare);
                    let after = s.insert(j as int, items[i as int]) + items.skip(i + 1);
                    assert forall|a: int| 0 <= a < n implies self.entries()[a] == after[a] by {
                        if a != j && a != j + 1 {
                            assert(self.entries()[a] == before[a]);
                        }
                    }
                    assert(self.entries() =~= after);
                }
            }
            proof {
                if j > 0 {
                    assert(self.entries()[j - 1] == s[j - 1]);
                }
                lemma_slot_step(s, dist as int, j as int);
            }
            i = i + 1;
        }
        proof {
            assert(items.take(n as int) =~= items);
            assert(self.entries() =~= nearest_k(items, n as nat));
        }
    }
}

} // verus!
