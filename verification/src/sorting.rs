//! Putting positions in order of their keys.

use vstd::prelude::*;

use crate::nearest::{
    is_ranking, law_nearest_k_is_a_ranking, law_ranking_is_unique, lemma_nearest_sorted, picked,
    ranks_before, stable_sorted,
};

verus! {

/// Each key with its position.
pub open spec fn positioned(keys: Seq<u64>) -> Seq<(int, int)> {
    Seq::new(keys.len(), |i: int| (keys[i] as int, i))
}

/// The positions of `keys` in order of key, the earlier one first among equal keys.
pub open spec fn order(keys: Seq<u64>) -> Seq<int> {
    Seq::new(keys.len(), |a: int| stable_sorted(positioned(keys))[a].1)
}

/// Positions as integers.
pub open spec fn as_positions(list: Seq<usize>) -> Seq<int> {
    Seq::new(list.len(), |a: int| list[a] as int)
}

/// What `order` is: each position once, ranked by key and position.
pub proof fn law_order_ranks_all(keys: Seq<u64>)
    ensures
        is_ranking(positioned(keys), keys.len(), order(keys)),
        forall|i: int| 0 <= i < keys.len() ==> #[trigger] order(keys).contains(i),
{
    let items = positioned(keys);
    law_nearest_k_is_a_ranking(items, items.len());
    let sel = choose|sel: Seq<int>|
        #[trigger] is_ranking(items, items.len(), sel) && picked(items, sel) == stable_sorted(items);
    lemma_nearest_sorted(items, items.len());
    assert(order(keys) =~= sel) by {
        assert forall|a: int| 0 <= a < keys.len() implies order(keys)[a] == sel[a] by {
            assert(picked(items, sel)[a] == items[sel[a]]);
        }
    }
    assert forall|i: int| 0 <= i < keys.len() implies #[trigger] order(keys).contains(i) by {
        lemma_ranking_lists_all(items, sel, i);
    }
}

/// A ranking of all entries lists each position.
proof fn lemma_ranking_lists_all<T>(items: Seq<(int, T)>, sel: Seq<int>, i: int)
    requires
        is_ranking(items, items.len(), sel),
        0 <= i < items.len(),
    ensures
        sel.contains(i),
{
    if !sel.contains(i) {
        let n = items.len();
        assert(sel.no_duplicates()) by {
            assert forall|a: int, b: int|
                0 <= a < sel.len() && 0 <= b < sel.len() && a != b implies sel[a] != sel[b] by {
                if a < b {
                    assert(ranks_before(items, sel[a], sel[b]));
                } else {
                    assert(ranks_before(items, sel[b], sel[a]));
                }
            }
        }
        sel.unique_seq_to_set();
        let all = vstd::set_lib::set_int_range(0, n as int);
        vstd::set_lib::lemma_int_range(0, n as int);
        assert(sel.to_set().insert(i).subset_of(all));
        vstd::set_lib::lemma_len_subset(sel.to_set().insert(i), all);
        assert(!sel.to_set().contains(i));
        assert(sel.to_set().insert(i).len() == n + 1);
    }
}

/// Rank order of entries: by key, then by position.
pub open spec fn entry_before(a: (u64, usize), b: (u64, usize)) -> bool {
    a.0 < b.0 || (a.0 == b.0 && a.1 < b.1)
}

/// Entries in rank order, without repetition.
pub open spec fn ranked(list: Seq<(u64, usize)>) -> bool {
    forall|a: int, b: int|
        0 <= a < b < list.len() ==> entry_before(#[trigger] list[a], #[trigger] list[b])
}

/// `list` holds entries of positions `lo..hi` only.
pub open spec fn drawn_from(keys: Seq<u64>, lo: int, hi: int, list: Seq<(u64, usize)>) -> bool {
    forall|a: int|
        #![trigger list[a]]
        0 <= a < list.len() ==> lo <= list[a].1 < hi && list[a].0 == keys[list[a].1 as int]
}

/// `list` holds all entries of positions `lo..hi`, in rank order.
pub open spec fn sorts(keys: Seq<u64>, lo: int, hi: int, list: Seq<(u64, usize)>) -> bool {
    &&& list.len() == hi - lo
    &&& ranked(list)
    &&& drawn_from(keys, lo, hi, list)
    &&& forall|i: int| #![trigger keys[i]] lo <= i < hi ==> list.contains((keys[i], i as usize))
}

/// Merges the sorted entries of two neighbouring ranges of positions.
#[verifier::rlimit(30)]
fn merge(
    left: &Vec<(u64, usize)>,
    right: &Vec<(u64, usize)>,
    Ghost(keys): Ghost<Seq<u64>>,
    Ghost(lo): Ghost<int>,
    Ghost(mid): Ghost<int>,
    Ghost(hi): Ghost<int>,
) -> (out: Vec<(u64, usize)>)
    requires
        lo <= mid <= hi <= usize::MAX,
        sorts(keys, lo, mid, left@),
        sorts(keys, mid, hi, right@),
    ensures
        sorts(keys, lo, hi, out@),
{
    let mut out: Vec<(u64, usize)> = Vec::new();
    let mut i: usize = 0;
    let mut j: usize = 0;
    while i < left.len() || j < right.len()
        invariant
            lo <= mid <= hi <= usize::MAX,
            sorts(keys, lo, mid, left@),
            sorts(keys, mid, hi, right@),
            0 <= i <= left@.len(),
            0 <= j <= right@.len(),
            out@.len() == i + j,
            ranked(out@),
            drawn_from(keys, lo, hi, out@),
            forall|a: int| 0 <= a < i ==> out@.contains(#[trigger] left@[a]),
            forall|a: int| 0 <= a < j ==> out@.contains(#[trigger] right@[a]),
            forall|c: int, a: int|
                0 <= c < out@.len() && i <= a < left@.len() ==> entry_before(
                    #[trigger] out@[c],
                    #[trigger] left@[a],
                ),
            forall|c: int, a: int|
                0 <= c < out@.len() && j <= a < right@.len() ==> entry_before(
                    #[trigger] out@[c],
                    #[trigger] right@[a],
                ),
        decreases left@.len() - i + right@.len() - j,
    {
        let ghost before = out@;
        let take_left: bool = if i == left.len() {
            false
        } else if j == right.len() {
            true
        } else {
            left[i].0 <= right[j].0
        };
        if take_left {
            let next: (u64, usize) = left[i];
            out.push(next);
            i = i + 1;
        } else {
            let next: (u64, usize) = right[j];
            out.push(next);
            j = j + 1;
        }
        proof {
            assert(out@[before.len() as int] == out@.last());
            assert forall|x: (u64, usize)| before.contains(x) implies out@.contains(x) by {
                let c = choose|c: int| 0 <= c < before.len() && before[c] == x;
                assert(out@[c] == x);
            }
            assert(forall|c: int| 0 <= c < before.len() ==> out@[c] == before[c]);
            if take_left {
                assert forall|a: int| 0 <= a < i implies out@.contains(#[trigger] left@[a]) by {
                    if a == i - 1 {
                        assert(out@[before.len() as int] == left@[a]);
                    } else {
                        assert(before.contains(left@[a]));
                    }
                }
                if j < right@.len() {
                    assert(entry_before(left@[i - 1], right@[j as int]));
                }
            } else {
                assert forall|a: int| 0 <= a < j implies out@.contains(#[trigger] right@[a]) by {
                    if a == j - 1 {
                        assert(out@[before.len() as int] == right@[a]);
                    } else {
                        assert(before.contains(right@[a]));
                    }
                }
                if i < left@.len() {
                    assert(entry_before(right@[j - 1], left@[i as int]));
                }
            }
        }
    }
    proof {
        assert forall|p: int|
            #![trigger keys[p]]
            lo <= p < hi implies out@.contains((keys[p], p as usize)) by {
            if p < mid {
                assert(left@.contains((keys[p], p as usize)));
            } else {
                assert(right@.contains((keys[p], p as usize)));
            }
        }
    }
    out
}

/// Sorts the entries of positions `lo..hi` by merging.
fn sort_range(keys: &[u64], lo: usize, hi: usize) -> (out: Vec<(u64, usize)>)
    requires
        lo < hi <= keys@.len(),
    ensures
        sorts(keys@, lo as int, hi as int, out@),
    decreases hi - lo,
{
    if hi - lo == 1 {
        let mut out: Vec<(u64, usize)> = Vec::new();
        out.push((keys[lo], lo));
        assert(out@[0] == (keys@[lo as int], lo));
        return out;
    }
    let mid: usize = lo + (hi - lo) / 2;
    let left = sort_range(keys, lo, mid);
    let right = sort_range(keys, mid, hi);
    merge(&left, &right, Ghost(keys@), Ghost(lo as int), Ghost(mid as int), Ghost(hi as int))
}

/// The positions of `keys` in order of key, the earlier one first among equal keys.
pub fn sorted_positions(keys: &[u64]) -> (list: Vec<usize>)
    ensures
        as_positions(list@) == order(keys@),
        list@.len() == keys@.len(),
        forall|a: int| 0 <= a < list@.len() ==> #[trigger] list@[a] == order(keys@)[a],
{
    let mut list: Vec<usize> = Vec::new();
    if keys.len() == 0 {
        assert(as_positions(list@) =~= order(keys@));
        return list;
    }
    let entries = sort_range(keys, 0, keys.len());
    let mut a: usize = 0;
    while a < entries.len()
        invariant
            0 <= a <= entries@.len(),
            list@.len() == a,
            forall|b: int| 0 <= b < a ==> #[trigger] list@[b] == entries@[b].1,
        decreases entries@.len() - a,
    {
        list.push(entries[a].1);
        a = a + 1;
    }
    proof {
        let items = positioned(keys@);
        let sel = as_positions(list@);
        assert forall|x: int, y: int| 0 <= x < y < sel.len() implies ranks_before(
            items,
            #[trigger] sel[x],
            #[trigger] sel[y],
        ) by {
            assert(entry_before(entries@[x], entries@[y]));
        }
        assert forall|x: int, j: int|
            0 <= x < sel.len() && 0 <= j < items.len() && !sel.contains(j) implies #[trigger] ranks_before(
            items,
            sel[x],
            j,
        ) by {
            assert(entries@.contains((keys@[j], j as usize)));
            let c = choose|c: int| 0 <= c < entries@.len() && entries@[c] == (keys@[j], j as usize);
            assert(sel[c] == j);
        }
        assert forall|x: int| 0 <= x < sel.len() implies 0 <= #[trigger] sel[x] < items.len() by {
            assert(entries@[x].1 < keys@.len());
        }
        law_ranking_is_unique(items, items.len(), sel);
        law_order_ranks_all(keys@);
        assert(sel == order(keys@));
    }
    list
}

/// Positions are put in order of their keys, each of them once, the earlier one first among equal
/// keys.
pub proof fn law_order_is_by_key(keys: Seq<u64>)
    ensures
        order(keys).len() == keys.len(),
        forall|a: int| 0 <= a < keys.len() ==> 0 <= #[trigger] order(keys)[a] < keys.len(),
        forall|i: int| 0 <= i < keys.len() ==> #[trigger] order(keys).contains(i),
        forall|a: int, b: int|
            0 <= a < b < keys.len() ==> {
                ||| keys[#[trigger] order(keys)[a]] < keys[#[trigger] order(keys)[b]]
                ||| keys[order(keys)[a]] == keys[order(keys)[b]] && order(keys)[a] < order(keys)[b]
            },
{
    law_order_ranks_all(keys);
    let items = positioned(keys);
    let sel = order(keys);
    assert forall|a: int, b: int| 0 <= a < b < keys.len() implies {
        ||| keys[#[trigger] sel[a]] < keys[#[trigger] sel[b]]
        ||| keys[sel[a]] == keys[sel[b]] && sel[a] < sel[b]
    } by {
        assert(ranks_before(items, sel[a], sel[b]));
        assert(items[sel[a]].0 == keys[sel[a]] && items[sel[b]].0 == keys[sel[b]]);
    }
}

} // verus!
