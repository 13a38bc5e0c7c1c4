//! Ranking by distance: what "the `k` nearest" means, and a stable sort that meets it.

use vstd::prelude::*;

verus! {

/// Keys never decrease along `s`.
pub open spec fn sorted_by_key<T>(s: Seq<(int, T)>) -> bool {
    forall|a: int, b: int| 0 <= a <= b < s.len() ==> (#[trigger] s[a]).0 <= (#[trigger] s[b]).0
}

/// Where an entry of key `key` settles when it enters `s` from the back and
/// passes every entry whose key is strictly greater.
pub open spec fn slot<T>(s: Seq<(int, T)>, key: int) -> int
    decreases s.len(),
{
    if s.len() > 0 && key < s.last().0 {
        slot(s.drop_last(), key)
    } else {
        s.len() as int
    }
}

/// `s` with `item` settled among its entries, cut back to the first `k`.
pub open spec fn admit_item<T>(s: Seq<(int, T)>, item: (int, T), k: nat) -> Seq<(int, T)> {
    let t = s.insert(slot(s, item.0), item);
    if t.len() > k {
        t.take(k as int)
    } else {
        t
    }
}

/// The `k` entries of smallest key, in order of key, the earlier entry first
/// among equal keys; all entries where there are fewer than `k`.
pub open spec fn nearest_k<T>(items: Seq<(int, T)>, k: nat) -> Seq<(int, T)>
    decreases items.len(),
{
    if items.len() == 0 {
        Seq::empty()
    } else {
        admit_item(nearest_k(items.drop_last(), k), items.last(), k)
    }
}

/// All entries in order of key, the earlier entry first among equal keys.
pub open spec fn stable_sorted<T>(items: Seq<(int, T)>) -> Seq<(int, T)> {
    nearest_k(items, items.len())
}

/// Position `i` ranks before position `j`: by key, then by position.
pub open spec fn ranks_before<T>(items: Seq<(int, T)>, i: int, j: int) -> bool {
    items[i].0 < items[j].0 || (items[i].0 == items[j].0 && i < j)
}

/// `sel` lists the positions of the `k` best ranked entries of `items`, in rank order.
pub open spec fn is_ranking<T>(items: Seq<(int, T)>, k: nat, sel: Seq<int>) -> bool {
    &&& sel.len() == if items.len() < k { items.len() } else { k }
    &&& forall|a: int| 0 <= a < sel.len() ==> 0 <= #[trigger] sel[a] < items.len()
    &&& forall|a: int, b: int| 0 <= a < b < sel.len() ==> ranks_before(items, #[trigger] sel[a], #[trigger] sel[b])
    &&& forall|a: int, j: int|
        0 <= a < sel.len() && 0 <= j < items.len() && !sel.contains(j)
            ==> #[trigger] ranks_before(items, sel[a], j)
}

/// The entries that `sel` points at.
pub open spec fn picked<T>(items: Seq<(int, T)>, sel: Seq<int>) -> Seq<(int, T)> {
    Seq::new(sel.len(), |a: int| items[sel[a]])
}

pub proof fn lemma_slot<T>(s: Seq<(int, T)>, key: int)
    requires
        sorted_by_key(s),
    ensures
        0 <= slot(s, key) <= s.len(),
        forall|a: int| 0 <= a < slot(s, key) ==> (#[trigger] s[a]).0 <= key,
        forall|a: int| slot(s, key) <= a < s.len() ==> key < (#[trigger] s[a]).0,
    decreases s.len(),
{
    if s.len() > 0 && key < s.last().0 {
        let t = s.drop_last();
        assert(sorted_by_key(t));
        lemma_slot(t, key);
        assert forall|a: int| 0 <= a < slot(s, key) implies (#[trigger] s[a]).0 <= key by {
            assert(t[a] == s[a]);
        }
        assert forall|a: int| slot(s, key) <= a < s.len() implies key < (#[trigger] s[a]).0 by {
            if a < t.len() {
                assert(t[a] == s[a]);
            }
        }
    }
}

pub proof fn lemma_slot_bounds<T>(s: Seq<(int, T)>, key: int)
    ensures
        0 <= slot(s, key) <= s.len(),
    decreases s.len(),
{
    if s.len() > 0 && key < s.last().0 {
        lemma_slot_bounds(s.drop_last(), key);
    }
}

pub proof fn lemma_admit_sorted<T>(s: Seq<(int, T)>, item: (int, T), k: nat)
    requires
        sorted_by_key(s),
    ensures
        sorted_by_key(admit_item(s, item, k)),
{
    lemma_slot(s, item.0);
    let p = slot(s, item.0);
    let t = s.insert(p, item);
    assert forall|a: int, b: int| 0 <= a <= b < t.len() implies (#[trigger] t[a]).0 <= (#[trigger] t[b]).0 by {
        let sa = if a < p { a } else { a - 1 };
        let sb = if b < p { b } else { b - 1 };
        if a != p {
            assert(t[a] == s[sa]);
        }
        if b != p {
            assert(t[b] == s[sb]);
        }
    }
}

pub proof fn lemma_nearest_sorted<T>(items: Seq<(int, T)>, k: nat)
    ensures
        sorted_by_key(nearest_k(items, k)),
        nearest_k(items, k).len() == if items.len() < k { items.len() } else { k },
    decreases items.len(),
{
    if items.len() > 0 {
        lemma_nearest_sorted(items.drop_last(), k);
        let s = nearest_k(items.drop_last(), k);
        lemma_admit_sorted(s, items.last(), k);
        lemma_slot(s, items.last().0);
    }
}

/// One more entry: the ranking is updated by admitting it.
pub proof fn lemma_nearest_push<T>(items: Seq<(int, T)>, x: (int, T), k: nat)
    ensures
        nearest_k(items.push(x), k) == admit_item(nearest_k(items, k), x, k),
{
    assert(items.push(x).drop_last() =~= items);
}

/// A sorted sequence is its own ranking.
pub proof fn lemma_nearest_of_sorted<T>(s: Seq<(int, T)>, k: nat)
    requires
        sorted_by_key(s),
        s.len() <= k,
    ensures
        nearest_k(s, k) == s,
    decreases s.len(),
{
    if s.len() > 0 {
        let t = s.drop_last();
        assert(sorted_by_key(t));
        lemma_nearest_of_sorted(t, k);
        if t.len() > 0 {
            assert(t.last() == s[s.len() - 2]);
        }
        assert(t.insert(t.len() as int, s.last()) =~= s);
    } else {
        assert(s =~= Seq::empty());
    }
}

/// A full ranking does not move when an entry at least as far as its last one arrives.
pub proof fn lemma_far_item_is_ignored<T>(s: Seq<(int, T)>, item: (int, T), k: nat)
    requires
        s.len() == k,
        k > 0 ==> s.last().0 <= item.0,
    ensures
        admit_item(s, item, k) == s,
{
    if k > 0 {
        assert(s.insert(s.len() as int, item).take(k as int) =~= s);
    } else {
        assert(admit_item(s, item, k) =~= s);
    }
}

/// Nearer entry, full ranking: the last one leaves, the new one settles.
pub proof fn lemma_near_item_replaces_last<T>(s: Seq<(int, T)>, item: (int, T), k: nat)
    requires
        s.len() == k,
        k > 0,
        item.0 < s.last().0,
    ensures
        admit_item(s, item, k) == s.drop_last().insert(slot(s.drop_last(), item.0), item),
{
    let t = s.drop_last();
    let p = slot(t, item.0);
    lemma_slot_bounds(t, item.0);
    assert(slot(s, item.0) == p);
    assert(s.insert(p, item).take(k as int) =~= t.insert(p, item));
}

/// Entries that are all at least as far as the last of a full ranking change nothing.
pub proof fn lemma_far_items_are_ignored<T>(items: Seq<(int, T)>, more: Seq<(int, T)>, k: nat)
    requires
        k > 0,
        items.len() >= k,
        forall|j: int|
            0 <= j < more.len() ==> nearest_k(items, k).last().0 <= (#[trigger] more[j]).0,
    ensures
        nearest_k(items + more, k) == nearest_k(items, k),
    decreases more.len(),
{
    if more.len() == 0 {
        assert(items + more =~= items);
    } else {
        let less = more.drop_last();
        assert forall|j: int| 0 <= j < less.len() implies nearest_k(items, k).last().0 <= (
        #[trigger] less[j]).0 by {
            assert(less[j] == more[j]);
        }
        lemma_far_items_are_ignored(items, less, k);
        assert((items + more).drop_last() =~= items + less);
        lemma_nearest_sorted(items, k);
        assert(more.last() == more[more.len() - 1]);
        lemma_far_item_is_ignored(nearest_k(items, k), more.last(), k);
    }
}

/// Writes the ranking down position by position.
#[verifier::rlimit(30)]
proof fn lemma_ranking_exists<T>(items: Seq<(int, T)>, k: nat) -> (sel: Seq<int>)
    ensures
        is_ranking(items, k, sel),
        picked(items, sel) == nearest_k(items, k),
        items.len() <= k ==> forall|j: int| 0 <= j < items.len() ==> sel.contains(j),
    decreases items.len(),
{
    if items.len() == 0 {
        let sel = Seq::<int>::empty();
        assert(picked(items, sel) =~= nearest_k(items, k));
        sel
    } else {
        let prev = items.drop_last();
        let n = prev.len() as int;
        let x = items.last();
        let old_sel = lemma_ranking_exists(prev, k);
        let s = nearest_k(prev, k);
        lemma_nearest_sorted(prev, k);
        lemma_slot(s, x.0);
        let p = slot(s, x.0);
        let full = old_sel.insert(p, n);
        let sel = if full.len() > k { full.take(k as int) } else { full };
        assert(forall|a: int| 0 <= a < old_sel.len() ==> items[#[trigger] old_sel[a]] == s[a]) by {
            assert forall|a: int| 0 <= a < old_sel.len() implies items[#[trigger] old_sel[a]] == s[a] by {
                assert(s[a] == picked(prev, old_sel)[a]);
            }
        }
        assert forall|a: int, b: int| 0 <= a < b < full.len() implies ranks_before(
            items,
            #[trigger] full[a],
            #[trigger] full[b],
        ) by {
            if a != p && b != p {
                let oa = if a < p { a } else { a - 1 };
                let ob = if b < p { b } else { b - 1 };
                assert(full[a] == old_sel[oa] && full[b] == old_sel[ob]);
                assert(ranks_before(prev, old_sel[oa], old_sel[ob]));
            } else if b == p {
                assert(full[a] == old_sel[a]);
                assert(s[a].0 <= x.0);
            } else {
                assert(full[b] == old_sel[b - 1]);
                assert(x.0 < s[b - 1].0);
            }
        }
        assert forall|a: int| 0 <= a < full.len() implies 0 <= #[trigger] full[a] < items.len() by {
            if a != p {
                let oa = if a < p { a } else { a - 1 };
                assert(full[a] == old_sel[oa]);
            }
        }
        assert forall|j: int| 0 <= j < items.len() && items.len() <= k implies sel.contains(j) by {
            if j == n {
                assert(full[p] == j);
            } else {
                assert(old_sel.contains(j));
                let a = choose|a: int| 0 <= a < old_sel.len() && old_sel[a] == j;
                let fa = if a < p { a } else { a + 1 };
                assert(full[fa] == j);
            }
        }
        assert forall|a: int, j: int|
            0 <= a < sel.len() && 0 <= j < items.len() && !sel.contains(j) implies #[trigger] ranks_before(
            items,
            sel[a],
            j,
        ) by {
            assert(sel[a] == full[a]);
            if full.contains(j) {
                let b = choose|b: int| 0 <= b < full.len() && full[b] == j;
                if b < sel.len() {
                    assert(sel[b] == j);
                }
                assert(ranks_before(items, full[a], full[b]));
            } else {
                assert(j != n) by {
                    assert(full[p] == n);
                }
                assert(!old_sel.contains(j)) by {
                    if old_sel.contains(j) {
                        let b = choose|b: int| 0 <= b < old_sel.len() && old_sel[b] == j;
                        let fb = if b < p { b } else { b + 1 };
                        assert(full[fb] == j);
                    }
                }
                if a != p {
                    let oa = if a < p { a } else { a - 1 };
                    assert(full[a] == old_sel[oa]);
                    assert(ranks_before(prev, old_sel[oa], j));
                } else {
                    let last = old_sel.len() - 1;
                    assert(old_sel.len() == k);
                    assert(ranks_before(prev, old_sel[last], j));
                    assert(x.0 < s[last].0);
                    assert(items[old_sel[last]] == s[last]);
                }
            }
        }
        assert(picked(items, sel) =~= nearest_k(items, k)) by {
            assert forall|a: int| 0 <= a < sel.len() implies items[#[trigger] sel[a]] == nearest_k(
                items,
                k,
            )[a] by {
                assert(sel[a] == full[a]);
                if a != p {
                    let oa = if a < p { a } else { a - 1 };
                    assert(full[a] == old_sel[oa]);
                }
            }
        }
        sel
    }
}

/// `nearest_k` picks the `k` best ranked entries, in rank order.
pub proof fn law_nearest_k_is_a_ranking<T>(items: Seq<(int, T)>, k: nat)
    ensures
        exists|sel: Seq<int>|
            #[trigger] is_ranking(items, k, sel) && picked(items, sel) == nearest_k(items, k),
{
    let sel = lemma_ranking_exists(items, k);
    assert(is_ranking(items, k, sel) && picked(items, sel) == nearest_k(items, k));
}

/// The nearest are among the entries.
pub proof fn lemma_nearest_from_items<T>(items: Seq<(int, T)>, k: nat, a: int) -> (i: int)
    requires
        0 <= a < nearest_k(items, k).len(),
    ensures
        0 <= i < items.len(),
        items[i] == nearest_k(items, k)[a],
{
    let sel = lemma_ranking_exists(items, k);
    assert(picked(items, sel)[a] == items[sel[a]]);
    sel[a]
}

/// There is one ranking only, so `nearest_k` is what any ranking picks.
pub proof fn law_ranking_is_unique<T>(items: Seq<(int, T)>, k: nat, sel: Seq<int>)
    requires
        is_ranking(items, k, sel),
    ensures
        picked(items, sel) == nearest_k(items, k),
        forall|other: Seq<int>| #[trigger] is_ranking(items, k, other) ==> other == sel,
{
    let own = lemma_ranking_exists(items, k);
    lemma_rankings_agree(items, k, sel, own);
    assert forall|other: Seq<int>| #[trigger] is_ranking(items, k, other) implies other == sel by {
        lemma_rankings_agree(items, k, other, sel);
    }
}

proof fn lemma_rankings_agree<T>(items: Seq<(int, T)>, k: nat, s1: Seq<int>, s2: Seq<int>)
    requires
        is_ranking(items, k, s1),
        is_ranking(items, k, s2),
    ensures
        s1 == s2,
{
    assert forall|a: int| 0 <= a < s1.len() implies s1[a] == s2[a] by {
        lemma_rankings_agree_at(items, k, s1, s2, a);
    }
    assert(s1 =~= s2);
}

proof fn lemma_rankings_agree_at<T>(
    items: Seq<(int, T)>,
    k: nat,
    s1: Seq<int>,
    s2: Seq<int>,
    a: int,
)
    requires
        is_ranking(items, k, s1),
        is_ranking(items, k, s2),
        0 <= a < s1.len(),
    ensures
        s1[a] == s2[a],
    decreases a,
{
    assert forall|b: int| 0 <= b < a implies s1[b] == s2[b] by {
        lemma_rankings_agree_at(items, k, s1, s2, b);
    }
    if s1[a] != s2[a] {
        lemma_earlier_rank_is_listed(items, k, s1, s2, a);
        lemma_earlier_rank_is_listed(items, k, s2, s1, a);
    }
}

proof fn lemma_earlier_rank_is_listed<T>(
    items: Seq<(int, T)>,
    k: nat,
    s1: Seq<int>,
    s2: Seq<int>,
    a: int,
)
    requires
        is_ranking(items, k, s1),
        is_ranking(items, k, s2),
        0 <= a < s1.len(),
        forall|b: int| 0 <= b < a ==> s1[b] == s2[b],
    ensures
        !ranks_before(items, s1[a], s2[a]),
{
    let j = s1[a];
    if s2.contains(j) {
        let b = choose|b: int| 0 <= b < s2.len() && s2[b] == j;
        if b < a {
            assert(ranks_before(items, s1[b], s1[a]));
        } else if b > a {
            assert(ranks_before(items, s2[a], s2[b]));
        }
    } else {
        assert(ranks_before(items, s2[a], j));
    }
}

/// What a scan keeps of the entries it has met: all of them, in order of
/// arrival, until there are `k`; from then on the `k` nearest.
pub open spec fn shortlist<T>(items: Seq<(int, T)>, k: nat) -> Seq<(int, T)> {
    if items.len() < k {
        items
    } else {
        nearest_k(items, k)
    }
}

/// A shortlist of up to `k` entries after one more entry.
pub open spec fn extended<T>(list: Seq<(int, T)>, item: (int, T), k: nat) -> Seq<(int, T)> {
    if list.len() + 1 < k {
        list.push(item)
    } else if list.len() < k {
        stable_sorted(list.push(item))
    } else if list.len() > 0 && item.0 < list.last().0 {
        stable_sorted(list.drop_last().push(item))
    } else {
        list
    }
}

/// Extending entry by entry gives the shortlist of all entries.
pub proof fn lemma_shortlist_push<T>(items: Seq<(int, T)>, item: (int, T), k: nat)
    requires
        k > 0,
    ensures
        shortlist(items.push(item), k) == extended(shortlist(items, k), item, k),
        shortlist(items, k).len() == if items.len() < k { items.len() } else { k },
{
    lemma_nearest_sorted(items, k);
    let list = shortlist(items, k);
    if items.len() >= k {
        lemma_nearest_push(items, item, k);
        if item.0 < list.last().0 {
            lemma_near_item_replaces_last(list, item, k);
            let kept = list.drop_last();
            assert(sorted_by_key(kept));
            lemma_nearest_of_sorted(kept, k);
            lemma_nearest_push(kept, item, k);
            lemma_slot_bounds(kept, item.0);
        } else {
            lemma_far_item_is_ignored(list, item, k);
        }
    }
}

/// Entries as the ranking sees them: keys as integers.
pub open spec fn keyed<T>(entries: Seq<(i64, T)>) -> Seq<(int, T)> {
    Seq::new(entries.len(), |i: int| (entries[i].0 as int, entries[i].1))
}

/// While the entry at `j` is nearer than the one before it, its place lies further left.
pub proof fn lemma_slot_step<T>(s: Seq<(int, T)>, key: int, j: int)
    requires
        0 <= j <= s.len(),
    ensures
        j > 0 && key < s[j - 1].0 ==> slot(s.take(j), key) == slot(s.take(j - 1), key),
        !(j > 0 && key < s[j - 1].0) ==> slot(s.take(j), key) == j,
{
    if j > 0 {
        assert(s.take(j).last() == s[j - 1]);
        assert(s.take(j).drop_last() =~= s.take(j - 1));
    }
}

/// Sorting the first `i + 1` entries, given the first `i` sorted.
pub proof fn lemma_sorted_prefix_grows<T>(items: Seq<(int, T)>, i: int, k: nat)
    requires
        0 <= i < items.len(),
        i < k,
    ensures
        nearest_k(items.take(i + 1), k) == nearest_k(items.take(i), k).insert(
            slot(nearest_k(items.take(i), k), items[i].0),
            items[i],
        ),
        nearest_k(items.take(i), k).len() == i,
{
    assert(items.take(i + 1) =~= items.take(i).push(items[i]));
    lemma_nearest_push(items.take(i), items[i], k);
    lemma_nearest_sorted(items.take(i), k);
    lemma_slot_bounds(nearest_k(items.take(i), k), items[i].0);
}

/// Sorts by distance; entries at equal distance keep their order.
#[verifier::rlimit(30)]
pub fn insertion_sort<T: Copy>(entries: &mut Vec<(i64, T)>)
    ensures
        keyed(final(entries)@) == stable_sorted(keyed(old(entries)@)),
        final(entries)@.len() == old(entries)@.len(),
{
    let n: usize = entries.len();
    let ghost items = keyed(entries@);
    if n == 0 {
        return ;
    }
    proof {
        lemma_nearest_of_sorted(items.take(1), n as nat);
        assert(keyed(entries@) =~= items.take(1) + items.skip(1));
    }
    let mut i: usize = 1;
    while i < n
        invariant
            1 <= i <= n,
            n == entries@.len(),
            items.len() == n,
            keyed(entries@) == nearest_k(items.take(i as int), n as nat) + items.skip(i as int),
        decreases n - i,
    {
        let ghost s = nearest_k(items.take(i as int), n as nat);
        proof {
            lemma_sorted_prefix_grows(items, i as int, n as nat);
        }
        let item: (i64, T) = entries[i];
        let mut j: usize = i;
        proof {
            assert(keyed(entries@)[i as int] == items[i as int]);
            assert(keyed(entries@) =~= s.insert(j as int, items[i as int]) + items.skip(i + 1));
            assert(s.take(i as int) =~= s);
        }
        while j > 0 && item.0 < entries[j - 1].0
            invariant
                0 <= j <= i < n,
                n == entries@.len(),
                items.len() == n,
                s.len() == i,
                items[i as int] == (item.0 as int, item.1),
                keyed(entries@) == s.insert(j as int, items[i as int]) + items.skip(i + 1),
                slot(s.take(j as int), item.0 as int) == slot(s, item.0 as int),
            decreases j,
        {
            let previous: (i64, T) = entries[j - 1];
            let ghost before = keyed(entries@);
            proof {
                assert(before[j - 1] == s[j - 1]);
                lemma_slot_step(s, item.0 as int, j as int);
            }
            entries[j] = previous;
            entries[j - 1] = item;
            j = j - 1;
            proof {
                assert(keyed(entries@) =~= s.insert(j as int, items[i as int]) + items.skip(i + 1)) by {
                    let after = s.insert(j as int, items[i as int]) + items.skip(i + 1);
                    assert forall|a: int| 0 <= a < n implies keyed(entries@)[a] == after[a] by {
                        if a != j && a != j + 1 {
                            assert(keyed(entries@)[a] == before[a]);
                        }
                    }
                }
            }
        }
        proof {
            if j > 0 {
                assert(keyed(entries@)[j - 1] == s[j - 1]);
            }
            lemma_slot_step(s, item.0 as int, j as int);
        }
        i = i + 1;
    }
    proof {
        assert(items.take(n as int) =~= items);
        assert(keyed(entries@) =~= nearest_k(items, n as nat));
    }
}

/// `s` filled up to `k` entries with `filler`.
pub open spec fn backed<T>(s: Seq<(int, T)>, filler: (int, T), k: nat) -> Seq<(int, T)> {
    s + Seq::new(
        if s.len() < k {
            (k - s.len()) as nat
        } else {
            0
        },
        |i: int| filler,
    )
}

proof fn lemma_slot_passes_fillers<T>(s: Seq<(int, T)>, filler: (int, T), n: nat, key: int)
    requires
        key < filler.0,
    ensures
        slot(s + Seq::new(n, |i: int| filler), key) == slot(s, key),
    decreases n,
{
    let t = s + Seq::new(n, |i: int| filler);
    if n == 0 {
        assert(t =~= s);
    } else {
        assert(t.drop_last() =~= s + Seq::new((n - 1) as nat, |i: int| filler));
        lemma_slot_passes_fillers(s, filler, (n - 1) as nat, key);
    }
}

/// A ranking filled up with far entries takes a nearer entry like the ranking itself.
pub proof fn lemma_backed_admit<T>(s: Seq<(int, T)>, item: (int, T), filler: (int, T), k: nat)
    requires
        k > 0,
        s.len() <= k,
        sorted_by_key(s),
        item.0 < filler.0,
        forall|a: int| 0 <= a < s.len() ==> (#[trigger] s[a]).0 < filler.0,
    ensures
        backed(s, filler, k).len() == k,
        item.0 < backed(s, filler, k).last().0 ==> stable_sorted(
            backed(s, filler, k).drop_last().push(item),
        ) == backed(admit_item(s, item, k), filler, k),
        item.0 >= backed(s, filler, k).last().0 ==> backed(admit_item(s, item, k), filler, k)
            == backed(s, filler, k),
{
    let full = backed(s, filler, k);
    let kept = full.drop_last();
    lemma_slot_bounds(s, item.0);
    if item.0 < full.last().0 {
        assert(sorted_by_key(kept));
        lemma_nearest_of_sorted(kept, k);
        lemma_nearest_push(kept, item, k);
        lemma_slot_bounds(kept, item.0);
        if s.len() < k {
            let n = (k - 1 - s.len()) as nat;
            assert(kept =~= s + Seq::new(n, |i: int| filler));
            lemma_slot_passes_fillers(s, filler, n, item.0);
            assert(kept.insert(slot(kept, item.0), item) =~= backed(
                admit_item(s, item, k),
                filler,
                k,
            ));
        } else {
            assert(full =~= s);
            lemma_near_item_replaces_last(s, item, k);
            assert(backed(admit_item(s, item, k), filler, k) =~= admit_item(s, item, k));
        }
    } else {
        assert(s.len() == k);
        assert(full =~= s);
        lemma_far_item_is_ignored(s, item, k);
    }
}

/// Takes `item` in place of the last entry where it is nearer, and sorts.
pub fn keep_nearest<T: Copy>(best: &mut Vec<(i64, T)>, item: (i64, T))
    requires
        old(best)@.len() > 0,
    ensures
        final(best)@.len() == old(best)@.len(),
        item.0 < old(best)@.last().0 ==> keyed(final(best)@) == stable_sorted(
            keyed(old(best)@).drop_last().push((item.0 as int, item.1)),
        ),
        item.0 >= old(best)@.last().0 ==> final(best)@ == old(best)@,
{
    let last: usize = best.len() - 1;
    if item.0 < best[last].0 {
        let ghost before = keyed(best@);
        best[last] = item;
        assert(keyed(best@) =~= before.drop_last().push((item.0 as int, item.1)));
        insertion_sort(best);
    }
}

/// The nearest entries are picked from different positions, in order of key and, among equal
/// keys, of position; and what is left out comes after all of them in that order. What `sel`
/// lists is where they are picked from.
pub proof fn law_nearest_are_picked_in_order<T>(items: Seq<(int, T)>, k: nat) -> (sel: Seq<int>)
    ensures
        nearest_k(items, k).len() == sel.len(),
        items.len() < k ==> sel.len() == items.len(),
        items.len() >= k ==> sel.len() == k,
        forall|a: int|
            0 <= a < sel.len() ==> 0 <= #[trigger] sel[a] < items.len() && nearest_k(items, k)[a]
                == items[sel[a]],
        forall|a: int, b: int|
            0 <= a < b < sel.len() ==> {
                ||| items[#[trigger] sel[a]].0 < items[#[trigger] sel[b]].0
                ||| items[sel[a]].0 == items[sel[b]].0 && sel[a] < sel[b]
            },
        forall|a: int, j: int|
            #![trigger sel[a], items[j]]
            0 <= a < sel.len() && 0 <= j < items.len() && !sel.contains(j) ==> {
                ||| items[sel[a]].0 < items[j].0
                ||| items[sel[a]].0 == items[j].0 && sel[a] < j
            },
{
    let sel = lemma_ranking_exists(items, k);
    assert forall|a: int| 0 <= a < sel.len() implies 0 <= #[trigger] sel[a] < items.len()
        && nearest_k(items, k)[a] == items[sel[a]] by {
        assert(picked(items, sel)[a] == items[sel[a]]);
    }
    assert(picked(items, sel).len() == sel.len());
    assert forall|a: int, j: int|
        #![trigger sel[a], items[j]]
        0 <= a < sel.len() && 0 <= j < items.len() && !sel.contains(j) implies {
        ||| items[sel[a]].0 < items[j].0
        ||| items[sel[a]].0 == items[j].0 && sel[a] < j
    } by {
        assert(ranks_before(items, sel[a], j));
    }
    sel
}

/// Fewer than `k` entries are kept in the order in which they came; of `k` and more the
/// nearest `k` are kept, and an entry that comes later is taken in as if it had been there
/// before.
pub proof fn law_scan_keeps_the_nearest<T>(items: Seq<(int, T)>, item: (int, T), k: nat)
    requires
        k > 0,
    ensures
        items.len() < k ==> shortlist(items, k) == items,
        items.len() >= k ==> shortlist(items, k) == nearest_k(items, k),
        extended(shortlist(items, k), item, k) == shortlist(items.push(item), k),
{
    lemma_shortlist_push(items, item, k);
}

/// A stable sort puts all entries in order of key, those with equal keys in the order in which
/// they came.
pub proof fn law_sort_is_stable<T>(items: Seq<(int, T)>) -> (sel: Seq<int>)
    ensures
        stable_sorted(items).len() == items.len(),
        sel.len() == items.len(),
        forall|a: int|
            0 <= a < sel.len() ==> 0 <= #[trigger] sel[a] < items.len() && stable_sorted(items)[a]
                == items[sel[a]],
        forall|a: int, b: int|
            0 <= a < b < sel.len() ==> {
                ||| items[#[trigger] sel[a]].0 < items[#[trigger] sel[b]].0
                ||| items[sel[a]].0 == items[sel[b]].0 && sel[a] < sel[b]
            },
{
    law_nearest_are_picked_in_order(items, items.len())
}

/// Keys are taken as integers, and what they belong to stays with them; a list that is filled
/// up keeps its entries in front.
pub proof fn law_entries_keep_their_places<T>(
    entries: Seq<(i64, T)>,
    list: Seq<(int, T)>,
    filler: (int, T),
    k: nat,
)
    ensures
        keyed(entries).len() == entries.len(),
        forall|i: int|
            0 <= i < entries.len() ==> (#[trigger] keyed(entries)[i]).0 == entries[i].0 && keyed(
                entries,
            )[i].1 == entries[i].1,
        list.len() <= k ==> backed(list, filler, k).len() == k,
        forall|i: int|
            0 <= i < list.len() ==> #[trigger] backed(list, filler, k)[i] == list[i],
        forall|i: int|
            list.len() <= i < k ==> #[trigger] backed(list, filler, k)[i] == filler,
{
}

} // verus!
