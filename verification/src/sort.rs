//! Stable sorting: merge sort over indices, and search in sorted sequences.

use vstd::prelude::*;

verus! {

/// A key with a total order in which distinct keys may be equivalent.
pub trait SortKey: Sized {
    /// `self` sorts no later than `other`.
    spec fn at_most(self, other: Self) -> bool;

    /// Any two keys can be compared.
    proof fn lemma_total(a: Self, b: Self)
        ensures
            a.at_most(b) || b.at_most(a),
    ;

    /// The order carries over.
    proof fn lemma_transitive(a: Self, b: Self, c: Self)
        requires
            a.at_most(b),
            b.at_most(c),
        ensures
            a.at_most(c),
    ;

    /// Whether `self` sorts no later than `other`.
    fn le(&self, other: &Self) -> (res: bool)
        ensures
            res == self.at_most(*other),
    ;
}

/// Item `a` is placed before item `b`: it has the smaller key, or an equivalent key and the
/// smaller index.
pub open spec fn placed_before<K: SortKey>(keys: Seq<K>, a: usize, b: usize) -> bool {
    keys[a as int].at_most(keys[b as int]) && (keys[b as int].at_most(keys[a as int]) ==> a < b)
}

/// `order` lists the indices of `keys` by key, equivalent keys in their original order.
pub open spec fn is_stable_order<K: SortKey>(keys: Seq<K>, order: Seq<usize>) -> bool {
    &&& order.len() == keys.len()
    &&& forall|i: int| 0 <= i < order.len() ==> (#[trigger] order[i]) < keys.len()
    &&& forall|k: usize| k < keys.len() ==> #[trigger] order.contains(k)
    &&& forall|i: int, j: int|
        0 <= i < j < order.len() ==> #[trigger] placed_before(keys, order[i], order[j])
}

/// The indices of `keys` by key, equivalent keys in their original order.
pub open spec fn sorted_indices<K: SortKey>(keys: Seq<K>) -> Seq<usize> {
    choose|order: Seq<usize>| is_stable_order(keys, order)
}

/// The items at the listed indices.
pub open spec fn picked<T>(items: Seq<T>, order: Seq<usize>) -> Seq<T> {
    Seq::new(order.len(), |i: int| items[order[i] as int])
}

/// `items` sorted by `keys`, which holds the key of each item.
pub open spec fn stably_sorted<T, K: SortKey>(items: Seq<T>, keys: Seq<K>) -> Seq<T> {
    picked(items, sorted_indices(keys))
}

proof fn lemma_placed_transitive<K: SortKey>(keys: Seq<K>, a: usize, b: usize, c: usize)
    requires
        placed_before(keys, a, b),
        placed_before(keys, b, c),
    ensures
        placed_before(keys, a, c),
{
    K::lemma_transitive(keys[a as int], keys[b as int], keys[c as int]);
    if keys[c as int].at_most(keys[a as int]) {
        K::lemma_transitive(keys[c as int], keys[a as int], keys[b as int]);
        K::lemma_transitive(keys[b as int], keys[c as int], keys[a as int]);
    }
}

/// Of two different indices exactly one is placed before the other.
proof fn lemma_placed_total<K: SortKey>(keys: Seq<K>, a: usize, b: usize)
    ensures
        !placed_before(keys, a, a),
        a != b ==> placed_before(keys, a, b) != placed_before(keys, b, a),
{
    K::lemma_total(keys[a as int], keys[b as int]);
    K::lemma_total(keys[a as int], keys[a as int]);
}

/// `part` lists the indices from `lo` up to `hi` in the order of their keys.
spec fn sorted_run<K: SortKey>(keys: Seq<K>, part: Seq<usize>, lo: int, hi: int) -> bool {
    &&& part.len() == hi - lo
    &&& forall|i: int| 0 <= i < part.len() ==> lo <= #[trigger] part[i] < hi
    &&& forall|k: usize| lo <= k < hi ==> #[trigger] part.contains(k)
    &&& forall|i: int, j: int|
        0 <= i < j < part.len() ==> #[trigger] placed_before(keys, part[i], part[j])
}

/// Merges two adjacent sorted runs.
fn merge_runs<K: SortKey>(
    keys: &Vec<K>,
    left: Vec<usize>,
    right: Vec<usize>,
    lo: usize,
    mid: usize,
    hi: usize,
) -> (out: Vec<usize>)
    requires
        lo <= mid <= hi <= keys@.len(),
        sorted_run(keys@, left@, lo as int, mid as int),
        sorted_run(keys@, right@, mid as int, hi as int),
    ensures
        sorted_run(keys@, out@, lo as int, hi as int),
{
    let mut out: Vec<usize> = Vec::new();
    let mut i: usize = 0;
    let mut j: usize = 0;
    while i < left.len() || j < right.len()
        invariant
            lo <= mid <= hi <= keys@.len(),
            sorted_run(keys@, left@, lo as int, mid as int),
            sorted_run(keys@, right@, mid as int, hi as int),
            i <= left@.len(),
            j <= right@.len(),
            out@.len() == i + j,
            forall|k: int| 0 <= k < out@.len() ==> lo <= #[trigger] out@[k] < hi,
            forall|k: int| 0 <= k < i ==> out@.contains(#[trigger] left@[k]),
            forall|k: int| 0 <= k < j ==> out@.contains(#[trigger] right@[k]),
            forall|a: int, b: int|
                0 <= a < b < out@.len() ==> #[trigger] placed_before(keys@, out@[a], out@[b]),
            forall|a: int, b: int|
                0 <= a < out@.len() && i <= b < left@.len() ==> #[trigger] placed_before(
                    keys@,
                    out@[a],
                    left@[b],
                ),
            forall|a: int, b: int|
                0 <= a < out@.len() && j <= b < right@.len() ==> #[trigger] placed_before(
                    keys@,
                    out@[a],
                    right@[b],
                ),
        decreases left@.len() - i + right@.len() - j,
    {
        let take_left = if i == left.len() {
            false
        } else if j == right.len() {
            true
        } else {
            keys[left[i]].le(&keys[right[j]])
        };
        let ghost before = out@;
        if take_left {
            let x: usize = left[i];
            proof {
                assert forall|b: int| j <= b < right@.len() implies #[trigger] placed_before(
                    keys@,
                    x,
                    right@[b],
                ) by {
                    assert(x < right@[b]);
                    assert(x < right@[j as int]);
                    assert(placed_before(keys@, x, right@[j as int]));
                    if b > j {
                        assert(placed_before(keys@, right@[j as int], right@[b]));
                        lemma_placed_transitive(keys@, x, right@[j as int], right@[b]);
                    }
                }
            }
            out.push(x);
            i = i + 1;
            proof {
                assert(out@[before.len() as int] == x);
                assert forall|k: int| 0 <= k < j implies out@.contains(#[trigger] right@[k]) by {
                    let w = choose|w: int| 0 <= w < before.len() && before[w] == right@[k];
                    assert(out@[w] == right@[k]);
                }
                assert forall|k: int| 0 <= k < i implies out@.contains(#[trigger] left@[k]) by {
                    if k < i - 1 {
                        let w = choose|w: int| 0 <= w < before.len() && before[w] == left@[k];
                        assert(out@[w] == left@[k]);
                    }
                }
            }
        } else {
            let x: usize = right[j];
            proof {
                assert forall|b: int| i <= b < left@.len() implies #[trigger] placed_before(
                    keys@,
                    x,
                    left@[b],
                ) by {
                    K::lemma_total(keys@[left@[i as int] as int], keys@[x as int]);
                    assert(placed_before(keys@, x, left@[i as int]));
                    if b > i {
                        assert(placed_before(keys@, left@[i as int], left@[b]));
                        lemma_placed_transitive(keys@, x, left@[i as int], left@[b]);
                    }
                }
            }
            out.push(x);
            j = j + 1;
            proof {
                assert(out@[before.len() as int] == x);
                assert forall|k: int| 0 <= k < i implies out@.contains(#[trigger] left@[k]) by {
                    let w = choose|w: int| 0 <= w < before.len() && before[w] == left@[k];
                    assert(out@[w] == left@[k]);
                }
                assert forall|k: int| 0 <= k < j implies out@.contains(#[trigger] right@[k]) by {
                    if k < j - 1 {
                        let w = choose|w: int| 0 <= w < before.len() && before[w] == right@[k];
                        assert(out@[w] == right@[k]);
                    }
                }
            }
        }
    }
    proof {
        assert forall|k: usize| lo <= k < hi implies #[trigger] out@.contains(k) by {
            if k < mid {
                assert(left@.contains(k));
                let w = choose|w: int| 0 <= w < left@.len() && left@[w] == k;
                assert(out@.contains(left@[w]));
            } else {
                assert(right@.contains(k));
                let w = choose|w: int| 0 <= w < right@.len() && right@[w] == k;
                assert(out@.contains(right@[w]));
            }
        }
    }
    out
}

/// Sorts the indices from `lo` up to `hi`.
fn sort_run<K: SortKey>(keys: &Vec<K>, lo: usize, hi: usize) -> (out: Vec<usize>)
    requires
        lo <= hi <= keys@.len(),
    ensures
        sorted_run(keys@, out@, lo as int, hi as int),
    decreases hi - lo,
{
    let mut out: Vec<usize> = Vec::new();
    if hi - lo == 0 {
        return out;
    }
    if hi - lo == 1 {
        out.push(lo);
        proof {
            assert(out@[0] == lo);
        }
        return out;
    }
    let mid: usize = lo + (hi - lo) / 2;
    let left = sort_run(keys, lo, mid);
    let right = sort_run(keys, mid, hi);
    merge_runs(keys, left, right, lo, mid, hi)
}

/// The indices of `keys` in stable sorted order.
#[must_use]
pub fn stable_order<K: SortKey>(keys: &Vec<K>) -> (out: Vec<usize>)
    ensures
        is_stable_order(keys@, out@),
        out@ == sorted_indices(keys@),
{
    let out = sort_run(keys, 0, keys.len());
    proof {
        assert(is_stable_order(keys@, out@));
        law_stable_order_is_unique(keys@, out@, sorted_indices(keys@));
    }
    out
}

/// The items at the listed indices.
#[must_use]
pub fn pick<T: Copy>(items: &Vec<T>, order: &Vec<usize>) -> (out: Vec<T>)
    requires
        forall|i: int| 0 <= i < order@.len() ==> (#[trigger] order@[i]) < items@.len(),
    ensures
        out@ == picked(items@, order@),
{
    let mut out: Vec<T> = Vec::new();
    let mut i: usize = 0;
    while i < order.len()
        invariant
            i <= order@.len(),
            forall|k: int| 0 <= k < order@.len() ==> (#[trigger] order@[k]) < items@.len(),
            out@ == picked(items@, order@.take(i as int)),
        decreases order@.len() - i,
    {
        out.push(items[order[i]]);
        i = i + 1;
        proof {
            assert(out@ =~= picked(items@, order@.take(i as int)));
        }
    }
    proof {
        assert(order@.take(i as int) =~= order@);
    }
    out
}

/// The first place in `order` whose key comes strictly after `key`, from `from` on.
spec fn first_above<K: SortKey>(keys: Seq<K>, order: Seq<usize>, key: K, from: int) -> int
    decreases order.len() - from,
{
    if from >= order.len() || !keys[order[from] as int].at_most(key) {
        from
    } else {
        first_above(keys, order, key, from + 1)
    }
}

proof fn lemma_first_above<K: SortKey>(keys: Seq<K>, order: Seq<usize>, key: K, from: int)
    requires
        0 <= from <= order.len(),
    ensures
        from <= first_above(keys, order, key, from) <= order.len(),
        forall|i: int|
            from <= i < first_above(keys, order, key, from) ==> keys[#[trigger] order[i] as int].at_most(
                key,
            ),
        first_above(keys, order, key, from) < order.len() ==> !keys[order[first_above(
            keys,
            order,
            key,
            from,
        )] as int].at_most(key),
    decreases order.len() - from,
{
    if from < order.len() && keys[order[from] as int].at_most(key) {
        lemma_first_above(keys, order, key, from + 1);
    }
}

/// Every list that fits in memory has a stable order.
pub proof fn law_every_list_has_a_stable_order<K: SortKey>(keys: Seq<K>)
    requires
        keys.len() <= usize::MAX,
    ensures
        is_stable_order(keys, sorted_indices(keys)),
    decreases keys.len(),
{
    if keys.len() == 0 {
        assert(is_stable_order(keys, Seq::empty()));
    } else {
        let rest = keys.drop_last();
        let last = (keys.len() - 1) as usize;
        let key = keys[last as int];
        law_every_list_has_a_stable_order(rest);
        let base = sorted_indices(rest);
        let p = first_above(keys, base, key, 0);
        lemma_first_above(keys, base, key, 0);
        let order = base.insert(p, last);
        assert forall|k: usize| k < keys.len() implies #[trigger] order.contains(k) by {
            if k == last {
                assert(order[p] == k);
            } else {
                assert(base.contains(k));
                let i = choose|i: int| 0 <= i < base.len() && base[i] == k;
                assert(order[if i < p {
                    i
                } else {
                    i + 1
                }] == k);
            }
        }
        assert forall|i: int, j: int| 0 <= i < j < order.len() implies #[trigger] placed_before(
            keys,
            order[i],
            order[j],
        ) by {
            let oi = if i < p {
                i
            } else {
                i - 1
            };
            let oj = if j < p {
                j
            } else {
                j - 1
            };
            if i != p && j != p {
                assert(placed_before(rest, base[oi], base[oj]));
            } else if j == p {
                assert(keys[base[i] as int].at_most(key));
            } else {
                K::lemma_total(keys[base[p] as int], key);
                if oj > p {
                    assert(placed_before(rest, base[p], base[oj]));
                    K::lemma_transitive(key, keys[base[p] as int], keys[base[oj] as int]);
                    if keys[base[oj] as int].at_most(key) {
                        K::lemma_transitive(
                            keys[base[p] as int],
                            keys[base[oj] as int],
                            key,
                        );
                    }
                }
            }
        }
        assert(is_stable_order(keys, order));
    }
}

/// There is only one stable order: sorting leaves nothing to chance.
pub proof fn law_stable_order_is_unique<K: SortKey>(
    keys: Seq<K>,
    one: Seq<usize>,
    two: Seq<usize>,
)
    requires
        is_stable_order(keys, one),
        is_stable_order(keys, two),
    ensures
        one == two,
{
    assert forall|n: int| 0 <= n <= one.len() implies one.take(n) == two.take(n) by {
        lemma_stable_prefixes_agree(keys, one, two, n);
    }
    assert(one.take(one.len() as int) =~= one);
    assert(two.take(one.len() as int) =~= two);
}

proof fn lemma_stable_prefixes_agree<K: SortKey>(
    keys: Seq<K>,
    one: Seq<usize>,
    two: Seq<usize>,
    n: int,
)
    requires
        is_stable_order(keys, one),
        is_stable_order(keys, two),
        0 <= n <= one.len(),
    ensures
        one.take(n) == two.take(n),
    decreases n,
{
    if n > 0 {
        let m = n - 1;
        lemma_stable_prefixes_agree(keys, one, two, m);
        lemma_next_agrees(keys, one, two, m);
        assert(one.take(n) =~= two.take(n)) by {
            assert forall|i: int| 0 <= i < n implies one.take(n)[i] == two.take(n)[i] by {
                if i < m {
                    assert(one.take(m)[i] == two.take(m)[i]);
                }
            }
        }
    } else {
        assert(one.take(0) =~= two.take(0));
    }
}

/// After equal prefixes the next index agrees: each order would otherwise hold the other's next
/// index later, placed both before and after its own.
proof fn lemma_next_agrees<K: SortKey>(keys: Seq<K>, one: Seq<usize>, two: Seq<usize>, m: int)
    requires
        is_stable_order(keys, one),
        is_stable_order(keys, two),
        0 <= m < one.len(),
        one.take(m) == two.take(m),
    ensures
        one[m] == two[m],
{
    let a = one[m];
    let b = two[m];
    assert(two.contains(a));
    assert(one.contains(b));
    let i = choose|i: int| 0 <= i < two.len() && two[i] == a;
    let j = choose|j: int| 0 <= j < one.len() && one[j] == b;
    if i < m {
        assert(one.take(m)[i] == one[i] && two.take(m)[i] == two[i]);
        assert(placed_before(keys, one[i], one[m]));
        lemma_placed_total(keys, a, a);
        assert(false);
    }
    if j < m {
        assert(one.take(m)[j] == one[j] && two.take(m)[j] == two[j]);
        assert(placed_before(keys, two[j], two[m]));
        lemma_placed_total(keys, b, b);
        assert(false);
    }
    if a != b {
        assert(placed_before(keys, two[m], two[i]));
        assert(placed_before(keys, one[m], one[j]));
        lemma_placed_total(keys, a, b);
    }
}

impl SortKey for u64 {
    open spec fn at_most(self, other: u64) -> bool {
        self <= other
    }

    proof fn lemma_total(a: u64, b: u64) {
    }

    proof fn lemma_transitive(a: u64, b: u64, c: u64) {
    }

    fn le(&self, other: &u64) -> (res: bool) {
        *self <= *other
    }
}

/// Picking every item once keeps the items.
proof fn lemma_picking_all_keeps_items<T>(items: Seq<T>, order: Seq<usize>)
    requires
        order.len() == items.len() <= usize::MAX,
        forall|i: int| 0 <= i < order.len() ==> (#[trigger] order[i]) < items.len(),
        forall|k: usize| k < items.len() ==> #[trigger] order.contains(k),
        forall|i: int, j: int|
            0 <= i < j < order.len() ==> (#[trigger] order[i]) != (#[trigger] order[j]),
    ensures
        picked(items, order).to_multiset() == items.to_multiset(),
    decreases items.len(),
{
    broadcast use vstd::seq_lib::group_to_multiset_ensures;

    let out = picked(items, order);
    if items.len() == 0 {
        assert(out =~= items);
    } else {
        let last = (items.len() - 1) as usize;
        assert(order.contains(last));
        let p = choose|p: int| 0 <= p < order.len() && order[p] == last;
        let rest = items.drop_last();
        let fewer = order.remove(p);
        assert forall|i: int| 0 <= i < fewer.len() implies (#[trigger] fewer[i]) < rest.len() by {
            let oi = if i < p {
                i
            } else {
                i + 1
            };
            assert(fewer[i] == order[oi] && order[oi] != order[p]);
        }
        assert forall|k: usize| k < rest.len() implies #[trigger] fewer.contains(k) by {
            assert(order.contains(k));
            let i = choose|i: int| 0 <= i < order.len() && order[i] == k;
            assert(fewer[if i < p {
                i
            } else {
                i - 1
            }] == k);
        }
        assert forall|i: int, j: int| 0 <= i < j < fewer.len() implies (#[trigger] fewer[i]) != (
        #[trigger] fewer[j]) by {
            let oi = if i < p {
                i
            } else {
                i + 1
            };
            let oj = if j < p {
                j
            } else {
                j + 1
            };
            assert(fewer[i] == order[oi] && fewer[j] == order[oj]);
        }
        lemma_picking_all_keeps_items(rest, fewer);
        assert(out.remove(p) =~= picked(rest, fewer));
        assert(rest.push(items.last()) =~= items);
        assert(out[p] == items.last());
        assert(out.contains(out[p]));
        assert(out.to_multiset() =~= out.remove(p).to_multiset().insert(out[p]));
    }
}

/// Sorting keeps the items, each as often as before.
pub proof fn law_sorting_keeps_the_items<T, K: SortKey>(items: Seq<T>, keys: Seq<K>)
    requires
        items.len() == keys.len() <= usize::MAX,
    ensures
        stably_sorted(items, keys).to_multiset() == items.to_multiset(),
{
    law_every_list_has_a_stable_order(keys);
    let order = sorted_indices(keys);
    assert forall|i: int, j: int| 0 <= i < j < order.len() implies (#[trigger] order[i]) != (
    #[trigger] order[j]) by {
        assert(placed_before(keys, order[i], order[j]));
    }
    lemma_picking_all_keeps_items(items, order);
}

} // verus!
