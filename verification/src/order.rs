//! Stable orderings of a sequence's indices.

use crate::scalar::{level, Scalar, NAN_RANK};
use vstd::prelude::*;

verus! {

/// Whether index `i` comes before index `j` when the smaller rank goes first
/// and, among equal ranks, the smaller index.
pub open spec fn precedes(ranks: Seq<int>, i: int, j: int) -> bool {
    ranks[i] < ranks[j] || (ranks[i] == ranks[j] && i < j)
}

/// Whether `order` lists the indices `lo..hi` of `ranks`, each once, in order.
pub open spec fn orders_range(ranks: Seq<int>, lo: int, hi: int, order: Seq<usize>) -> bool {
    &&& order.len() == hi - lo
    &&& forall|p: int| 0 <= p < order.len() ==> lo <= (#[trigger] order[p]) < hi
    &&& forall|p: int, q: int|
        0 <= p < q < order.len() ==> precedes(ranks, #[trigger] order[p] as int, #[trigger] order[q] as int)
    &&& forall|i: usize| lo <= i < hi ==> #[trigger] order.contains(i)
}

/// The rank that the NaNs among `keys` are sorted by. A NaN is neither below nor
/// above any number, so where the numbers are all equal it ranks with them; where
/// they are not, behind them.
pub open spec fn nan_rank(keys: Seq<Scalar>) -> int {
    if level(keys) && !forall|i: int| 0 <= i < keys.len() ==> (#[trigger] keys[i]).nan() {
        keys[choose|i: int| 0 <= i < keys.len() && !(#[trigger] keys[i]).nan()].rank_of()
    } else {
        NAN_RANK as int
    }
}

/// The ranks that `keys` are sorted by.
pub open spec fn ranks_of(keys: Seq<Scalar>) -> Seq<int> {
    keys.map_values(
        |k: Scalar|
            if k.nan() {
                nan_rank(keys)
            } else {
                k.rank_of()
            },
    )
}

/// A key that goes first is not above one that goes later; where the numbers are
/// all equal, NaNs or not, all ranks are.
pub proof fn lemma_ranks_agree(keys: Seq<Scalar>, i: int, j: int)
    requires
        0 <= i < keys.len(),
        0 <= j < keys.len(),
    ensures
        ranks_of(keys)[i] <= ranks_of(keys)[j] ==> !keys[j].lt(keys[i]),
        level(keys) ==> ranks_of(keys)[i] == ranks_of(keys)[j],
{
    if level(keys) {
        assert(!keys[i].lt(keys[j]) && !keys[j].lt(keys[i]));
        if !keys[i].nan() || !keys[j].nan() {
            let n = choose|n: int| 0 <= n < keys.len() && !(#[trigger] keys[n]).nan();
            assert(!keys[i].lt(keys[n]) && !keys[n].lt(keys[i]));
            assert(!keys[j].lt(keys[n]) && !keys[n].lt(keys[j]));
        }
    }
}

/// Where no key is below another, sorting changes nothing.
pub proof fn law_level_keys_keep_their_order(keys: Seq<Scalar>)
    requires
        keys.len() <= usize::MAX,
        level(keys),
    ensures
        sorted_indices(keys) == Seq::new(keys.len(), |i: int| i as usize),
{
    let order = Seq::new(keys.len(), |i: int| i as usize);
    let ranks = ranks_of(keys);
    assert forall|p: int, q: int| 0 <= p < q < order.len() implies precedes(
        ranks,
        #[trigger] order[p] as int,
        #[trigger] order[q] as int,
    ) by {
        lemma_ranks_agree(keys, p, q);
    }
    assert forall|i: usize| i < keys.len() implies #[trigger] order.contains(i) by {
        assert(order[i as int] == i);
    }
    assert(orders(keys, order));
    law_sorted_indices(keys);
}

/// Whether `order` is the stable ascending order of all of `keys`.
pub open spec fn orders(keys: Seq<Scalar>, order: Seq<usize>) -> bool {
    orders_range(ranks_of(keys), 0, keys.len() as int, order)
}

/// The indices of `keys` in stable ascending order: the one sequence for which
/// [`orders`] holds.
pub open spec fn sorted_indices(keys: Seq<Scalar>) -> Seq<usize> {
    choose|order: Seq<usize>| orders(keys, order)
}

/// The ranks as mathematical integers.
pub open spec fn as_ints(ranks: Seq<i64>) -> Seq<int> {
    ranks.map_values(|r: i64| r as int)
}

proof fn lemma_orders_agree_to(ranks: Seq<int>, lo: int, hi: int, a: Seq<usize>, b: Seq<usize>, p: int)
    requires
        orders_range(ranks, lo, hi, a),
        orders_range(ranks, lo, hi, b),
        0 <= p <= a.len(),
    ensures
        forall|i: int| 0 <= i < p ==> a[i] == b[i],
    decreases p,
{
    if p > 0 {
        lemma_orders_agree_to(ranks, lo, hi, a, b, p - 1);
        let x = a[p - 1];
        let y = b[p - 1];
        assert(b.contains(x));
        assert(a.contains(y));
        let q = choose|q: int| 0 <= q < b.len() && b[q] == x;
        let r = choose|r: int| 0 <= r < a.len() && a[r] == y;
        if q < p - 1 {
            assert(a[q] == x);
            assert(precedes(ranks, a[q] as int, a[p - 1] as int));
        }
        if r < p - 1 {
            assert(b[r] == y);
            assert(precedes(ranks, b[r] as int, b[p - 1] as int));
        }
    }
}

/// There is only one stable order.
pub proof fn law_order_is_unique(ranks: Seq<int>, lo: int, hi: int, a: Seq<usize>, b: Seq<usize>)
    requires
        orders_range(ranks, lo, hi, a),
        orders_range(ranks, lo, hi, b),
    ensures
        a == b,
{
    lemma_orders_agree_to(ranks, lo, hi, a, b, a.len() as int);
    assert(a =~= b);
}

/// Where the index `i` goes into an order of smaller indices: behind every one
/// whose rank is not greater.
spec fn insertion_point(ranks: Seq<int>, order: Seq<usize>, i: int) -> int
    decreases order.len(),
{
    if order.len() == 0 || ranks[order.last() as int] <= ranks[i] {
        order.len() as int
    } else {
        insertion_point(ranks, order.drop_last(), i)
    }
}

proof fn lemma_insertion_point(ranks: Seq<int>, order: Seq<usize>, i: int)
    requires
        forall|p: int, q: int|
            0 <= p < q < order.len() ==> precedes(ranks, #[trigger] order[p] as int, #[trigger] order[q] as int),
    ensures
        0 <= insertion_point(ranks, order, i) <= order.len(),
        forall|p: int|
            0 <= p < insertion_point(ranks, order, i) ==> ranks[#[trigger] order[p] as int] <= ranks[i],
        forall|p: int|
            insertion_point(ranks, order, i) <= p < order.len() ==> ranks[i] < ranks[#[trigger] order[p] as int],
    decreases order.len(),
{
    if order.len() == 0 {
    } else if ranks[order.last() as int] <= ranks[i] {
        assert forall|p: int| 0 <= p < order.len() implies ranks[#[trigger] order[p] as int] <= ranks[i] by {
            if p < order.len() - 1 {
                assert(precedes(ranks, order[p] as int, order[order.len() - 1] as int));
            }
        }
    } else {
        let shorter = order.drop_last();
        assert forall|p: int, q: int| 0 <= p < q < shorter.len() implies precedes(
            ranks,
            #[trigger] shorter[p] as int,
            #[trigger] shorter[q] as int,
        ) by {
            assert(precedes(ranks, order[p] as int, order[q] as int));
        }
        lemma_insertion_point(ranks, shorter, i);
        let at = insertion_point(ranks, shorter, i);
        assert forall|p: int| 0 <= p < at implies ranks[#[trigger] order[p] as int] <= ranks[i] by {
            assert(shorter[p] == order[p]);
        }
        assert forall|p: int| at <= p < order.len() implies ranks[i] < ranks[#[trigger] order[p] as int] by {
            if p < order.len() - 1 {
                assert(shorter[p] == order[p]);
            }
        }
    }
}

proof fn lemma_order_exists_to(ranks: Seq<int>, hi: int) -> (order: Seq<usize>)
    requires
        0 <= hi <= ranks.len(),
        ranks.len() <= usize::MAX,
    ensures
        orders_range(ranks, 0, hi, order),
    decreases hi,
{
    if hi == 0 {
        Seq::empty()
    } else {
        let shorter = lemma_order_exists_to(ranks, hi - 1);
        lemma_insertion_point(ranks, shorter, hi - 1);
        let at = insertion_point(ranks, shorter, hi - 1);
        let order = shorter.insert(at, (hi - 1) as usize);
        assert forall|p: int, q: int| 0 <= p < q < order.len() implies precedes(
            ranks,
            #[trigger] order[p] as int,
            #[trigger] order[q] as int,
        ) by {
            let sp = if p < at { p } else { p - 1 };
            let sq = if q < at { q } else { q - 1 };
            if p != at && q != at {
                assert(order[p] == shorter[sp] && order[q] == shorter[sq]);
            } else if p == at {
                assert(order[q] == shorter[sq]);
            } else {
                assert(order[p] == shorter[sp]);
            }
        }
        assert forall|p: int| 0 <= p < order.len() implies 0 <= (#[trigger] order[p]) < hi by {
            if p < at {
                assert(order[p] == shorter[p]);
            } else if p > at {
                assert(order[p] == shorter[p - 1]);
            }
        }
        assert forall|i: usize| 0 <= i < hi implies #[trigger] order.contains(i) by {
            if i == hi - 1 {
                assert(order[at] == i);
            } else {
                assert(shorter.contains(i));
                let p = choose|p: int| 0 <= p < shorter.len() && shorter[p] == i;
                if p < at {
                    assert(order[p] == i);
                } else {
                    assert(order[p + 1] == i);
                }
            }
        }
        order
    }
}

/// [`sorted_indices`] is a stable order, and the only one.
pub proof fn law_sorted_indices(keys: Seq<Scalar>)
    requires
        keys.len() <= usize::MAX,
    ensures
        orders(keys, sorted_indices(keys)),
        forall|order: Seq<usize>| orders(keys, order) ==> order == sorted_indices(keys),
{
    let witness = lemma_order_exists_to(ranks_of(keys), keys.len() as int);
    assert(orders(keys, witness));
    assert forall|order: Seq<usize>| orders(keys, order) implies order == sorted_indices(keys) by {
        law_order_is_unique(ranks_of(keys), 0, keys.len() as int, order, sorted_indices(keys));
    }
}

/// Sorting lists each index once, no key before a smaller one, and of equal keys,
/// or of NaNs, the earlier first.
pub proof fn law_sorting_is_stable(keys: Seq<Scalar>)
    requires
        keys.len() <= usize::MAX,
    ensures
        sorted_indices(keys).len() == keys.len(),
        sorted_indices(keys).no_duplicates(),
        forall|p: int| 0 <= p < keys.len() ==> (#[trigger] sorted_indices(keys)[p]) < keys.len(),
        forall|i: usize| i < keys.len() ==> #[trigger] sorted_indices(keys).contains(i),
        forall|p: int, q: int|
            0 <= p < q < keys.len() ==> !keys[#[trigger] sorted_indices(keys)[q] as int].lt(
                keys[#[trigger] sorted_indices(keys)[p] as int],
            ),
        forall|p: int, q: int|
            0 <= p < q < keys.len() && (keys[#[trigger] sorted_indices(keys)[p] as int].nan()
                <==> keys[#[trigger] sorted_indices(keys)[q] as int].nan()) && !keys[sorted_indices(keys)[p] as int].lt(keys[sorted_indices(keys)[q] as int])
                ==> sorted_indices(keys)[p] < sorted_indices(keys)[q],
{
    law_sorted_indices(keys);
    let order = sorted_indices(keys);
    let ranks = ranks_of(keys);
    assert forall|p: int, q: int| 0 <= p < q < order.len() implies order[p] != order[q] by {
        assert(precedes(ranks, order[p] as int, order[q] as int));
    }
    assert forall|p: int, q: int| 0 <= p < q < keys.len() implies !keys[#[trigger] order[q] as int].lt(
        keys[#[trigger] order[p] as int],
    ) by {
        assert(precedes(ranks, order[p] as int, order[q] as int));
        lemma_ranks_agree(keys, order[p] as int, order[q] as int);
    }
    assert forall|p: int, q: int|
        0 <= p < q < keys.len() && (keys[#[trigger] order[p] as int].nan() <==> keys[#[trigger] order[q] as int].nan())
            && !keys[order[p] as int].lt(keys[order[q] as int]) implies order[p] < order[q] by {
        assert(precedes(ranks, order[p] as int, order[q] as int));
    }
}

/// Merges the orders of two adjacent ranges.
fn merge_orders(ranks: &[i64], lo: usize, mid: usize, hi: usize, left: &Vec<usize>, right: &Vec<usize>) -> (r: Vec<usize>)
    requires
        lo <= mid <= hi <= ranks@.len(),
        orders_range(as_ints(ranks@), lo as int, mid as int, left@),
        orders_range(as_ints(ranks@), mid as int, hi as int, right@),
    ensures
        orders_range(as_ints(ranks@), lo as int, hi as int, r@),
{
    let ghost rs = as_ints(ranks@);
    let mut out: Vec<usize> = Vec::with_capacity(hi - lo);
    let mut a: usize = 0;
    let mut b: usize = 0;
    while a < left.len() || b < right.len()
        invariant
            lo <= mid <= hi <= ranks@.len(),
            rs == as_ints(ranks@),
            orders_range(rs, lo as int, mid as int, left@),
            orders_range(rs, mid as int, hi as int, right@),
            a <= left@.len(),
            b <= right@.len(),
            out@.len() == a + b,
            forall|p: int| 0 <= p < out@.len() ==> lo <= (#[trigger] out@[p]) < hi,
            forall|p: int, q: int|
                0 <= p < q < out@.len() ==> precedes(rs, #[trigger] out@[p] as int, #[trigger] out@[q] as int),
            forall|p: int, q: int|
                0 <= p < out@.len() && a <= q < left@.len() ==> precedes(rs, #[trigger] out@[p] as int, #[trigger] left@[q] as int),
            forall|p: int, q: int|
                0 <= p < out@.len() && b <= q < right@.len() ==> precedes(rs, #[trigger] out@[p] as int, #[trigger] right@[q] as int),
            forall|q: int| 0 <= q < a ==> out@.contains(#[trigger] left@[q]),
            forall|q: int| 0 <= q < b ==> out@.contains(#[trigger] right@[q]),
        decreases left@.len() - a + right@.len() - b,
    {
        let ghost before = out@;
        let take_left: bool = if a == left.len() {
            false
        } else if b == right.len() {
            true
        } else {
            ranks[left[a]] <= ranks[right[b]]
        };
        let next: usize = if take_left {
            left[a]
        } else {
            right[b]
        };
        out.push(next);
        proof {
            assert(out@[before.len() as int] == next);
            assert forall|v: usize| before.contains(v) implies out@.contains(v) by {
                let p = choose|p: int| 0 <= p < before.len() && before[p] == v;
                assert(out@[p] == v);
            }
        }
        if take_left {
            a = a + 1;
        } else {
            b = b + 1;
        }
    }
    proof {
        assert forall|i: usize| lo <= i < hi implies #[trigger] out@.contains(i) by {
            if i < mid {
                assert(left@.contains(i));
                let q = choose|q: int| 0 <= q < left@.len() && left@[q] == i;
                assert(out@.contains(left@[q]));
            } else {
                assert(right@.contains(i));
                let q = choose|q: int| 0 <= q < right@.len() && right@[q] == i;
                assert(out@.contains(right@[q]));
            }
        }
    }
    out
}

/// Orders the indices `lo..hi` of `ranks` by merging.
fn order_range(ranks: &[i64], lo: usize, hi: usize) -> (r: Vec<usize>)
    requires
        lo <= hi <= ranks@.len(),
    ensures
        orders_range(as_ints(ranks@), lo as int, hi as int, r@),
    decreases hi - lo,
{
    if hi - lo <= 1 {
        let mut out: Vec<usize> = Vec::new();
        if lo < hi {
            out.push(lo);
            assert(out@[0] == lo);
        }
        out
    } else {
        let mid: usize = lo + (hi - lo) / 2;
        let left = order_range(ranks, lo, mid);
        let right = order_range(ranks, mid, hi);
        merge_orders(ranks, lo, mid, hi, &left, &right)
    }
}

/// The stable ascending order of all of `ranks`.
pub fn order_by_rank(ranks: &[i64]) -> (r: Vec<usize>)
    ensures
        orders_range(as_ints(ranks@), 0, ranks@.len() as int, r@),
{
    order_range(ranks, 0, ranks.len())
}

/// The rank that the NaNs among `keys` are sorted by.
fn rank_for_nans(keys: &[Scalar]) -> (r: i64)
    ensures
        r == nan_rank(keys@),
{
    let mut first: usize = 0;
    while first < keys.len() && keys[first].is_nan()
        invariant
            first <= keys@.len(),
            forall|j: int| 0 <= j < first ==> (#[trigger] keys@[j]).nan(),
        decreases keys@.len() - first,
    {
        first = first + 1;
    }
    if first == keys.len() {
        return NAN_RANK;
    }
    let rank: i64 = keys[first].rank();
    let mut i: usize = first;
    while i < keys.len()
        invariant
            first <= i <= keys@.len(),
            first < keys@.len(),
            !keys@[first as int].nan(),
            rank == keys@[first as int].rank_of(),
            forall|j: int| 0 <= j < i ==> (#[trigger] keys@[j]).nan() || keys@[j].rank_of() == rank,
        decreases keys@.len() - i,
    {
        if !keys[i].is_nan() && keys[i].rank() != rank {
            proof {
                let a = keys@[first as int];
                let b = keys@[i as int];
                assert(a.lt(b) || b.lt(a));
                assert(!level(keys@));
            }
            return NAN_RANK;
        }
        i = i + 1;
    }
    proof {
        assert forall|a: int, b: int| 0 <= a < keys@.len() && 0 <= b < keys@.len() implies !(#[trigger] keys@[a]).lt(
            #[trigger] keys@[b],
        ) by {
            assert(keys@[a].nan() || keys@[a].rank_of() == rank);
            assert(keys@[b].nan() || keys@[b].rank_of() == rank);
        }
        let n = choose|n: int| 0 <= n < keys@.len() && !(#[trigger] keys@[n]).nan();
        assert(!keys@[first as int].nan());
        assert(keys@[n].nan() || keys@[n].rank_of() == rank);
    }
    rank
}

/// The stable ascending order of `keys`, with NaNs after every number.
pub fn stable_order(keys: &[Scalar]) -> (r: Vec<usize>)
    ensures
        r@ == sorted_indices(keys@),
        orders(keys@, r@),
{
    let for_nans: i64 = rank_for_nans(keys);
    let mut ranks: Vec<i64> = Vec::with_capacity(keys.len());
    let mut i: usize = 0;
    while i < keys.len()
        invariant
            i <= keys@.len(),
            ranks@.len() == i,
            for_nans == nan_rank(keys@),
            forall|j: int| 0 <= j < i ==> #[trigger] ranks@[j] == ranks_of(keys@)[j],
        decreases keys@.len() - i,
    {
        if keys[i].is_nan() {
            ranks.push(for_nans);
        } else {
            ranks.push(keys[i].rank());
        }
        i = i + 1;
    }
    assert(as_ints(ranks@) =~= ranks_of(keys@));
    let r = order_by_rank(ranks.as_slice());
    proof {
        law_sorted_indices(keys@);
        assert(orders(keys@, r@));
    }
    r
}

proof fn lemma_reordered_multiset_to<T>(items: Seq<T>, order: Seq<usize>, n: int)
    requires
        0 <= n <= items.len(),
        n <= usize::MAX,
        order.len() == n,
        forall|p: int| 0 <= p < n ==> (#[trigger] order[p]) < n,
        forall|p: int, q: int| 0 <= p < q < n ==> #[trigger] order[p] != #[trigger] order[q],
        forall|i: usize| i < n ==> #[trigger] order.contains(i),
    ensures
        order.map_values(|i: usize| items[i as int]).to_multiset() == items.take(n).to_multiset(),
    decreases n,
{
    let picked = order.map_values(|i: usize| items[i as int]);
    if n == 0 {
        assert(picked =~= items.take(0));
    } else {
        let last = (n - 1) as usize;
        assert(order.contains(last));
        let at = choose|p: int| 0 <= p < order.len() && order[p] == last;
        let shorter = order.remove(at);
        assert forall|p: int| 0 <= p < n - 1 implies (#[trigger] shorter[p]) < n - 1 by {
            let q = if p < at { p } else { p + 1 };
            assert(shorter[p] == order[q]);
            assert(order[q] != order[at]) by {
                if q < at {
                    assert(order[q] != order[at]);
                } else {
                    assert(order[at] != order[q]);
                }
            }
        }
        assert forall|p: int, q: int| 0 <= p < q < n - 1 implies #[trigger] shorter[p] != #[trigger] shorter[q] by {
            let a = if p < at { p } else { p + 1 };
            let b = if q < at { q } else { q + 1 };
            assert(shorter[p] == order[a] && shorter[q] == order[b]);
        }
        assert forall|i: usize| i < n - 1 implies #[trigger] shorter.contains(i) by {
            assert(order.contains(i));
            let p = choose|p: int| 0 <= p < order.len() && order[p] == i;
            if p < at {
                assert(shorter[p] == i);
            } else {
                assert(p != at);
                assert(shorter[p - 1] == i);
            }
        }
        lemma_reordered_multiset_to(items, shorter, n - 1);
        let rest = shorter.map_values(|i: usize| items[i as int]);
        assert(rest =~= picked.remove(at));
        vstd::seq_lib::to_multiset_remove(picked, at);
        assert(items.take(n) =~= items.take(n - 1).push(items[n - 1]));
        vstd::seq_lib::to_multiset_build(items.take(n - 1), items[n - 1]);
        assert(picked[at] == items[n - 1]);
        vstd::seq_lib::to_multiset_contains(picked, picked[at]);
        assert(picked.contains(picked[at]));
        assert(picked.to_multiset() =~= items.take(n).to_multiset());
    }
}

/// Taking the items in an order of all their indices keeps each as often as it
/// occurs.
pub proof fn lemma_reordered_multiset<T>(items: Seq<T>, order: Seq<usize>, taken: Seq<T>)
    requires
        items.len() <= usize::MAX,
        taken.len() == items.len(),
        order.len() == items.len(),
        forall|p: int| 0 <= p < order.len() ==> (#[trigger] order[p]) < items.len(),
        forall|p: int, q: int| 0 <= p < q < order.len() ==> #[trigger] order[p] != #[trigger] order[q],
        forall|i: usize| i < items.len() ==> #[trigger] order.contains(i),
        forall|p: int| 0 <= p < taken.len() ==> #[trigger] taken[p] == items[order[p] as int],
    ensures
        taken.to_multiset() == items.to_multiset(),
{
    lemma_reordered_multiset_to(items, order, items.len() as int);
    assert(items.take(items.len() as int) =~= items);
    assert(order.map_values(|i: usize| items[i as int]) =~= taken);
}

} // verus!
