//! Top-k search in a file and over several files.

use crate::arithmetic::{distances, measured, measures};
use crate::calls::lemma_one_is_missing;
use crate::embeddings::lemma_whole_rows;
use crate::error::Error;
use crate::heap::{DistanceHeap, HeapItem};
use crate::index::IvfIndex;
use crate::order::{lemma_ranks_agree, lemma_reordered_multiset, law_sorted_indices, precedes, ranks_of, sorted_indices, stable_order};
use crate::scalar::{all_numbers, level, Scalar};
use vstd::prelude::*;
use vstd::seq_lib::{to_multiset_build, to_multiset_contains, to_multiset_len, to_multiset_remove};

verus! {

/// Result item from top-k search.
#[derive(Clone, Copy, PartialEq, Eq, Structural, Debug)]
pub struct SearchResult {
    pub row_idx: u32,
    pub distance: Scalar,
}

/// The distances of `results`.
pub open spec fn distances_of(results: Seq<SearchResult>) -> Seq<Scalar> {
    results.map_values(|result: SearchResult| result.distance)
}

/// `results` by ascending distance, in their order where distances are equal.
pub open spec fn by_distance(results: Seq<SearchResult>) -> Seq<SearchResult> {
    sorted_indices(distances_of(results)).map_values(|i: usize| results[i as int])
}

/// Sorting results by distance keeps each of them, and no distance is followed by
/// a smaller one.
pub proof fn law_by_distance_sorts(results: Seq<SearchResult>)
    requires
        results.len() <= usize::MAX,
    ensures
        by_distance(results).to_multiset() == results.to_multiset(),
        forall|p: int, q: int|
            0 <= p < q < by_distance(results).len() ==> !(#[trigger] by_distance(results)[q]).distance.lt(
                (#[trigger] by_distance(results)[p]).distance,
            ),
{
    let keys = distances_of(results);
    let order = sorted_indices(keys);
    law_sorted_indices(keys);
    assert forall|p: int, q: int| 0 <= p < q < order.len() implies #[trigger] order[p] != #[trigger] order[q] by {
        assert(precedes(ranks_of(keys), order[p] as int, order[q] as int));
    }
    lemma_reordered_multiset(results, order, by_distance(results));
    assert forall|p: int, q: int| 0 <= p < q < by_distance(results).len() implies !(#[trigger] by_distance(
        results,
    )[q]).distance.lt((#[trigger] by_distance(results)[p]).distance) by {
        assert(precedes(ranks_of(keys), order[p] as int, order[q] as int));
        lemma_ranks_agree(keys, order[p] as int, order[q] as int);
    }
}

/// Sorts `results` by distance.
fn sort_by_distance(results: &Vec<SearchResult>) -> (r: Vec<SearchResult>)
    ensures
        r@ == by_distance(results@),
{
    let mut keys: Vec<Scalar> = Vec::with_capacity(results.len());
    let mut i: usize = 0;
    while i < results.len()
        invariant
            i <= results@.len(),
            keys@.len() == i,
            forall|j: int| 0 <= j < i ==> #[trigger] keys@[j] == results@[j].distance,
        decreases results@.len() - i,
    {
        keys.push(results[i].distance);
        i = i + 1;
    }
    assert(keys@ =~= distances_of(results@));
    let order = stable_order(keys.as_slice());
    let mut sorted: Vec<SearchResult> = Vec::with_capacity(results.len());
    let mut p: usize = 0;
    while p < order.len()
        invariant
            p <= order@.len(),
            forall|q: int| 0 <= q < order@.len() ==> (#[trigger] order@[q]) < results@.len(),
            sorted@.len() == p,
            forall|q: int| 0 <= q < p ==> #[trigger] sorted@[q] == results@[order@[q] as int],
        decreases order@.len() - p,
    {
        sorted.push(results[order[p]]);
        p = p + 1;
    }
    assert(sorted@ =~= by_distance(results@));
    sorted
}

/// The rows worth reading in a search for `query`: those of the `nprobe` clusters
/// whose centroids are closest to it.
pub fn topk_candidates<M: Fn(&[Scalar], &[Scalar]) -> Vec<Scalar>>(
    index: &IvfIndex,
    query: &[Scalar],
    nprobe: usize,
    measure: &M,
) -> (r: Result<Vec<u32>, Error>)
    requires
        index@.well_formed(),
        measures(*measure),
    ensures
        query@.len() != index@.dim ==> r == Err::<Vec<u32>, Error>(
            Error::QueryDimension { expected: index@.dim as usize, got: query@.len() as usize },
        ),
        query@.len() == index@.dim ==> {
            &&& r is Ok
            &&& index@.proposes(*measure, query@, nprobe as nat, r->Ok_0@)
        },
{
    if query.len() != index.dim() {
        return Err(Error::QueryDimension { expected: index.dim(), got: query.len() });
    }
    Ok(index.candidate_rows(query, nprobe, measure))
}

/// The candidates at the indices `picked`.
spec fn candidates_at(rows: Seq<u32>, distances: Seq<Scalar>, picked: Seq<int>) -> Seq<HeapItem> {
    picked.map_values(|i: int| HeapItem { row_idx: rows[i], distance: distances[i] })
}

/// How many of the first `upto` distances are numbers and not above `distance`.
pub open spec fn at_or_below(distances: Seq<Scalar>, distance: Scalar, upto: int) -> nat
    decreases upto,
{
    if upto <= 0 {
        0
    } else {
        at_or_below(distances, distance, upto - 1) + if !distances[upto - 1].nan() && !distance.lt(
            distances[upto - 1],
        ) {
            1nat
        } else {
            0nat
        }
    }
}

/// Whether none of the first `k` distances is a NaN.
pub open spec fn starts_with_numbers(distances: Seq<Scalar>, k: nat) -> bool {
    forall|i: int| 0 <= i < k && i < distances.len() ==> !(#[trigger] distances[i]).nan()
}

/// Whether `picked` are the indices of the `k` least distances, or of all where
/// there are fewer, in any order.
///
/// A NaN is picked only among the first `k`, and a later distance only where it is
/// below another. Where none of the first `k` is a NaN, no distance left out is
/// below one that is picked, and of equal distances the earlier are picked: fewer
/// than `k` before a picked one are not above it. Where one of the first `k` is a
/// NaN, which is neither above nor below any other, more is not said.
pub open spec fn picks_nearest(distances: Seq<Scalar>, k: nat, picked: Seq<int>) -> bool {
    &&& picked.len() == if k < distances.len() {
        k
    } else {
        distances.len()
    }
    &&& picked.no_duplicates()
    &&& forall|p: int| 0 <= p < picked.len() ==> 0 <= #[trigger] picked[p] < distances.len()
    &&& forall|p: int| 0 <= p < picked.len() && distances[#[trigger] picked[p]].nan() ==> picked[p] < k
    &&& level(distances) ==> forall|p: int| 0 <= p < picked.len() ==> #[trigger] picked[p] < k
    &&& starts_with_numbers(distances, k) ==> {
        &&& forall|p: int, i: int|
            0 <= p < picked.len() && 0 <= i < distances.len() && !picked.contains(i) ==> !(
            #[trigger] distances[i]).lt(distances[#[trigger] picked[p]])
        &&& forall|p: int|
            0 <= p < picked.len() ==> at_or_below(distances, distances[#[trigger] picked[p]], picked[p]) < k
    }
}

/// Whether `results` are the candidates at `picked`, each with the root of its
/// distance, by ascending root.
pub open spec fn reports<R: Fn(Scalar) -> Scalar>(
    rows: Seq<u32>,
    distances: Seq<Scalar>,
    root: R,
    picked: Seq<int>,
    results: Seq<SearchResult>,
) -> bool {
    &&& results.len() == picked.len()
    &&& forall|p: int|
        0 <= p < results.len() ==> (#[trigger] results[p]).row_idx == rows[picked[p]] && call_ensures(
            root,
            (distances[picked[p]],),
            results[p].distance,
        )
    &&& forall|p: int, q: int|
        0 <= p < q < results.len() ==> !(#[trigger] results[q]).distance.lt((#[trigger] results[p]).distance)
}

proof fn lemma_picks_reordered(distances: Seq<Scalar>, k: nat, picked: Seq<int>, other: Seq<int>)
    requires
        picks_nearest(distances, k, picked),
        other.to_multiset() == picked.to_multiset(),
    ensures
        picks_nearest(distances, k, other),
{
    to_multiset_len(picked);
    to_multiset_len(other);
    picked.lemma_multiset_has_no_duplicates();
    other.lemma_multiset_has_no_duplicates_conv();
    assert forall|i: int| #[trigger] picked.contains(i) <==> other.contains(i) by {
        to_multiset_contains(picked, i);
        to_multiset_contains(other, i);
    }
    assert forall|p: int| 0 <= p < other.len() implies exists|q: int|
        0 <= q < picked.len() && picked[q] == #[trigger] other[p] by {
        assert(picked.contains(other[p])) by {
            assert(other.contains(other[p]));
        }
    }
    assert forall|p: int| 0 <= p < other.len() implies {
        &&& 0 <= #[trigger] other[p] < distances.len()
        &&& distances[other[p]].nan() ==> other[p] < k
        &&& level(distances) ==> other[p] < k
        &&& starts_with_numbers(distances, k) ==> at_or_below(distances, distances[other[p]], other[p]) < k
    } by {
        let q = choose|q: int| 0 <= q < picked.len() && picked[q] == other[p];
        assert(0 <= picked[q] < distances.len());
    }
    if starts_with_numbers(distances, k) {
        assert forall|p: int, i: int|
            0 <= p < other.len() && 0 <= i < distances.len() && !other.contains(i) implies !(
        #[trigger] distances[i]).lt(distances[#[trigger] other[p]]) by {
            let q = choose|q: int| 0 <= q < picked.len() && picked[q] == other[p];
            assert(!picked.contains(i));
            assert(!distances[i].lt(distances[picked[q]]));
        }
    }
}

/// The indices `picked`, in the order of `items`, which hold the candidates at
/// those indices.
proof fn lemma_in_order_of(
    rows: Seq<u32>,
    distances: Seq<Scalar>,
    picked: Seq<int>,
    items: Seq<HeapItem>,
) -> (r: Seq<int>)
    requires
        items.to_multiset() == candidates_at(rows, distances, picked).to_multiset(),
    ensures
        r.to_multiset() == picked.to_multiset(),
        items == candidates_at(rows, distances, r),
    decreases items.len(),
{
    let all = candidates_at(rows, distances, picked);
    to_multiset_len(items);
    to_multiset_len(all);
    if items.len() == 0 {
        assert(items =~= all);
        picked
    } else {
        let last = items.last();
        assert(items.contains(last)) by {
            assert(items[items.len() - 1] == last);
        }
        to_multiset_contains(items, last);
        to_multiset_contains(all, last);
        let at = choose|at: int| 0 <= at < all.len() && all[at] == last;
        let fewer = picked.remove(at);
        assert(candidates_at(rows, distances, fewer) =~= all.remove(at));
        to_multiset_remove(all, at);
        to_multiset_remove(items, items.len() - 1);
        assert(items.remove(items.len() - 1) =~= items.drop_last());
        let front = lemma_in_order_of(rows, distances, fewer, items.drop_last());
        let r = front.push(picked[at]);
        to_multiset_build(front, picked[at]);
        to_multiset_remove(picked, at);
        assert(picked.contains(picked[at]));
        to_multiset_contains(picked, picked[at]);
        assert(r.to_multiset() =~= picked.to_multiset());
        let ordered = candidates_at(rows, distances, r);
        assert(ordered.drop_last() =~= candidates_at(rows, distances, front));
        assert(ordered =~= items) by {
            assert forall|p: int| 0 <= p < items.len() implies ordered[p] == items[p] by {
                if p < items.len() - 1 {
                    assert(ordered.drop_last()[p] == items.drop_last()[p]);
                }
            }
        }
        r
    }
}

proof fn lemma_at_or_below_len(d: Seq<Scalar>, x: Scalar, upto: int)
    ensures
        at_or_below(d, x, upto) <= if upto < 0 {
            0
        } else {
            upto
        },
    decreases upto,
{
    if upto > 0 {
        lemma_at_or_below_len(d, x, upto - 1);
    }
}

proof fn lemma_at_or_below_prefix(before: Seq<Scalar>, next: Scalar, x: Scalar, upto: int)
    requires
        upto <= before.len(),
    ensures
        at_or_below(before.push(next), x, upto) == at_or_below(before, x, upto),
    decreases upto,
{
    if upto > 0 {
        lemma_at_or_below_prefix(before, next, x, upto - 1);
    }
}

/// The indices of the distances that are not above `x`.
proof fn lemma_at_or_below_indices(d: Seq<Scalar>, x: Scalar, upto: int) -> (r: Seq<int>)
    requires
        0 <= upto <= d.len(),
    ensures
        r.len() == at_or_below(d, x, upto),
        r.no_duplicates(),
        forall|p: int|
            0 <= p < r.len() ==> 0 <= #[trigger] r[p] < upto && !d[r[p]].nan() && !x.lt(d[r[p]]),
    decreases upto,
{
    if upto == 0 {
        Seq::empty()
    } else {
        let front = lemma_at_or_below_indices(d, x, upto - 1);
        if !d[upto - 1].nan() && !x.lt(d[upto - 1]) {
            let r = front.push(upto - 1);
            assert forall|p: int, q: int| 0 <= p < q < r.len() implies r[p] != r[q] by {
                if q < front.len() {
                    assert(front[p] != front[q]);
                } else {
                    assert(front[p] < upto - 1);
                }
            }
            r
        } else {
            front
        }
    }
}

/// The position in `picked` of what is at `p` once the one at `at` is gone.
proof fn lemma_left_over(picked: Seq<int>, at: int, p: int) -> (q: int)
    requires
        0 <= at < picked.len(),
        0 <= p < picked.len() - 1,
    ensures
        0 <= q < picked.len(),
        q != at,
        picked[q] == picked.remove(at)[p],
{
    if p < at {
        p
    } else {
        p + 1
    }
}

proof fn lemma_still_picked(picked: Seq<int>, at: int, i: int)
    requires
        0 <= at < picked.len(),
        picked.contains(i),
        i != picked[at],
    ensures
        picked.remove(at).contains(i),
{
    let q = choose|q: int| 0 <= q < picked.len() && picked[q] == i;
    if q < at {
        assert(picked.remove(at)[q] == i);
    } else {
        assert(picked.remove(at)[q - 1] == i);
    }
}

/// What is below one of the `k` picked has fewer than `k` before it at or below it.
proof fn lemma_few_at_or_below(before: Seq<Scalar>, next: Scalar, k: nat, picked: Seq<int>, at: int)
    requires
        picked.len() == k,
        0 <= at < picked.len(),
        next.lt(before[picked[at]]),
        forall|i: int|
            0 <= i < before.len() && !picked.contains(i) ==> !(#[trigger] before[i]).lt(before[picked[at]]),
    ensures
        at_or_below(before, next, before.len() as int) < k,
{
    let rivals = lemma_at_or_below_indices(before, next, before.len() as int);
    if rivals.len() >= k {
        let q = lemma_one_is_missing(rivals, picked.remove(at));
        let i = rivals[q];
        if picked.contains(i) {
            if i != picked[at] {
                lemma_still_picked(picked, at, i);
            }
        } else {
            assert(!before[i].lt(before[picked[at]]));
        }
    }
}

/// The `k` picked are nearest again once the farthest gives way to a nearer one.
proof fn lemma_pick_replaced(before: Seq<Scalar>, next: Scalar, k: nat, picked: Seq<int>, at: int)
    requires
        picks_nearest(before, k, picked),
        picked.len() == k <= before.len(),
        0 <= at < picked.len(),
        next.lt(before[picked[at]]),
        starts_with_numbers(before, k) ==> forall|p: int|
            0 <= p < picked.len() ==> !before[picked[at]].lt(before[#[trigger] picked[p]]),
    ensures
        picks_nearest(before.push(next), k, picked.remove(at).push(before.len() as int)),
{
    let n = before.len() as int;
    let after = before.push(next);
    let fewer = picked.remove(at);
    let swapped = fewer.push(n);
    assert forall|p: int| 0 <= p < fewer.len() implies {
        &&& 0 <= #[trigger] swapped[p] < n
        &&& after[swapped[p]] == before[swapped[p]]
        &&& before[swapped[p]].nan() ==> swapped[p] < k
    } by {
        let q = lemma_left_over(picked, at, p);
        assert(0 <= picked[q] < n);
        assert(before[picked[q]].nan() ==> picked[q] < k);
    }
    assert(swapped[fewer.len() as int] == n && after[n] == next);
    assert forall|p: int, q: int| 0 <= p < q < swapped.len() implies swapped[p] != swapped[q] by {
        if q < fewer.len() {
            let a = lemma_left_over(picked, at, p);
            let b = lemma_left_over(picked, at, q);
            assert(a != b);
            assert(picked[a] != picked[b]);
        } else {
            assert(swapped[p] < n);
        }
    }
    assert(after[n].lt(after[picked[at]]));
    assert(!level(after));
    if starts_with_numbers(after, k) {
        lemma_replaced_is_nearest(before, next, k, picked, at);
    }
}

proof fn lemma_replaced_is_nearest(before: Seq<Scalar>, next: Scalar, k: nat, picked: Seq<int>, at: int)
    requires
        picks_nearest(before, k, picked),
        picked.len() == k <= before.len(),
        0 <= at < picked.len(),
        next.lt(before[picked[at]]),
        starts_with_numbers(before, k) ==> forall|p: int|
            0 <= p < picked.len() ==> !before[picked[at]].lt(before[#[trigger] picked[p]]),
        starts_with_numbers(before.push(next), k),
    ensures
        ({
            let after = before.push(next);
            let swapped = picked.remove(at).push(before.len() as int);
            &&& forall|p: int, i: int|
                0 <= p < swapped.len() && 0 <= i < after.len() && !swapped.contains(i) ==> !(#[trigger] after[i]).lt(
                    after[#[trigger] swapped[p]],
                )
            &&& forall|p: int|
                0 <= p < swapped.len() ==> at_or_below(after, after[#[trigger] swapped[p]], swapped[p]) < k
        }),
{
    let n = before.len() as int;
    let after = before.push(next);
    let fewer = picked.remove(at);
    let swapped = fewer.push(n);
    let worst = before[picked[at]];
    assert forall|i: int| 0 <= i < k && i < before.len() implies !(#[trigger] before[i]).nan() by {
        assert(!after[i].nan());
    }
    assert(swapped[fewer.len() as int] == n && after[n] == next);
    assert forall|p: int| 0 <= p < swapped.len() implies !worst.lt(after[#[trigger] swapped[p]])
        && !after[swapped[p]].nan() && at_or_below(after, after[swapped[p]], swapped[p]) < k by {
        if p < fewer.len() {
            let q = lemma_left_over(picked, at, p);
            assert(swapped[p] == picked[q]);
            assert(0 <= picked[q] < n);
            assert(before[picked[q]].nan() ==> picked[q] < k);
            assert(!worst.lt(before[picked[q]]));
            lemma_at_or_below_prefix(before, next, before[picked[q]], picked[q]);
            assert(at_or_below(before, before[picked[q]], picked[q]) < k);
        } else {
            lemma_at_or_below_prefix(before, next, next, n);
            lemma_few_at_or_below(before, next, k, picked, at);
        }
    }
    assert forall|p: int, i: int|
        0 <= p < swapped.len() && 0 <= i < after.len() && !swapped.contains(i) implies !(#[trigger] after[i]).lt(
        after[#[trigger] swapped[p]],
    ) by {
        if i == n {
            assert(swapped.contains(n));
        } else if i != picked[at] {
            if picked.contains(i) {
                lemma_still_picked(picked, at, i);
                let q = choose|q: int| 0 <= q < fewer.len() && fewer[q] == i;
                assert(swapped[q] == i);
            }
            assert(!before[i].lt(before[picked[at]]));
        }
    }
}

proof fn lemma_pick_kept(before: Seq<Scalar>, next: Scalar, k: nat, picked: Seq<int>)
    requires
        picks_nearest(before, k, picked),
        picked.len() == k <= before.len(),
        starts_with_numbers(before, k) ==> forall|p: int|
            0 <= p < picked.len() ==> !next.lt(before[#[trigger] picked[p]]),
    ensures
        picks_nearest(before.push(next), k, picked),
{
    let after = before.push(next);
    assert forall|p: int| 0 <= p < picked.len() implies after[#[trigger] picked[p]] == before[picked[p]] by {}
    if level(after) {
        assert forall|i: int, j: int| 0 <= i < before.len() && 0 <= j < before.len() implies !(
        #[trigger] before[i]).lt(#[trigger] before[j]) by {
            assert(!after[i].lt(after[j]));
        }
    }
    if starts_with_numbers(after, k) {
        assert forall|i: int| 0 <= i < k && i < before.len() implies !(#[trigger] before[i]).nan() by {
            assert(!after[i].nan());
        }
        assert forall|p: int, i: int|
            0 <= p < picked.len() && 0 <= i < after.len() && !picked.contains(i) implies !(#[trigger] after[i]).lt(
            after[#[trigger] picked[p]],
        ) by {
            if i < before.len() {
                assert(!before[i].lt(before[picked[p]]));
            }
        }
        assert forall|p: int| 0 <= p < picked.len() implies at_or_below(after, after[#[trigger] picked[p]], picked[p])
            < k by {
            lemma_at_or_below_prefix(before, next, before[picked[p]], picked[p]);
        }
    }
}

/// The `k` nearest candidates, in any order.
fn nearest_candidates(rows: &[u32], distances: &[Scalar], k: usize) -> (r: Vec<HeapItem>)
    requires
        rows@.len() == distances@.len(),
    ensures
        exists|picked: Seq<int>|
            picks_nearest(distances@, k as nat, picked) && r@ == #[trigger] candidates_at(rows@, distances@, picked),
{
    let mut heap = DistanceHeap::new();
    let ghost mut picked: Seq<int> = Seq::empty();
    let mut i: usize = 0;
    proof {
        to_multiset_len(candidates_at(rows@, distances@, picked));
        assert(candidates_at(rows@, distances@, picked).to_multiset() =~= heap@);
        assert(picked =~= Seq::new(0, |j: int| j));
    }
    while i < rows.len()
        invariant
            i <= rows@.len() == distances@.len(),
            heap@ == candidates_at(rows@, distances@, picked).to_multiset(),
            picks_nearest(distances@.take(i as int), k as nat, picked),
            i <= k ==> picked == Seq::new(i as nat, |j: int| j),
        decreases rows@.len() - i,
    {
        let item = HeapItem { row_idx: rows[i], distance: distances[i] };
        let ghost before = distances@.take(i as int);
        let ghost next = distances@[i as int];
        let ghost held = candidates_at(rows@, distances@, picked);
        proof {
            to_multiset_len(held);
            assert(distances@.take(i + 1) =~= before.push(next));
            assert forall|p: int| 0 <= p < held.len() implies heap@.contains(#[trigger] held[p]) by {
                assert(held.contains(held[p]));
                to_multiset_contains(held, held[p]);
            }
            assert forall|p: int| 0 <= p < picked.len() implies before[#[trigger] picked[p]] == held[p].distance by {}
        }
        if heap.len() < k {
            heap.push(item);
            proof {
                let grown = picked.push(i as int);
                assert(candidates_at(rows@, distances@, grown) =~= held.push(item));
                to_multiset_build(held, item);
                assert(grown =~= Seq::new((i + 1) as nat, |j: int| j));
                let after = before.push(next);
                assert forall|j: int| 0 <= j < after.len() implies #[trigger] grown.contains(j) by {
                    assert(grown[j] == j);
                }
                assert forall|p: int| 0 <= p < grown.len() implies at_or_below(after, after[#[trigger] grown[p]], grown[p])
                    < k by {
                    lemma_at_or_below_len(after, after[grown[p]], grown[p]);
                }
                picked = grown;
            }
        } else if let Some(top) = heap.peek() {
            proof {
                to_multiset_contains(held, top);
                if starts_with_numbers(before, k as nat) {
                    assert forall|x: HeapItem| #[trigger] heap@.contains(x) implies !x.distance.nan() by {
                        to_multiset_contains(held, x);
                        let p = choose|p: int| 0 <= p < held.len() && held[p] == x;
                        assert(before[picked[p]] == x.distance);
                    }
                    assert forall|p: int| 0 <= p < picked.len() implies !top.distance.lt(before[#[trigger] picked[p]])
                        && !before[picked[p]].nan() by {
                        assert(heap@.contains(held[p]));
                    }
                }
            }
            let ghost at = choose|at: int| 0 <= at < held.len() && held[at] == top;
            assert(before[picked[at]] == top.distance);
            if item.distance.less(top.distance) {
                let _popped = heap.pop();
                heap.push(item);
                proof {
                    lemma_pick_replaced(before, next, k as nat, picked, at);
                    let fewer = held.remove(at);
                    to_multiset_remove(held, at);
                    to_multiset_build(fewer, item);
                    let swapped = picked.remove(at).push(i as int);
                    assert(candidates_at(rows@, distances@, swapped) =~= fewer.push(item));
                    picked = swapped;
                }
            } else {
                proof {
                    assert(starts_with_numbers(before, k as nat) ==> !top.distance.nan());
                    lemma_pick_kept(before, next, k as nat, picked);
                }
            }
        }
        i = i + 1;
    }
    let items = heap.into_vec();
    proof {
        assert(distances@.take(i as int) =~= distances@);
        let order = lemma_in_order_of(rows@, distances@, picked, items@);
        lemma_picks_reordered(distances@, k as nat, picked, order);
        assert(items@ == candidates_at(rows@, distances@, order));
    }
    items
}

/// Whether `results` are the `k` of `rows` nearest to `query`, nearest first, going
/// by the distances that `measure` gave for the vectors in `embeddings`.
pub open spec fn answers<M: Fn(&[Scalar], &[Scalar]) -> Vec<Scalar>, R: Fn(Scalar) -> Scalar>(
    measure: M,
    root: R,
    query: Seq<Scalar>,
    rows: Seq<u32>,
    embeddings: Seq<Scalar>,
    k: nat,
    results: Seq<SearchResult>,
) -> bool {
    if rows.len() == 0 {
        results.len() == 0
    } else {
        exists|d: Seq<Scalar>, picked: Seq<int>|
            {
                &&& measured(measure, query, embeddings.take((rows.len() * query.len()) as int), d)
                &&& d.len() == rows.len()
                &&& picks_nearest(d, k, picked)
                &&& #[trigger] reports(rows, d, root, picked, results)
            }
    }
}

/// The `k` candidates nearest to `query`, nearest first. `embeddings` holds the
/// vector of each of `rows`.
pub fn top_results<M: Fn(&[Scalar], &[Scalar]) -> Vec<Scalar>, R: Fn(Scalar) -> Scalar>(
    query: &[Scalar],
    rows: &[u32],
    embeddings: &[Scalar],
    k: usize,
    measure: &M,
    root: &R,
) -> (r: Vec<SearchResult>)
    requires
        measures(*measure),
        forall|square: Scalar| #[trigger] call_requires(*root, (square,)),
        rows@.len() > 0 ==> query@.len() > 0,
        rows@.len() * query@.len() <= embeddings@.len(),
    ensures
        answers(*measure, *root, query@, rows@, embeddings@, k as nat, r@),
{
    if rows.len() == 0 {
        return Vec::new();
    }
    proof {
        lemma_whole_rows(rows@.len() as int, query@.len() as int);
        assert(embeddings@.len() == embeddings.len());
    }
    let used: usize = rows.len() * query.len();
    let vectors = vstd::slice::slice_subrange(embeddings, 0, used);
    assert(vectors@ =~= embeddings@.take((rows@.len() * query@.len()) as int));
    let d = distances(measure, query, vectors);
    let items = nearest_candidates(rows, d.as_slice(), k);
    let ghost picked = choose|picked: Seq<int>|
        picks_nearest(d@, k as nat, picked) && items@ == #[trigger] candidates_at(rows@, d@, picked);
    let mut results: Vec<SearchResult> = Vec::with_capacity(items.len());
    let mut p: usize = 0;
    while p < items.len()
        invariant
            p <= items@.len(),
            forall|square: Scalar| #[trigger] call_requires(*root, (square,)),
            results@.len() == p,
            forall|q: int|
                0 <= q < p ==> (#[trigger] results@[q]).row_idx == items@[q].row_idx && call_ensures(
                    *root,
                    (items@[q].distance,),
                    results@[q].distance,
                ),
        decreases items@.len() - p,
    {
        let distance: Scalar = root(items[p].distance);
        results.push(SearchResult { row_idx: items[p].row_idx, distance });
        p = p + 1;
    }
    let sorted = sort_by_distance(&results);
    proof {
        let keys = distances_of(results@);
        let order = sorted_indices(keys);
        law_sorted_indices(keys);
        law_by_distance_sorts(results@);
        let other = order.map_values(|i: usize| picked[i as int]);
        assert forall|p: int, q: int| 0 <= p < q < order.len() implies #[trigger] order[p] != #[trigger] order[q] by {
            assert(precedes(ranks_of(keys), order[p] as int, order[q] as int));
        }
        lemma_reordered_multiset(picked, order, other);
        lemma_picks_reordered(d@, k as nat, picked, other);
        assert forall|p: int| 0 <= p < sorted@.len() implies (#[trigger] sorted@[p]).row_idx == rows@[other[p]]
            && call_ensures(*root, (d@[other[p]],), sorted@[p].distance) by {
            let i = order[p] as int;
            assert(sorted@[p] == results@[i]);
            assert(items@[i] == candidates_at(rows@, d@, picked)[i]);
        }
        assert(reports(rows@, d@, *root, other, sorted@));
    }
    sorted
}

/// The results of the searches that succeeded, one search after the other.
pub open spec fn gathered_results<E>(parts: Seq<Result<Vec<SearchResult>, E>>) -> Seq<SearchResult>
    decreases parts.len(),
{
    if parts.len() == 0 {
        Seq::empty()
    } else {
        let front = gathered_results(parts.drop_last());
        match parts.last() {
            Ok(results) => front + results@,
            Err(_) => front,
        }
    }
}

/// The results of all the searches that succeeded, nearest first.
pub fn merge_results<E>(parts: &Vec<Result<Vec<SearchResult>, E>>) -> (r: Vec<SearchResult>)
    requires
        gathered_results(parts@).len() < 2 || all_numbers(distances_of(gathered_results(parts@))),
    ensures
        r@ == by_distance(gathered_results(parts@)),
{
    let mut all: Vec<SearchResult> = Vec::new();
    let mut i: usize = 0;
    while i < parts.len()
        invariant
            i <= parts@.len(),
            all@ == gathered_results(parts@.take(i as int)),
        decreases parts@.len() - i,
    {
        assert(parts@.take(i + 1).drop_last() =~= parts@.take(i as int));
        if let Ok(results) = &parts[i] {
            let ghost before = all@;
            all.extend_from_slice(results.as_slice());
            assert(all@ =~= before + results@);
        }
        i = i + 1;
    }
    assert(parts@.take(i as int) =~= parts@);
    sort_by_distance(&all)
}

} // verus!
