//! Which rows a search looks at, and which results it keeps: as many clusters as
//! were asked for are probed, every row of them is a candidate, and no result of a
//! search that succeeded is lost.

use crate::arithmetic::measured;
use crate::index::{probed, rows_in, IndexModel};
use crate::order::{law_sorting_is_stable, sorted_indices};
use crate::reproducible::{lemma_measured_once, measure_repeats};
use crate::scalar::Scalar;
use crate::search::{
    answers, at_or_below, by_distance, distances_of, gathered_results, law_by_distance_sorts, picks_nearest, reports,
    starts_with_numbers, SearchResult,
};
use crate::sums::total;
use vstd::prelude::*;

verus! {

/// The clusters probed are different ones, as many as were asked for of all there
/// are. None is followed by a closer one, or by an earlier one as close, and none
/// that is passed over is closer than one of them. What is close goes by what
/// `measure` gave for the query and the centroids.
///
/// Gives the distances of the centroids.
pub proof fn law_as_many_clusters_are_probed_as_asked_for<M: Fn(&[Scalar], &[Scalar]) -> Vec<Scalar>>(
    measure: M,
    index: IndexModel,
    query: Seq<Scalar>,
    nprobe: nat,
    clusters: Seq<usize>,
) -> (distances: Seq<Scalar>)
    requires
        index.probes(measure, query, nprobe, clusters),
    ensures
        exists|v: &[Scalar], m: &[Scalar], d: Vec<Scalar>|
            v@ == query && m@ == index.centroids && d@ == distances && #[trigger] call_ensures(measure, (v, m), d),
        distances.len() == index.n_clusters,
        clusters.len() == if nprobe < index.n_clusters {
            nprobe
        } else {
            index.n_clusters as nat
        },
        clusters.no_duplicates(),
        forall|p: int| 0 <= p < clusters.len() ==> (#[trigger] clusters[p]) < index.n_clusters,
        forall|p: int, q: int|
            0 <= p < q < clusters.len() ==> !distances[#[trigger] clusters[q] as int].lt(
                distances[#[trigger] clusters[p] as int],
            ),
        forall|p: int, q: int|
            0 <= p < q < clusters.len() && distances[#[trigger] clusters[p] as int].same(
                distances[#[trigger] clusters[q] as int],
            ) ==> clusters[p] < clusters[q],
        forall|p: int, c: usize|
            0 <= p < clusters.len() && c < index.n_clusters && !clusters.contains(c)
                ==> !(#[trigger] distances[c as int]).lt(distances[#[trigger] clusters[p] as int]),
{
    let d = choose|d: Seq<Scalar>| #[trigger]
        index.centroids_measured(measure, query, d) && clusters == probed(d, nprobe);
    lemma_probed(d, nprobe);
    d
}

proof fn lemma_probed(d: Seq<Scalar>, nprobe: nat)
    requires
        d.len() <= usize::MAX,
    ensures
        ({
            let clusters = probed(d, nprobe);
            &&& clusters.len() == if nprobe < d.len() {
                nprobe
            } else {
                d.len()
            }
            &&& clusters.no_duplicates()
            &&& forall|p: int| 0 <= p < clusters.len() ==> (#[trigger] clusters[p]) < d.len()
            &&& forall|p: int, q: int|
                0 <= p < q < clusters.len() ==> !d[#[trigger] clusters[q] as int].lt(d[#[trigger] clusters[p] as int])
            &&& forall|p: int, q: int|
                0 <= p < q < clusters.len() && d[#[trigger] clusters[p] as int].same(d[#[trigger] clusters[q] as int])
                    ==> clusters[p] < clusters[q]
            &&& forall|p: int, c: usize|
                0 <= p < clusters.len() && c < d.len() && !clusters.contains(c) ==> !(#[trigger] d[c as int]).lt(
                    d[#[trigger] clusters[p] as int],
                )
        }),
{
    law_sorting_is_stable(d);
    let order = sorted_indices(d);
    let clusters = probed(d, nprobe);
    assert forall|p: int, q: int| 0 <= p < q < clusters.len() implies clusters[p] != clusters[q] by {
        assert(order[p] != order[q]);
    }
    assert forall|p: int, q: int| 0 <= p < q < clusters.len() implies !d[#[trigger] clusters[q] as int].lt(
        d[#[trigger] clusters[p] as int],
    ) by {
        assert(!d[order[q] as int].lt(d[order[p] as int]));
    }
    assert forall|p: int, q: int|
        0 <= p < q < clusters.len() && d[#[trigger] clusters[p] as int].same(
            d[#[trigger] clusters[q] as int],
        ) implies clusters[p] < clusters[q] by {
        assert(order[p] < order[q]);
    }
    assert forall|p: int, c: usize|
        0 <= p < clusters.len() && c < d.len() && !clusters.contains(c) implies !(#[trigger] d[c as int]).lt(
        d[#[trigger] clusters[p] as int],
    ) by {
        assert(order.contains(c));
        let q = choose|q: int| 0 <= q < order.len() && order[q] == c;
        if q < clusters.len() {
            assert(clusters[q] == c);
        }
        assert(!d[order[q] as int].lt(d[order[p] as int]));
    }
}

/// The rows of `clusters` are their lists, end to end.
pub proof fn law_rows_of_clusters_are_their_lists<T>(lists: Seq<Seq<T>>, clusters: Seq<usize>)
    ensures
        rows_in(lists, clusters) == Seq::new(clusters.len(), |p: int| lists[clusters[p] as int]).flatten(),
    decreases clusters.len(),
{
    let all = Seq::new(clusters.len(), |p: int| lists[clusters[p] as int]);
    if clusters.len() == 0 {
        assert(all =~= Seq::<Seq<T>>::empty());
    } else {
        let front = clusters.drop_last();
        law_rows_of_clusters_are_their_lists(lists, front);
        let before = Seq::new(front.len(), |p: int| lists[front[p] as int]);
        assert(all =~= before.push(lists[clusters.last() as int]));
        before.lemma_flatten_push(lists[clusters.last() as int]);
    }
}

/// The candidates are the rows of the clusters that are probed, list after list:
/// for any number of clusters asked for, as many as that are probed, or all, and
/// nothing of their lists is left out.
///
/// Gives the clusters and the distances of the centroids.
pub proof fn law_candidates_are_the_rows_of_all_clusters_asked_for<M: Fn(&[Scalar], &[Scalar]) -> Vec<Scalar>>(
    measure: M,
    index: IndexModel,
    query: Seq<Scalar>,
    nprobe: nat,
    rows: Seq<u32>,
) -> (r: (Seq<usize>, Seq<Scalar>))
    requires
        index.well_formed(),
        index.proposes(measure, query, nprobe, rows),
    ensures
        rows == Seq::new(r.0.len(), |p: int| index.lists[r.0[p] as int]).flatten(),
        index.probes(measure, query, nprobe, r.0),
        exists|v: &[Scalar], m: &[Scalar], d: Vec<Scalar>|
            v@ == query && m@ == index.centroids && d@ == r.1 && #[trigger] call_ensures(measure, (v, m), d),
        r.1.len() == index.n_clusters,
        r.0.len() == if nprobe < index.n_clusters {
            nprobe
        } else {
            index.n_clusters as nat
        },
        r.0.no_duplicates(),
        forall|p: int| 0 <= p < r.0.len() ==> (#[trigger] r.0[p]) < index.n_clusters,
        forall|p: int, q: int|
            0 <= p < q < r.0.len() ==> !r.1[#[trigger] r.0[q] as int].lt(r.1[#[trigger] r.0[p] as int]),
        forall|p: int, q: int|
            0 <= p < q < r.0.len() && r.1[#[trigger] r.0[p] as int].same(r.1[#[trigger] r.0[q] as int]) ==> r.0[p]
                < r.0[q],
        forall|p: int, c: usize|
            0 <= p < r.0.len() && c < index.n_clusters && !r.0.contains(c) ==> !(#[trigger] r.1[c as int]).lt(
                r.1[#[trigger] r.0[p] as int],
            ),
{
    let d = choose|d: Seq<Scalar>| #[trigger]
        index.centroids_measured(measure, query, d) && rows == rows_in(index.lists, probed(d, nprobe));
    lemma_probed(d, nprobe);
    law_rows_of_clusters_are_their_lists(index.lists, probed(d, nprobe));
    (probed(d, nprobe), d)
}

/// A row is a candidate if and only if one of the clusters that are probed for the
/// same query and number lists it.
pub proof fn law_candidates_are_listed_by_the_probed_clusters<M: Fn(&[Scalar], &[Scalar]) -> Vec<Scalar>>(
    measure: M,
    index: IndexModel,
    query: Seq<Scalar>,
    nprobe: nat,
    clusters: Seq<usize>,
    rows: Seq<u32>,
    row: u32,
)
    requires
        measure_repeats(measure),
        index.well_formed(),
        index.probes(measure, query, nprobe, clusters),
        index.proposes(measure, query, nprobe, rows),
    ensures
        clusters.len() == if nprobe < index.n_clusters {
            nprobe
        } else {
            index.n_clusters as nat
        },
        clusters.no_duplicates(),
        rows.contains(row) <==> exists|p: int|
            0 <= p < clusters.len() && index.lists[#[trigger] clusters[p] as int].contains(row),
        rows == Seq::new(clusters.len(), |p: int| index.lists[clusters[p] as int]).flatten(),
{
    let d = choose|d: Seq<Scalar>| #[trigger]
        index.centroids_measured(measure, query, d) && clusters == probed(d, nprobe);
    let e = choose|d: Seq<Scalar>| #[trigger]
        index.centroids_measured(measure, query, d) && rows == rows_in(index.lists, probed(d, nprobe));
    lemma_measured_once(measure, query, index.centroids, d, e);
    lemma_probed(d, nprobe);
    law_rows_of_clusters_are_their_lists(index.lists, clusters);
    crate::index::lemma_rows_in_contains(index.lists, clusters, row);
}

proof fn lemma_at_or_below_is_a_count(d: Seq<Scalar>, x: Scalar, upto: int)
    requires
        0 <= upto <= d.len(),
        forall|i: int| 0 <= i < d.len() ==> !(#[trigger] d[i]).nan(),
    ensures
        at_or_below(d, x, upto) == total(
            Seq::new(
                upto as nat,
                |i: int|
                    if x.lt(d[i]) {
                        0int
                    } else {
                        1int
                    },
            ),
        ),
    decreases upto,
{
    let ones = Seq::new(
        upto as nat,
        |i: int|
            if x.lt(d[i]) {
                0int
            } else {
                1int
            },
    );
    if upto == 0 {
        assert(ones =~= Seq::<int>::empty());
    } else {
        lemma_at_or_below_is_a_count(d, x, upto - 1);
        assert(ones.drop_last() =~= Seq::new(
            (upto - 1) as nat,
            |i: int|
                if x.lt(d[i]) {
                    0int
                } else {
                    1int
                },
        ));
        assert(!d[upto - 1].nan());
    }
}

/// A search reports as many of its candidates as it was asked for, or all: each
/// but once, at the root of the distance that `measure` gave between the query and
/// its own vector, none followed by a nearer one. Where no distance is a NaN, no
/// candidate that is left out is nearer than one that is reported, and one is
/// reported only if fewer than `k` before it are as near or nearer.
///
/// Gives the distances of the candidates, and which candidate each result is.
pub proof fn law_the_nearest_candidates_are_reported<
    M: Fn(&[Scalar], &[Scalar]) -> Vec<Scalar>,
    R: Fn(Scalar) -> Scalar,
>(
    measure: M,
    root: R,
    query: Seq<Scalar>,
    rows: Seq<u32>,
    embeddings: Seq<Scalar>,
    k: nat,
    results: Seq<SearchResult>,
) -> (r: (Seq<Scalar>, Seq<int>))
    requires
        rows.len() > 0,
        answers(measure, root, query, rows, embeddings, k, results),
    ensures
        exists|v: &[Scalar], m: &[Scalar], d: Vec<Scalar>|
            v@ == query && m@ == embeddings.take((rows.len() * query.len()) as int) && d@ == r.0 && #[trigger] call_ensures(
                measure,
                (v, m),
                d,
            ),
        r.0.len() == rows.len(),
        results.len() == if k < rows.len() {
            k
        } else {
            rows.len()
        },
        r.1.len() == results.len(),
        r.1.no_duplicates(),
        forall|p: int|
            0 <= p < results.len() ==> {
                &&& 0 <= #[trigger] r.1[p] < rows.len()
                &&& results[p].row_idx == rows[r.1[p]]
                &&& call_ensures(root, (r.0[r.1[p]],), results[p].distance)
            },
        forall|p: int, q: int|
            0 <= p < q < results.len() ==> !(#[trigger] results[q]).distance.lt((#[trigger] results[p]).distance),
        (forall|i: int| 0 <= i < rows.len() ==> !(#[trigger] r.0[i]).nan()) ==> {
            &&& forall|p: int, i: int|
                0 <= p < results.len() && 0 <= i < rows.len() && !r.1.contains(i) ==> !(#[trigger] r.0[i]).lt(
                    r.0[#[trigger] r.1[p]],
                )
            &&& forall|p: int|
                0 <= p < results.len() ==> total(
                    Seq::new(
                        #[trigger] r.1[p] as nat,
                        |i: int|
                            if r.0[r.1[p]].lt(r.0[i]) {
                                0int
                            } else {
                                1int
                            },
                    ),
                ) < k
        },
{
    let used = embeddings.take((rows.len() * query.len()) as int);
    let (d, picked) = choose|d: Seq<Scalar>, picked: Seq<int>|
        {
            &&& measured(measure, query, used, d)
            &&& d.len() == rows.len()
            &&& picks_nearest(d, k, picked)
            &&& #[trigger] reports(rows, d, root, picked, results)
        };
    if forall|i: int| 0 <= i < rows.len() ==> !(#[trigger] d[i]).nan() {
        assert(starts_with_numbers(d, k));
        assert forall|p: int| 0 <= p < results.len() implies total(
            Seq::new(
                #[trigger] picked[p] as nat,
                |i: int|
                    if d[picked[p]].lt(d[i]) {
                        0int
                    } else {
                        1int
                    },
            ),
        ) < k by {
            lemma_at_or_below_is_a_count(d, d[picked[p]], picked[p]);
        }
    }
    (d, picked)
}

/// The results of a search that succeeded, and none of one that did not.
pub open spec fn results_of<E>(part: Result<Vec<SearchResult>, E>) -> Seq<SearchResult> {
    match part {
        Ok(results) => results@,
        Err(_) => Seq::empty(),
    }
}

proof fn lemma_gathered_end_to_end<E>(parts: Seq<Result<Vec<SearchResult>, E>>)
    ensures
        gathered_results(parts) == parts.map_values(|part: Result<Vec<SearchResult>, E>| results_of(part)).flatten(),
        gathered_results(parts).len() == total(Seq::new(parts.len(), |i: int| results_of(parts[i]).len() as int)),
    decreases parts.len(),
{
    let all = parts.map_values(|part: Result<Vec<SearchResult>, E>| results_of(part));
    let sizes = Seq::new(parts.len(), |i: int| results_of(parts[i]).len() as int);
    if parts.len() == 0 {
        assert(all =~= Seq::<Seq<SearchResult>>::empty());
        assert(sizes =~= Seq::<int>::empty());
    } else {
        let front = parts.drop_last();
        lemma_gathered_end_to_end(front);
        let before = front.map_values(|part: Result<Vec<SearchResult>, E>| results_of(part));
        assert(all =~= before.push(results_of(parts.last())));
        before.lemma_flatten_push(results_of(parts.last()));
        assert(sizes.drop_last() =~= Seq::new(front.len(), |i: int| results_of(front[i]).len() as int));
        assert(gathered_results(parts) =~= gathered_results(front) + results_of(parts.last()));
    }
}

/// How often `result` comes up in the results of all parts.
proof fn lemma_gathered_count<E>(parts: Seq<Result<Vec<SearchResult>, E>>, result: SearchResult)
    ensures
        gathered_results(parts).to_multiset().count(result) == total(
            Seq::new(parts.len(), |i: int| results_of(parts[i]).to_multiset().count(result) as int),
        ),
    decreases parts.len(),
{
    let counts = Seq::new(parts.len(), |i: int| results_of(parts[i]).to_multiset().count(result) as int);
    if parts.len() == 0 {
        assert(counts =~= Seq::<int>::empty());
        vstd::seq_lib::to_multiset_len(gathered_results(parts));
    } else {
        let front = parts.drop_last();
        lemma_gathered_count(front, result);
        assert(counts.drop_last() =~= Seq::new(
            front.len(),
            |i: int| results_of(front[i]).to_multiset().count(result) as int,
        ));
        let before = gathered_results(front);
        let own = results_of(parts.last());
        assert(gathered_results(parts) =~= before + own);
        vstd::seq_lib::lemma_multiset_commutative(before, own);
    }
}

/// No result of a search that succeeded is lost or made up, whatever its row
/// number: each comes up in the merged results as often as in all the searches
/// together, there are as many as of all the searches together, and none is
/// followed by a nearer one. Of results as near, those of an earlier search come
/// first.
///
/// Gives the place of each merged result among those of all the searches, one
/// search after the other.
pub proof fn law_merging_keeps_every_result<E>(
    parts: Seq<Result<Vec<SearchResult>, E>>,
    merged: Seq<SearchResult>,
) -> (places: Seq<usize>)
    requires
        total(Seq::new(parts.len(), |i: int| results_of(parts[i]).len() as int)) <= usize::MAX,
        merged == by_distance(gathered_results(parts)),
    ensures
        merged.len() == total(Seq::new(parts.len(), |i: int| results_of(parts[i]).len() as int)),
        merged.to_multiset() == parts.map_values(
            |part: Result<Vec<SearchResult>, E>| results_of(part),
        ).flatten().to_multiset(),
        forall|result: SearchResult| #[trigger]
            merged.to_multiset().count(result) == total(
                Seq::new(parts.len(), |i: int| results_of(parts[i]).to_multiset().count(result) as int),
            ),
        forall|i: int, j: int|
            0 <= i < parts.len() && 0 <= j < results_of(parts[i]).len() ==> merged.contains(
                #[trigger] results_of(parts[i])[j],
            ),
        forall|p: int, q: int|
            0 <= p < q < merged.len() ==> !(#[trigger] merged[q]).distance.lt((#[trigger] merged[p]).distance),
        places.len() == merged.len(),
        places.no_duplicates(),
        forall|p: int|
            0 <= p < merged.len() ==> (#[trigger] places[p]) < merged.len() && merged[p] == parts.map_values(
                |part: Result<Vec<SearchResult>, E>| results_of(part),
            ).flatten()[places[p] as int],
        forall|p: int, q: int|
            0 <= p < q < merged.len() && (#[trigger] merged[p]).distance.same((#[trigger] merged[q]).distance)
                ==> places[p] < places[q],
{
    let all = gathered_results(parts);
    lemma_gathered_end_to_end(parts);
    law_by_distance_sorts(all);
    let keys = distances_of(all);
    let order = sorted_indices(keys);
    law_sorting_is_stable(keys);
    assert forall|p: int, q: int|
        0 <= p < q < merged.len() && (#[trigger] merged[p]).distance.same(
            (#[trigger] merged[q]).distance,
        ) implies order[p] < order[q] by {
        assert(keys[order[p] as int] == merged[p].distance && keys[order[q] as int] == merged[q].distance);
    }
    vstd::seq_lib::to_multiset_len(all);
    vstd::seq_lib::to_multiset_len(merged);
    assert forall|result: SearchResult| #[trigger] merged.to_multiset().count(result) == total(
        Seq::new(parts.len(), |i: int| results_of(parts[i]).to_multiset().count(result) as int),
    ) by {
        lemma_gathered_count(parts, result);
    }
    assert forall|i: int, j: int| 0 <= i < parts.len() && 0 <= j < results_of(parts[i]).len() implies merged.contains(
        #[trigger] results_of(parts[i])[j],
    ) by {
        let result = results_of(parts[i])[j];
        lemma_gathered_contains(parts, i, result);
        vstd::seq_lib::to_multiset_contains(all, result);
        vstd::seq_lib::to_multiset_contains(merged, result);
    }
    order
}

proof fn lemma_gathered_contains<E>(parts: Seq<Result<Vec<SearchResult>, E>>, i: int, result: SearchResult)
    requires
        0 <= i < parts.len(),
        results_of(parts[i]).contains(result),
    ensures
        gathered_results(parts).contains(result),
    decreases parts.len(),
{
    let front = parts.drop_last();
    let before = gathered_results(front);
    let all = gathered_results(parts);
    assert(all =~= before + results_of(parts.last()));
    if i < parts.len() - 1 {
        lemma_gathered_contains(front, i, result);
        let p = choose|p: int| 0 <= p < before.len() && before[p] == result;
        assert(all[p] == result);
    } else {
        let own = results_of(parts[i]);
        let p = choose|p: int| 0 <= p < own.len() && own[p] == result;
        assert(all[before.len() + p] == result);
    }
}

} // verus!
