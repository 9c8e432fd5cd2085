//! What holds between two calls: of searches that ask for more results or probe
//! more clusters, and of assigning a vector and probing for it.

use crate::arithmetic::{apart, lemma_measured_apart, measured, row_by_row};
use crate::embeddings::{lemma_row_within, lemma_whole_rows, row};
use crate::index::{law_probed_clusters_are_closest, law_probing_more_only_adds_rows, probed, rows_in, IndexModel};
use crate::matrix::{gathered, lemma_gathered_row};
use crate::nearest::{any_below_infinity, goes_to, nearest};
use crate::order::{law_sorted_indices, precedes, ranks_of, sorted_indices};
use crate::reproducible::{lemma_measured_once, measure_repeats};
use crate::scalar::{all_numbers, infinity, Scalar};
use crate::search::{answers, picks_nearest, reports, starts_with_numbers, SearchResult};
use crate::selection::row_positions;
use vstd::prelude::*;

verus! {

/// Probing fewer clusters gives the first of those that probing more gives, and
/// probing at least as many as there are gives all of them, in one order.
pub proof fn law_fewer_probes_are_a_prefix<M: Fn(&[Scalar], &[Scalar]) -> Vec<Scalar>>(
    measure: M,
    index: IndexModel,
    query: Seq<Scalar>,
    fewer: nat,
    more: nat,
    a: Seq<usize>,
    b: Seq<usize>,
)
    requires
        measure_repeats(measure),
        fewer <= more,
        index.probes(measure, query, fewer, a),
        index.probes(measure, query, more, b),
    ensures
        a == b.take(a.len() as int),
        a.len() == if fewer < index.n_clusters {
            fewer
        } else {
            index.n_clusters as nat
        },
        more >= index.n_clusters ==> {
            &&& b.len() == index.n_clusters
            &&& b.no_duplicates()
            &&& forall|p: int| 0 <= p < b.len() ==> (#[trigger] b[p]) < index.n_clusters
        },
        fewer >= index.n_clusters ==> a == b,
{
    let d = choose|d: Seq<Scalar>| #[trigger] index.centroids_measured(measure, query, d) && a == probed(d, fewer);
    let e = choose|d: Seq<Scalar>| #[trigger] index.centroids_measured(measure, query, d) && b == probed(d, more);
    lemma_measured_once(measure, query, index.centroids, d, e);
    law_sorted_indices(d);
    law_probed_clusters_are_closest(d, fewer);
    law_probed_clusters_are_closest(d, more);
    assert(a =~= b.take(a.len() as int));
    if fewer >= index.n_clusters {
        assert(a =~= b);
    }
}

/// Assigning a vector and probing for it agree, ties included: the centroid it is
/// assigned to is the first that is probed.
pub proof fn law_assigning_and_probing_agree<M: Fn(&[Scalar], &[Scalar]) -> Vec<Scalar>>(
    measure: M,
    index: IndexModel,
    query: Seq<Scalar>,
    nprobe: nat,
    best: int,
    clusters: Seq<usize>,
)
    requires
        measure_repeats(measure),
        index.well_formed(),
        forall|d: Seq<Scalar>| #[trigger] index.centroids_measured(measure, query, d) ==> all_numbers(d),
        nprobe >= 1,
        goes_to(measure, query, index.centroids, best),
        index.probes(measure, query, nprobe, clusters),
    ensures
        clusters.len() > 0,
        clusters[0] == best,
{
    let d = choose|d: Seq<Scalar>| #[trigger]
        index.centroids_measured(measure, query, d) && clusters == probed(d, nprobe);
    let e = choose|d: Seq<Scalar>| #[trigger]
        measured(measure, query, index.centroids, d) && nearest(d, best) && d.len() == index.centroids.len()
            / query.len();
    lemma_measured_once(measure, query, index.centroids, d, e);
    law_sorted_indices(d);
    let order = sorted_indices(d);
    let ranks = ranks_of(d);
    let first = order[0] as int;
    assert(clusters[0] == order[0]);
    assert forall|j: int| 0 <= j < d.len() && j != first implies precedes(ranks, first, j) by {
        assert(order.contains(j as usize));
        let q = choose|q: int| 0 <= q < order.len() && order[q] == j as usize;
        assert(precedes(ranks, order[0] as int, order[q] as int));
    }
    if any_below_infinity(d) {
        if best != first {
            assert(precedes(ranks, first, best));
            assert(!d[first].lt(d[best]));
            assert(!d[first].nan() && !d[best].nan());
            assert(first < best);
            assert(d[first].nan() || d[best].lt(d[first]));
        }
    } else if first != 0 {
        assert(precedes(ranks, first, 0));
        assert(!d[first].lt(infinity()) && !d[0].lt(infinity()));
        assert(!d[first].nan() && !d[0].nan());
        assert(d[0].position() <= infinity().position());
    }
}

/// Whether `root` gives numbers for `squares`, and keeps their order: no greater a
/// square has a smaller root.
pub open spec fn ascends<R: Fn(Scalar) -> Scalar>(root: R, squares: Seq<Scalar>) -> bool {
    &&& forall|i: int, x: Scalar|
        0 <= i < squares.len() && #[trigger] call_ensures(root, (squares[i],), x) ==> !x.nan()
    &&& forall|i: int, j: int, x: Scalar, y: Scalar|
        {
            &&& 0 <= i < squares.len()
            &&& 0 <= j < squares.len()
            &&& #[trigger] call_ensures(root, (squares[i],), x)
            &&& #[trigger] call_ensures(root, (squares[j],), y)
            &&& squares[i].rank_of() <= squares[j].rank_of()
        } ==> x.rank_of() <= y.rank_of()
}

/// Of more different numbers than `few` holds, one is not in `few`.
pub proof fn lemma_one_is_missing(many: Seq<int>, few: Seq<int>) -> (q: int)
    requires
        many.no_duplicates(),
        many.len() > few.len(),
    ensures
        0 <= q < many.len(),
        !few.contains(many[q]),
{
    if forall|q: int| 0 <= q < many.len() ==> few.contains(#[trigger] many[q]) {
        many.unique_seq_to_set();
        few.lemma_cardinality_of_set();
        assert(many.to_set().subset_of(few.to_set())) by {
            assert forall|x: int| many.to_set().contains(x) implies few.to_set().contains(x) by {
                let q = choose|q: int| 0 <= q < many.len() && many[q] == x;
                assert(few.contains(many[q]));
            }
        }
        vstd::seq_lib::seq_to_set_is_finite(few);
        vstd::set_lib::lemma_len_subset(many.to_set(), few.to_set());
    }
    choose|q: int| 0 <= q < many.len() && !few.contains(#[trigger] many[q])
}

/// The `i`-th of the nearest is no farther than the `i`-th of any others.
proof fn lemma_nearest_are_no_farther<R: Fn(Scalar) -> Scalar>(
    d: Seq<Scalar>,
    root: R,
    others: Seq<int>,
    roots: Seq<Scalar>,
    k: nat,
    picked: Seq<int>,
    rows: Seq<u32>,
    results: Seq<SearchResult>,
    i: int,
)
    requires
        all_numbers(d),
        ascends(root, d),
        others.no_duplicates(),
        forall|p: int| 0 <= p < others.len() ==> 0 <= #[trigger] others[p] < d.len(),
        roots.len() == others.len(),
        forall|p: int| 0 <= p < others.len() ==> call_ensures(root, (d[others[p]],), #[trigger] roots[p]),
        forall|p: int, q: int|
            0 <= p < q < roots.len() ==> !(#[trigger] roots[q]).lt(#[trigger] roots[p]),
        picks_nearest(d, k, picked),
        reports(rows, d, root, picked, results),
        0 <= i < others.len(),
        i < picked.len(),
    ensures
        results[i].distance.rank_of() <= roots[i].rank_of(),
{
    if results[i].distance.rank_of() > roots[i].rank_of() {
        let q = lemma_one_is_missing(others.take(i + 1), picked.take(i));
        let other = others[q];
        assert(others.take(i + 1)[q] == other);
        assert(call_ensures(root, (d[other],), roots[q]));
        assert(call_ensures(root, (d[others[i]],), roots[i]));
        assert(call_ensures(root, (d[picked[i]],), results[i].distance));
        lemma_root_ascends(root, d, other, others[i], roots[q], roots[i]);
        assert(roots[q].rank_of() <= roots[i].rank_of()) by {
            if q < i {
                assert(!roots[i].lt(roots[q]));
            }
        }
        if picked.contains(other) {
            let p = choose|p: int| 0 <= p < picked.len() && picked[p] == other;
            if p < i {
                assert(picked.take(i)[p] == other);
            }
            assert(call_ensures(root, (d[picked[p]],), results[p].distance));
            lemma_root_ascends(root, d, other, picked[i], results[p].distance, results[i].distance);
            lemma_root_ascends(root, d, other, other, results[p].distance, roots[q]);
            if i < p {
                assert(!results[p].distance.lt(results[i].distance));
            }
        } else {
            assert(!d[other].lt(d[picked[i]])) by {
                assert(starts_with_numbers(d, k));
            }
            assert(!d[other].nan() && !d[picked[i]].nan());
            lemma_root_ascends(root, d, picked[i], other, results[i].distance, roots[q]);
        }
    }
}

proof fn lemma_root_ascends<R: Fn(Scalar) -> Scalar>(root: R, d: Seq<Scalar>, i: int, j: int, x: Scalar, y: Scalar)
    requires
        ascends(root, d),
        0 <= i < d.len(),
        0 <= j < d.len(),
        call_ensures(root, (d[i],), x),
        call_ensures(root, (d[j],), y),
    ensures
        !x.nan(),
        !y.nan(),
        d[i].rank_of() <= d[j].rank_of() ==> x.rank_of() <= y.rank_of(),
{
}

/// The roots of `results`.
spec fn roots_of(results: Seq<SearchResult>) -> Seq<Scalar> {
    results.map_values(|r: SearchResult| r.distance)
}

/// Asking for fewer results gives the first distances of those that asking for
/// more gives; they are equal as numbers.
pub proof fn law_fewer_results_are_the_first<M: Fn(&[Scalar], &[Scalar]) -> Vec<Scalar>, R: Fn(Scalar) -> Scalar>(
    measure: M,
    root: R,
    query: Seq<Scalar>,
    rows: Seq<u32>,
    embeddings: Seq<Scalar>,
    fewer: nat,
    more: nat,
    a: Seq<SearchResult>,
    b: Seq<SearchResult>,
)
    requires
        measure_repeats(measure),
        forall|d: Seq<Scalar>| #[trigger]
            measured(measure, query, embeddings.take((rows.len() * query.len()) as int), d) ==> all_numbers(d)
                && ascends(root, d),
        fewer <= more,
        answers(measure, root, query, rows, embeddings, fewer, a),
        answers(measure, root, query, rows, embeddings, more, b),
    ensures
        a.len() == if fewer < b.len() {
            fewer
        } else {
            b.len()
        },
        forall|i: int|
            0 <= i < a.len() ==> (#[trigger] a[i]).distance.rank_of() == (#[trigger] b[i]).distance.rank_of(),
{
    if rows.len() > 0 {
        let used = embeddings.take((rows.len() * query.len()) as int);
        let (d, p) = choose|d: Seq<Scalar>, picked: Seq<int>|
            {
                &&& measured(measure, query, used, d)
                &&& d.len() == rows.len()
                &&& picks_nearest(d, fewer, picked)
                &&& #[trigger] reports(rows, d, root, picked, a)
            };
        let (e, q) = choose|d: Seq<Scalar>, picked: Seq<int>|
            {
                &&& measured(measure, query, used, d)
                &&& d.len() == rows.len()
                &&& picks_nearest(d, more, picked)
                &&& #[trigger] reports(rows, d, root, picked, b)
            };
        lemma_measured_once(measure, query, used, d, e);
        assert forall|i: int| 0 <= i < a.len() implies (#[trigger] a[i]).distance.rank_of() == (
        #[trigger] b[i]).distance.rank_of() by {
            lemma_nearest_are_no_farther(d, root, p, roots_of(a), more, q, rows, b, i);
            lemma_nearest_are_no_farther(d, root, q, roots_of(b), fewer, p, rows, a, i);
        }
    }
}

/// The distance measured for the `i`-th of `rows` is that of its embedding.
pub proof fn lemma_distance_of_row<M: Fn(&[Scalar], &[Scalar]) -> Vec<Scalar>>(
    measure: M,
    query: Seq<Scalar>,
    column: Seq<Scalar>,
    rows: Seq<u32>,
    d: Seq<Scalar>,
    i: int,
)
    requires
        query.len() > 0,
        forall|j: int| 0 <= j < rows.len() ==> (#[trigger] rows[j] + 1) * query.len() <= column.len() && rows[j]
            <= usize::MAX,
        measured(
            measure,
            query,
            gathered(column, query.len(), row_positions(rows)).take((rows.len() * query.len()) as int),
            d,
        ),
        d.len() == rows.len(),
        0 <= i < rows.len(),
    ensures
        apart(measure, query, row(column, query.len(), rows[i] as int), d[i]),
        row(column, query.len(), rows[i] as int).len() == query.len(),
{
    let dim = query.len();
    let all = gathered(column, dim, row_positions(rows));
    assert forall|j: int| 0 <= j < row_positions(rows).len() implies (#[trigger] row_positions(rows)[j] + 1) * dim
        <= column.len() by {
        assert(row_positions(rows)[j] == rows[j]);
    }
    lemma_gathered_row(column, dim, row_positions(rows), i);
    assert(all.take((rows.len() * dim) as int) =~= all);
    lemma_whole_rows(rows.len() as int, dim as int);
    lemma_measured_apart(measure, query, all, d, i);
    lemma_row_within(rows[i] + 1, dim as int, rows[i] as int);
}

/// Probing more clusters never makes a hit worse: there are no fewer results, and
/// none is farther than the one in its place was.
pub proof fn law_probing_more_never_worsens_a_hit<
    M: Fn(&[Scalar], &[Scalar]) -> Vec<Scalar>,
    R: Fn(Scalar) -> Scalar,
>(
    measure: M,
    root: R,
    index: IndexModel,
    column: Seq<Scalar>,
    query: Seq<Scalar>,
    k: nat,
    fewer: nat,
    more: nat,
    rows_a: Seq<u32>,
    rows_b: Seq<u32>,
    a: Seq<SearchResult>,
    b: Seq<SearchResult>,
)
    requires
        measure_repeats(measure),
        row_by_row(measure),
        index.well_formed(),
        query.len() == index.dim,
        fewer <= more,
        index.proposes(measure, query, fewer, rows_a),
        index.proposes(measure, query, more, rows_b),
        forall|j: int|
            0 <= j < rows_b.len() ==> (#[trigger] rows_b[j] + 1) * query.len() <= column.len() && rows_b[j]
                <= usize::MAX,
        answers(measure, root, query, rows_a, gathered(column, query.len(), row_positions(rows_a)), k, a),
        answers(measure, root, query, rows_b, gathered(column, query.len(), row_positions(rows_b)), k, b),
        forall|d: Seq<Scalar>| #[trigger]
            measured(
                measure,
                query,
                gathered(column, query.len(), row_positions(rows_b)).take((rows_b.len() * query.len()) as int),
                d,
            ) ==> all_numbers(d) && ascends(root, d),
    ensures
        a.len() <= b.len(),
        forall|i: int|
            0 <= i < a.len() ==> (#[trigger] b[i]).distance.rank_of() <= (#[trigger] a[i]).distance.rank_of(),
{
    let dim = query.len();
    let c = choose|d: Seq<Scalar>| #[trigger]
        index.centroids_measured(measure, query, d) && rows_a == rows_in(index.lists, probed(d, fewer));
    let c2 = choose|d: Seq<Scalar>| #[trigger]
        index.centroids_measured(measure, query, d) && rows_b == rows_in(index.lists, probed(d, more));
    lemma_measured_once(measure, query, index.centroids, c, c2);
    law_probing_more_only_adds_rows(c, index.lists, fewer, more);
    assert(rows_a.is_prefix_of(rows_b));
    assert forall|j: int| 0 <= j < rows_a.len() implies #[trigger] rows_a[j] == rows_b[j] by {
        assert(rows_b.subrange(0, rows_a.len() as int)[j] == rows_b[j]);
    }
    if rows_a.len() > 0 {
        let (d, p) = choose|d: Seq<Scalar>, picked: Seq<int>|
            {
                &&& measured(
                    measure,
                    query,
                    gathered(column, dim, row_positions(rows_a)).take((rows_a.len() * dim) as int),
                    d,
                )
                &&& d.len() == rows_a.len()
                &&& picks_nearest(d, k, picked)
                &&& #[trigger] reports(rows_a, d, root, picked, a)
            };
        let (e, q) = choose|d: Seq<Scalar>, picked: Seq<int>|
            {
                &&& measured(
                    measure,
                    query,
                    gathered(column, dim, row_positions(rows_b)).take((rows_b.len() * dim) as int),
                    d,
                )
                &&& d.len() == rows_b.len()
                &&& picks_nearest(d, k, picked)
                &&& #[trigger] reports(rows_b, d, root, picked, b)
            };
        assert forall|j: int| 0 <= j < d.len() implies d[j] == e[j] by {
            lemma_distance_of_row(measure, query, column, rows_a, d, j);
            lemma_distance_of_row(measure, query, column, rows_b, e, j);
        }
        assert forall|i: int| 0 <= i < a.len() implies (#[trigger] b[i]).distance.rank_of() <= (
        #[trigger] a[i]).distance.rank_of() by {
            assert forall|s: int| 0 <= s < p.len() implies call_ensures(root, (e[p[s]],), #[trigger] roots_of(a)[s]) by {
                assert(a[s].distance == roots_of(a)[s]);
                assert(0 <= p[s] < d.len());
            }
            lemma_nearest_are_no_farther(e, root, p, roots_of(a), k, q, rows_b, b, i);
        }
    }
}

} // verus!
