//! A search that probes every cluster of a built index gives the exact nearest
//! rows of the file.

use crate::arithmetic::{apart, measured, Arithmetic};
use crate::builder::{clusters_rows, indexed, law_probing_all_finds_each_row_once, IvfBuildConfig};
use crate::calls::{lemma_distance_of_row, lemma_one_is_missing};
use crate::embeddings::{lemma_row_within, lemma_rows_of, row};
use crate::index::{probed, rows_in, IndexModel};
use crate::matrix::gathered;
use crate::nearest::{assigned, assigned_by};
use crate::scalar::Scalar;
use crate::search::{answers, picks_nearest, reports, SearchResult};
use crate::selection::{
    ascending, law_read_rows_are_those_wanted, positions, row_positions, runs_for, runs_mask, selected,
};
use vstd::prelude::*;

verus! {

/// The rows of `results`.
pub open spec fn rows_of_results(results: Seq<SearchResult>) -> Seq<u32> {
    results.map_values(|result: SearchResult| result.row_idx)
}

/// Whether `results` are the `k` rows of `column` nearest to `query`, nearest
/// first, where `distances` holds what `measure` gave for each row.
pub open spec fn nearest_rows<M: Fn(&[Scalar], &[Scalar]) -> Vec<Scalar>, R: Fn(Scalar) -> Scalar>(
    measure: M,
    root: R,
    query: Seq<Scalar>,
    column: Seq<Scalar>,
    k: nat,
    distances: Seq<Scalar>,
    results: Seq<SearchResult>,
) -> bool {
    &&& distances.len() == column.len() / query.len()
    &&& forall|r: int|
        0 <= r < distances.len() ==> apart(measure, query, row(column, query.len(), r), #[trigger] distances[r])
    &&& results.len() == if k < distances.len() {
        k
    } else {
        distances.len()
    }
    &&& rows_of_results(results).no_duplicates()
    &&& forall|p: int|
        0 <= p < results.len() ==> (#[trigger] results[p]).row_idx < distances.len() && call_ensures(
            root,
            (distances[results[p].row_idx as int],),
            results[p].distance,
        )
    &&& forall|p: int, q: int|
        0 <= p < q < results.len() ==> !(#[trigger] results[q]).distance.lt((#[trigger] results[p]).distance)
    &&& forall|p: int, r: u32|
        0 <= p < results.len() && r < distances.len() && !rows_of_results(results).contains(r)
            ==> !(#[trigger] distances[r as int]).lt(distances[(#[trigger] results[p]).row_idx as int])
}

/// Different rows that are all of those below `n` are `n`.
proof fn lemma_all_rows_once(rows: Seq<u32>, n: nat)
    requires
        n <= 0x1_0000_0000,
        rows.no_duplicates(),
        forall|r: u32| #[trigger] rows.contains(r) <==> r < n,
    ensures
        rows.len() == n,
{
    let numbers = rows.map_values(|r: u32| r as int);
    let all = Seq::new(n, |i: int| i);
    assert(numbers.no_duplicates()) by {
        assert forall|i: int, j: int| 0 <= i < j < numbers.len() implies numbers[i] != numbers[j] by {
            assert(rows[i] != rows[j]);
        }
    }
    assert(all.no_duplicates());
    if rows.len() > n {
        let q = lemma_one_is_missing(numbers, all);
        assert(rows.contains(rows[q]));
        assert(all[rows[q] as int] == numbers[q]);
    }
    if rows.len() < n {
        let q = lemma_one_is_missing(all, numbers);
        assert(rows.contains(q as u32));
        let i = choose|i: int| 0 <= i < rows.len() && rows[i] == q as u32;
        assert(numbers[i] == all[q]);
    }
}

/// A search that probes every cluster of an index built on a column gives the
/// exact nearest rows: `rows` are its candidates, `read` the rows it reads,
/// `restored` their embeddings in the order of the candidates. No distance is a
/// NaN.
pub proof fn law_probing_all_is_exact<M, A, T, V, N, R>(
    ops: Arithmetic<M, A, T, V>,
    config: IvfBuildConfig,
    parallelism: nat,
    index: IndexModel,
    column: Seq<Scalar>,
    measure: N,
    root: R,
    query: Seq<Scalar>,
    k: nat,
    nprobe: nat,
    rows: Seq<u32>,
    read: Seq<u32>,
    restored: Seq<Scalar>,
    results: Seq<SearchResult>,
) where
    M: Fn(&[Scalar], &[Scalar]) -> Vec<Scalar>,
    A: Fn(Scalar, Scalar) -> Scalar,
    T: Fn(u32, Scalar) -> Scalar,
    V: Fn(Scalar, usize) -> Scalar,
    N: Fn(&[Scalar], &[Scalar]) -> Vec<Scalar>,
    R: Fn(Scalar) -> Scalar,

    requires
        index.well_formed(),
        query.len() == index.dim,
        column.len() % query.len() == 0,
        column.len() <= usize::MAX,
        column.len() / query.len() <= 0x1_0000_0000,
        indexed(
            ops,
            column,
            query.len(),
            index.n_clusters as nat,
            config,
            parallelism,
            index.centroids,
            index.lists,
        ),
        nprobe >= index.n_clusters,
        index.proposes(measure, query, nprobe, rows),
        ascending(read),
        forall|r: u32| #[trigger] read.contains(r) <==> rows.contains(r),
        restored == gathered(
            gathered(
                column,
                query.len(),
                selected(runs_mask(runs_for(read, (column.len() / query.len()) as int))),
            ),
            query.len(),
            positions(rows, read),
        ),
        answers(measure, root, query, rows, restored, k, results),
        forall|r: int, x: Scalar|
            0 <= r < column.len() / query.len() && #[trigger] apart(measure, query, row(column, query.len(), r), x)
                ==> !x.nan(),
    ensures
        exists|distances: Seq<Scalar>| #[trigger]
            nearest_rows(measure, root, query, column, k, distances, results),
{
    let dim = query.len();
    let n = column.len() / dim;
    let clusters = index.n_clusters as nat;
    lemma_rows_of(column.len() as int, dim as int);
    let picks = choose|picks: Seq<usize>|
        {
            &&& #[trigger] assigned(ops.measure, column, dim, index.centroids, clusters, picks)
            &&& index.lists == clusters_rows(picks, clusters)
            &&& forall|i: int| 0 <= i < picks.len() ==> (#[trigger] picks[i]) < clusters
        };
    let tables = choose|tables: Seq<Seq<Scalar>>| #[trigger]
        assigned_by(ops.measure, column, dim, index.centroids, clusters, picks, tables);
    let c = choose|d: Seq<Scalar>| #[trigger]
        index.centroids_measured(measure, query, d) && rows == rows_in(index.lists, probed(d, nprobe));
    law_probing_all_finds_each_row_once(picks, c, nprobe);
    lemma_all_rows_once(rows, n);
    assert forall|j: int| 0 <= j < rows.len() implies (#[trigger] rows[j]) < n && (rows[j] + 1) * dim <= column.len()
        && rows[j] <= usize::MAX by {
        assert(rows.contains(rows[j]));
        lemma_row_within(n as int, dim as int, rows[j] as int);
    }
    law_read_rows_are_those_wanted(column, dim, n, rows, read);
    assert(restored == gathered(column, dim, row_positions(rows)));
    if n == 0 {
        let none = Seq::<Scalar>::empty();
        assert(rows_of_results(results).no_duplicates());
        assert(nearest_rows(measure, root, query, column, k, none, results));
    } else {
        let (d, picked) = choose|d: Seq<Scalar>, picked: Seq<int>|
            {
                &&& measured(measure, query, restored.take((rows.len() * dim) as int), d)
                &&& d.len() == rows.len()
                &&& picks_nearest(d, k, picked)
                &&& #[trigger] reports(rows, d, root, picked, results)
            };
        let full = Seq::new(n, |r: int| d[rows.index_of(r as u32)]);
        assert forall|r: u32| r < n implies {
            let i = #[trigger] rows.index_of(r);
            0 <= i < rows.len() && rows[i] == r
        } by {
            assert(rows.contains(r));
        }
        assert forall|i: int| 0 <= i < rows.len() implies full[#[trigger] rows[i] as int] == d[i] by {
            let r = rows[i];
            assert(r < n);
            let j = rows.index_of(r);
            assert(0 <= j < rows.len() && rows[j] == r);
            assert(i == j);
        }
        assert forall|i: int| 0 <= i < d.len() implies !(#[trigger] d[i]).nan() by {
            lemma_distance_of_row(measure, query, column, rows, d, i);
            assert(rows[i] < n);
        }
        assert forall|r: int| 0 <= r < n implies apart(measure, query, row(column, dim, r), #[trigger] full[r]) by {
            let i = rows.index_of(r as u32);
            assert(0 <= i < rows.len() && rows[i] == r as u32);
            lemma_distance_of_row(measure, query, column, rows, d, i);
        }
        assert forall|p: int| 0 <= p < results.len() implies (#[trigger] results[p]).row_idx < n && call_ensures(
            root,
            (full[results[p].row_idx as int],),
            results[p].distance,
        ) by {
            let i = picked[p];
            assert(results[p].row_idx == rows[i]);
        }
        let found = rows_of_results(results);
        assert forall|p: int, q: int| 0 <= p < q < found.len() implies found[p] != found[q] by {
            assert(results[p].row_idx == rows[picked[p]] && results[q].row_idx == rows[picked[q]]);
            assert(picked[p] != picked[q]);
        }
        assert forall|p: int, r: u32| 0 <= p < results.len() && r < n && !found.contains(r) implies !(
        #[trigger] full[r as int]).lt(full[(#[trigger] results[p]).row_idx as int]) by {
            let i = rows.index_of(r);
            assert(rows[i] == r);
            if picked.contains(i) {
                let q = choose|q: int| 0 <= q < picked.len() && picked[q] == i;
                assert(results[q].row_idx == rows[picked[q]]);
                assert(found[q] == r);
            }
            assert(results[p].row_idx == rows[picked[p]]);
            assert(!d[i].lt(d[picked[p]]));
            assert(full[rows[picked[p]] as int] == d[picked[p]]);
            assert(full[rows[i] as int] == d[i]);
        }
        assert(nearest_rows(measure, root, query, column, k, full, results));
    }
}

} // verus!
