//! What a search over several files with one budget reports: the nearest of the
//! pairs of a file and a row that lie in the selected clusters, each measured on
//! the row of its own file.

use crate::arithmetic::{apart, lemma_measured_apart, measured};
use crate::embeddings::{lemma_row_within, lemma_whole_rows, row};
use crate::index::{
    disjoint, law_probed_clusters_are_closest, law_rows_of_clusters_are_distinct, lemma_rows_in_contains, probed, rows_in,
};
use crate::matrix::{gathered, lemma_gathered_len, lemma_gathered_row};
use crate::nonuniform::{
    all_clusters, chunk_rows, closest_items, cluster_positions, clusters_in, clusters_of, groups_by_file,
    item_distances, joined, law_chunks_cover_all_rows, law_chunks_lie_in_one_group, law_groups_hold_all_clusters,
    listed, planned, rows_read, within, ChunkRead, ClusterItem, FileClusters, FileDistances,
};
use crate::scalar::Scalar;
use crate::search::{answers, picks_nearest, reports, SearchResult};
use crate::selection::row_positions;
use vstd::prelude::*;

verus! {

/// The rows of each group, with the file of the group.
pub open spec fn tagged(groups: Seq<FileClusters>, rows: Seq<Seq<u32>>) -> Seq<Seq<(usize, u32)>> {
    Seq::new(rows.len(), |g: int| rows[g].map_values(|r: u32| (groups[g].file, r)))
}

/// The pairs of a file and a row in the selected clusters, group by group.
pub open spec fn pairs_of(groups: Seq<FileClusters>, rows: Seq<Seq<u32>>) -> Seq<(usize, u32)> {
    listed(tagged(groups, rows))
}

/// The rows of `pairs`.
pub open spec fn rows_of_pairs(pairs: Seq<(usize, u32)>) -> Seq<u32> {
    pairs.map_values(|pair: (usize, u32)| pair.1)
}

/// Whether `results` are the `k` of `pairs` nearest to `query`, nearest first:
/// each at the distance that `measure` gave between the query and the row in the
/// column of its own file.
pub open spec fn nearest_pairs<M: Fn(&[Scalar], &[Scalar]) -> Vec<Scalar>, R: Fn(Scalar) -> Scalar>(
    measure: M,
    root: R,
    query: Seq<Scalar>,
    columns: spec_fn(usize) -> Seq<Scalar>,
    pairs: Seq<(usize, u32)>,
    k: nat,
    results: Seq<SearchResult>,
) -> bool {
    if pairs.len() == 0 {
        results.len() == 0
    } else {
        exists|d: Seq<Scalar>, picked: Seq<int>|
            {
                &&& d.len() == pairs.len()
                &&& forall|i: int|
                    0 <= i < pairs.len() ==> apart(
                        measure,
                        query,
                        row(columns(pairs[i].0), query.len(), pairs[i].1 as int),
                        #[trigger] d[i],
                    )
                &&& picks_nearest(d, k, picked)
                &&& #[trigger] reports(rows_of_pairs(pairs), d, root, picked, results)
            }
    }
}

/// Whether `values` are the rows of a chunk as stored in the column of its file.
pub open spec fn stored(
    groups: Seq<FileClusters>,
    rows: Seq<Seq<u32>>,
    columns: spec_fn(usize) -> Seq<Scalar>,
    dim: nat,
    read: ChunkRead,
    values: Seq<Scalar>,
) -> bool {
    values == gathered(columns(groups[read.group as int].file), dim, row_positions(chunk_rows(rows, read)))
}

/// Whether every row of a group is within the column of its file.
pub open spec fn rows_are_in_files(
    groups: Seq<FileClusters>,
    rows: Seq<Seq<u32>>,
    columns: spec_fn(usize) -> Seq<Scalar>,
    dim: nat,
) -> bool {
    forall|g: int, j: int|
        0 <= g < rows.len() && 0 <= j < rows[g].len() ==> (#[trigger] rows[g][j] + 1) * dim <= columns(
            groups[g].file,
        ).len() && rows[g][j] <= usize::MAX
}

proof fn lemma_planned_tagged(groups: Seq<FileClusters>, rows: Seq<Seq<u32>>)
    ensures
        planned(tagged(groups, rows)) == planned(rows),
    decreases rows.len(),
{
    if rows.len() > 0 {
        lemma_planned_tagged(groups, rows.drop_last());
        assert(tagged(groups, rows).drop_last() =~= tagged(groups, rows.drop_last()));
    }
}

/// What was read lies row by row as its pairs do, in the columns of their files.
proof fn lemma_rows_read_are_stored(
    groups: Seq<FileClusters>,
    rows: Seq<Seq<u32>>,
    columns: spec_fn(usize) -> Seq<Scalar>,
    dim: nat,
    plan: Seq<ChunkRead>,
    parts: Seq<Option<Vec<Scalar>>>,
)
    requires
        dim > 0,
        plan.len() == parts.len(),
        rows_are_in_files(groups, rows, columns, dim),
        forall|c: int| 0 <= c < plan.len() ==> within(rows, #[trigger] plan[c]),
        forall|c: int|
            0 <= c < plan.len() ==> (parts[c] matches Some(values) ==> stored(
                groups,
                rows,
                columns,
                dim,
                #[trigger] plan[c],
                values@,
            )),
    ensures
        ({
            let pairs = rows_read(tagged(groups, rows), plan, parts);
            &&& rows_read(rows, plan, parts) == rows_of_pairs(pairs)
            &&& joined(parts).len() == pairs.len() * dim
            &&& forall|i: int|
                0 <= i < pairs.len() ==> row(joined(parts), dim, i) == row(
                    columns((#[trigger] pairs[i]).0),
                    dim,
                    pairs[i].1 as int,
                )
        }),
    decreases plan.len(),
{
    let pairs = rows_read(tagged(groups, rows), plan, parts);
    assert(0 * dim == 0) by (nonlinear_arith);
    if plan.len() == 0 {
        assert(rows_of_pairs(pairs) =~= rows_read(rows, plan, parts));
    } else {
        let shorter = plan.drop_last();
        let fewer = parts.drop_last();
        assert forall|c: int| 0 <= c < shorter.len() implies within(rows, #[trigger] shorter[c]) && (
        fewer[c] matches Some(values) ==> stored(groups, rows, columns, dim, shorter[c], values@)) by {
            assert(shorter[c] == plan[c] && fewer[c] == parts[c]);
        }
        lemma_rows_read_are_stored(groups, rows, columns, dim, shorter, fewer);
        let before = rows_read(tagged(groups, rows), shorter, fewer);
        let read = plan[plan.len() - 1];
        assert(plan.last() == read);
        if let Some(values) = parts.last() {
            let g = read.group as int;
            let file = groups[g].file;
            let chunk = chunk_rows(rows, read);
            let own = chunk_rows(tagged(groups, rows), read);
            assert(within(rows, read));
            assert(stored(groups, rows, columns, dim, read, values@));
            assert(own =~= chunk.map_values(|r: u32| (file, r)));
            assert(rows_of_pairs(pairs) =~= rows_read(rows, plan, parts));
            let at = row_positions(chunk);
            assert forall|j: int| 0 <= j < at.len() implies (#[trigger] at[j] + 1) * dim <= columns(file).len()
                && at[j] == chunk[j] by {
                assert(chunk[j] == rows[g][read.start + j]);
            }
            lemma_gathered_len(columns(file), dim, at);
            let front = joined(fewer);
            let all = joined(parts);
            assert(all == front + values@);
            let n = before.len() as int;
            assert((n + chunk.len()) * dim == n * dim + chunk.len() * dim) by (nonlinear_arith);
            assert forall|i: int| 0 <= i < pairs.len() implies row(all, dim, i) == row(
                columns((#[trigger] pairs[i]).0),
                dim,
                pairs[i].1 as int,
            ) by {
                if i < n {
                    lemma_row_within(n, dim as int, i);
                    assert(pairs[i] == before[i]);
                    assert(row(all, dim, i) =~= row(front, dim, i));
                } else {
                    let j = i - n;
                    lemma_row_within(chunk.len() as int, dim as int, j);
                    assert(i * dim == n * dim + j * dim && (i + 1) * dim == n * dim + (j + 1) * dim) by (nonlinear_arith)
                        requires
                            i == n + j,
                    ;
                    lemma_gathered_row(columns(file), dim, at, j);
                    assert(pairs[i] == own[j]);
                    assert(row(all, dim, i) =~= row(values@, dim, j));
                }
            }
        }
    }
}

proof fn lemma_listed_contains<X>(rows: Seq<Seq<X>>, x: X)
    ensures
        listed(rows).contains(x) <==> exists|g: int| 0 <= g < rows.len() && (#[trigger] rows[g]).contains(x),
    decreases rows.len(),
{
    if rows.len() > 0 {
        let front = rows.drop_last();
        let before = listed(front);
        let all = before + rows.last();
        lemma_listed_contains(front, x);
        if all.contains(x) {
            let i = choose|i: int| 0 <= i < all.len() && all[i] == x;
            if i < before.len() {
                assert(before[i] == x);
                let g = choose|g: int| 0 <= g < front.len() && (#[trigger] front[g]).contains(x);
                assert(rows[g].contains(x));
            } else {
                assert(rows.last()[i - before.len()] == x);
                assert(rows[rows.len() - 1].contains(x));
            }
        }
        if exists|g: int| 0 <= g < rows.len() && (#[trigger] rows[g]).contains(x) {
            let g = choose|g: int| 0 <= g < rows.len() && (#[trigger] rows[g]).contains(x);
            if g < front.len() {
                assert(front[g].contains(x));
                let i = choose|i: int| 0 <= i < before.len() && before[i] == x;
                assert(all[i] == x);
            } else {
                let i = choose|i: int| 0 <= i < rows[g].len() && rows[g][i] == x;
                assert(all[before.len() + i] == x);
            }
        }
    }
}

proof fn lemma_clusters_of_contains(items: Seq<ClusterItem>, file: usize, cluster: u32)
    ensures
        clusters_of(items, file).contains(cluster) ==> exists|i: int|
            0 <= i < items.len() && (#[trigger] items[i]).file == file && items[i].cluster == cluster,
    decreases items.len(),
{
    if clusters_of(items, file).contains(cluster) {
        let all = clusters_of(items, file);
        let shorter = items.drop_last();
        let front = clusters_of(shorter, file);
        let p = choose|p: int| 0 <= p < all.len() && all[p] == cluster;
        if p < front.len() {
            assert(front[p] == cluster);
            lemma_clusters_of_contains(shorter, file, cluster);
            let i = choose|i: int|
                0 <= i < shorter.len() && (#[trigger] shorter[i]).file == file && shorter[i].cluster == cluster;
            assert(items[i] == shorter[i]);
        } else {
            assert(items[items.len() - 1].file == file);
        }
    }
}

/// Whether `rows` are, for each group, the rows that the lists of its file hold
/// under its clusters.
pub open spec fn rows_listed(
    groups: Seq<FileClusters>,
    lists: spec_fn(usize) -> Seq<Seq<u32>>,
    rows: Seq<Seq<u32>>,
) -> bool {
    &&& rows.len() == groups.len()
    &&& forall|g: int|
        0 <= g < rows.len() ==> #[trigger] rows[g] == rows_in(
            lists(groups[g].file),
            cluster_positions(groups[g].clusters@),
        )
}

/// The pairs are those of a selected cluster: its file, and a row that its file
/// lists under it.
pub proof fn law_pairs_lie_in_selected_clusters(
    items: Seq<ClusterItem>,
    groups: Seq<FileClusters>,
    lists: spec_fn(usize) -> Seq<Seq<u32>>,
    rows: Seq<Seq<u32>>,
    file: usize,
    number: u32,
)
    requires
        groups_by_file(items, groups),
        rows_listed(groups, lists, rows),
    ensures
        pairs_of(groups, rows).contains((file, number)) <==> exists|i: int|
            {
                &&& 0 <= i < items.len()
                &&& (#[trigger] items[i]).file == file
                &&& lists(file)[items[i].cluster as int].contains(number)
            },
{
    let pair = (file, number);
    let tags = tagged(groups, rows);
    lemma_listed_contains(tags, pair);
    law_groups_hold_all_clusters(items, groups);
    if pairs_of(groups, rows).contains(pair) {
        let g = choose|g: int| 0 <= g < tags.len() && (#[trigger] tags[g]).contains(pair);
        let j = choose|j: int| 0 <= j < tags[g].len() && tags[g][j] == pair;
        assert(rows[g][j] == number && groups[g].file == file);
        assert(rows[g].contains(number));
        let clusters = groups[g].clusters@;
        lemma_rows_in_contains(lists(file), cluster_positions(clusters), number);
        let p = choose|p: int|
            0 <= p < cluster_positions(clusters).len() && lists(file)[#[trigger] cluster_positions(
                clusters,
            )[p] as int].contains(number);
        assert(clusters.contains(clusters[p]));
        lemma_clusters_of_contains(items, file, clusters[p]);
        let i = choose|i: int|
            0 <= i < items.len() && (#[trigger] items[i]).file == file && items[i].cluster == clusters[p];
        assert(lists(file)[items[i].cluster as int].contains(number));
    }
    if exists|i: int|
        {
            &&& 0 <= i < items.len()
            &&& (#[trigger] items[i]).file == file
            &&& lists(file)[items[i].cluster as int].contains(number)
        } {
        let i = choose|i: int|
            {
                &&& 0 <= i < items.len()
                &&& (#[trigger] items[i]).file == file
                &&& lists(file)[items[i].cluster as int].contains(number)
            };
        let g = choose|g: int|
            0 <= g < groups.len() && (#[trigger] groups[g]).file == items[i].file && groups[g].clusters@.contains(
                items[i].cluster,
            );
        let clusters = groups[g].clusters@;
        let p = choose|p: int| 0 <= p < clusters.len() && clusters[p] == items[i].cluster;
        assert(lists(file)[cluster_positions(clusters)[p] as int].contains(number));
        lemma_rows_in_contains(lists(file), cluster_positions(clusters), number);
        assert(rows[g].contains(number));
        let j = choose|j: int| 0 <= j < rows[g].len() && rows[g][j] == number;
        assert(tags[g][j] == pair);
        assert(tags[g].contains(pair));
    }
}

/// The results are the `k` nearest of the pairs that lie in the selected clusters,
/// each at the distance of the row of its own file.
pub proof fn law_nearest_pairs_are_reported<M: Fn(&[Scalar], &[Scalar]) -> Vec<Scalar>, R: Fn(Scalar) -> Scalar>(
    measure: M,
    root: R,
    query: Seq<Scalar>,
    groups: Seq<FileClusters>,
    rows: Seq<Seq<u32>>,
    columns: spec_fn(usize) -> Seq<Scalar>,
    parts: Seq<Option<Vec<Scalar>>>,
    k: nat,
    results: Seq<SearchResult>,
)
    requires
        query.len() > 0,
        rows.len() <= usize::MAX,
        forall|g: int| 0 <= g < rows.len() ==> (#[trigger] rows[g]).len() <= usize::MAX,
        rows_are_in_files(groups, rows, columns, query.len()),
        parts.len() == planned(rows).len(),
        forall|c: int| 0 <= c < parts.len() ==> #[trigger] parts[c] is Some,
        forall|c: int|
            0 <= c < parts.len() ==> stored(
                groups,
                rows,
                columns,
                query.len(),
                #[trigger] planned(rows)[c],
                parts[c]->0@,
            ),
        answers(measure, root, query, rows_read(rows, planned(rows), parts), joined(parts), k, results),
    ensures
        nearest_pairs(measure, root, query, columns, pairs_of(groups, rows), k, results),
{
    let dim = query.len();
    let plan = planned(rows);
    let tags = tagged(groups, rows);
    let pairs = pairs_of(groups, rows);
    assert forall|g: int| 0 <= g < tags.len() implies (#[trigger] tags[g]).len() <= usize::MAX by {
        assert(tags[g].len() == rows[g].len());
    }
    lemma_planned_tagged(groups, rows);
    law_chunks_lie_in_one_group(rows);
    law_chunks_cover_all_rows(tags, parts);
    lemma_rows_read_are_stored(groups, rows, columns, dim, plan, parts);
    assert(rows_read(tags, plan, parts) == pairs);
    let found = rows_read(rows, plan, parts);
    assert(found == rows_of_pairs(pairs));
    if pairs.len() > 0 {
        let used = joined(parts).take((found.len() * dim) as int);
        assert(used =~= joined(parts));
        let (d, picked) = choose|d: Seq<Scalar>, picked: Seq<int>|
            {
                &&& measured(measure, query, used, d)
                &&& d.len() == found.len()
                &&& picks_nearest(d, k, picked)
                &&& #[trigger] reports(found, d, root, picked, results)
            };
        lemma_whole_rows(pairs.len() as int, dim as int);
        assert forall|i: int| 0 <= i < pairs.len() implies apart(
            measure,
            query,
            row(columns(pairs[i].0), dim, pairs[i].1 as int),
            #[trigger] d[i],
        ) by {
            lemma_measured_apart(measure, query, used, d, i);
            assert(row(joined(parts), dim, i) == row(columns(pairs[i].0), dim, pairs[i].1 as int));
        }
        assert(reports(rows_of_pairs(pairs), d, root, picked, results));
    }
}

/// Whether no two of `items` are the same cluster of the same file.
pub open spec fn different_clusters(items: Seq<ClusterItem>) -> bool {
    forall|i: int, j: int|
        0 <= i < j < items.len() ==> (#[trigger] items[i]).file != (#[trigger] items[j]).file || items[i].cluster
            != items[j].cluster
}

proof fn lemma_all_clusters_differ(files: Seq<FileDistances>)
    requires
        forall|f: int| 0 <= f < files.len() ==> (#[trigger] files[f]).distances@.len() <= u32::MAX,
        forall|a: int, b: int| 0 <= a < b < files.len() ==> (#[trigger] files[a]).file != (#[trigger] files[b]).file,
    ensures
        different_clusters(all_clusters(files)),
        forall|i: int|
            0 <= i < all_clusters(files).len() ==> exists|f: int|
                {
                    &&& 0 <= f < files.len()
                    &&& (#[trigger] files[f]).file == (#[trigger] all_clusters(files)[i]).file
                    &&& all_clusters(files)[i].cluster < files[f].distances@.len()
                },
    decreases files.len(),
{
    if files.len() > 0 {
        let front = files.drop_last();
        assert forall|f: int| 0 <= f < front.len() implies (#[trigger] front[f]).distances@.len() <= u32::MAX by {
            assert(front[f] == files[f]);
        }
        assert forall|a: int, b: int| 0 <= a < b < front.len() implies (#[trigger] front[a]).file != (
        #[trigger] front[b]).file by {
            assert(front[a] == files[a] && front[b] == files[b]);
        }
        lemma_all_clusters_differ(front);
        let before = all_clusters(front);
        let last = files[files.len() - 1];
        let own = clusters_in(last);
        let all = all_clusters(files);
        assert(all == before + own);
        assert forall|i: int| 0 <= i < all.len() implies exists|f: int|
            {
                &&& 0 <= f < files.len()
                &&& (#[trigger] files[f]).file == (#[trigger] all[i]).file
                &&& all[i].cluster < files[f].distances@.len()
            } by {
            if i < before.len() {
                assert(all[i] == before[i]);
                let f = choose|f: int|
                    {
                        &&& 0 <= f < front.len()
                        &&& (#[trigger] front[f]).file == before[i].file
                        &&& before[i].cluster < front[f].distances@.len()
                    };
                assert(files[f].file == all[i].file);
            } else {
                assert(all[i] == own[i - before.len()]);
                assert(files[files.len() - 1].file == all[i].file);
            }
        }
        assert forall|i: int, j: int| 0 <= i < j < all.len() implies (#[trigger] all[i]).file != (
        #[trigger] all[j]).file || all[i].cluster != all[j].cluster by {
            if j < before.len() {
                assert(all[i] == before[i] && all[j] == before[j]);
            } else if i < before.len() {
                assert(all[i] == before[i] && all[j] == own[j - before.len()]);
                let f = choose|f: int| 0 <= f < front.len() && (#[trigger] front[f]).file == before[i].file;
                assert(files[f].file != files[files.len() - 1].file);
            } else {
                assert(all[i] == own[i - before.len()] && all[j] == own[j - before.len()]);
            }
        }
    }
}

proof fn lemma_clusters_of_differ(items: Seq<ClusterItem>, file: usize)
    requires
        different_clusters(items),
    ensures
        clusters_of(items, file).no_duplicates(),
    decreases items.len(),
{
    if items.len() > 0 {
        let shorter = items.drop_last();
        assert forall|i: int, j: int| 0 <= i < j < shorter.len() implies (#[trigger] shorter[i]).file != (
        #[trigger] shorter[j]).file || shorter[i].cluster != shorter[j].cluster by {
            assert(shorter[i] == items[i] && shorter[j] == items[j]);
        }
        lemma_clusters_of_differ(shorter, file);
        let last = items[items.len() - 1];
        let front = clusters_of(shorter, file);
        if last.file == file && front.contains(last.cluster) {
            lemma_clusters_of_contains(shorter, file, last.cluster);
            let i = choose|i: int|
                0 <= i < shorter.len() && (#[trigger] shorter[i]).file == file && shorter[i].cluster == last.cluster;
            assert(items[i].file != last.file || items[i].cluster != last.cluster);
        }
        assert forall|p: int, q: int|
            0 <= p < q < clusters_of(items, file).len() implies clusters_of(items, file)[p] != clusters_of(items, file)[q] by {
            if q < front.len() {
                assert(front[p] != front[q]);
            } else {
                assert(front.contains(front[p]));
            }
        }
    }
}

proof fn lemma_listed_differ<X>(rows: Seq<Seq<X>>)
    requires
        forall|g: int| 0 <= g < rows.len() ==> (#[trigger] rows[g]).no_duplicates(),
        forall|g: int, h: int, x: X|
            0 <= g < h < rows.len() && #[trigger] rows[g].contains(x) ==> !#[trigger] rows[h].contains(x),
    ensures
        listed(rows).no_duplicates(),
    decreases rows.len(),
{
    if rows.len() > 0 {
        let front = rows.drop_last();
        assert forall|g: int| 0 <= g < front.len() implies (#[trigger] front[g]).no_duplicates() by {
            assert(front[g] == rows[g]);
        }
        assert forall|g: int, h: int, x: X|
            0 <= g < h < front.len() && #[trigger] front[g].contains(x) implies !#[trigger] front[h].contains(x) by {
            assert(rows[g].contains(x));
            assert(!rows[h].contains(x));
        }
        lemma_listed_differ(front);
        let before = listed(front);
        let n = rows.len() - 1;
        let last = rows[n];
        let all = listed(rows);
        assert(all == before + last);
        assert forall|i: int, j: int| 0 <= i < j < all.len() implies all[i] != all[j] by {
            if j < before.len() {
                assert(before[i] != before[j]);
            } else if i < before.len() {
                let x = before[i];
                assert(before.contains(x));
                lemma_listed_contains(front, x);
                let g = choose|g: int| 0 <= g < front.len() && (#[trigger] front[g]).contains(x);
                assert(rows[g].contains(x));
                assert(!rows[n].contains(x));
                assert(last[j - before.len()] == all[j]);
            } else {
                assert(last[i - before.len()] != last[j - before.len()]);
            }
        }
    }
}

/// Of different files whose lists hold no row twice, no pair comes up twice.
pub proof fn law_pairs_are_different(
    files: Seq<FileDistances>,
    budget: nat,
    groups: Seq<FileClusters>,
    lists: spec_fn(usize) -> Seq<Seq<u32>>,
    rows: Seq<Seq<u32>>,
)
    requires
        all_clusters(files).len() <= usize::MAX,
        forall|f: int|
            0 <= f < files.len() ==> (#[trigger] files[f]).distances@.len() <= u32::MAX && disjoint(
                lists(files[f].file),
            ) && lists(files[f].file).len() == files[f].distances@.len(),
        forall|a: int, b: int| 0 <= a < b < files.len() ==> (#[trigger] files[a]).file != (#[trigger] files[b]).file,
        groups_by_file(closest_items(all_clusters(files), budget), groups),
        rows_listed(groups, lists, rows),
    ensures
        pairs_of(groups, rows).no_duplicates(),
{
    let all = all_clusters(files);
    let items = closest_items(all, budget);
    let order = probed(item_distances(all), budget);
    lemma_all_clusters_differ(files);
    law_probed_clusters_are_closest(item_distances(all), budget);
    assert forall|i: int, j: int| 0 <= i < j < items.len() implies (#[trigger] items[i]).file != (
    #[trigger] items[j]).file || items[i].cluster != items[j].cluster by {
        assert(order[i] != order[j]);
        assert(items[i] == all[order[i] as int] && items[j] == all[order[j] as int]);
        if order[i] < order[j] {
            assert(all[order[i] as int].file != all[order[j] as int].file || all[order[i] as int].cluster
                != all[order[j] as int].cluster);
        } else {
            assert(all[order[j] as int].file != all[order[i] as int].file || all[order[j] as int].cluster
                != all[order[i] as int].cluster);
        }
    }
    law_groups_hold_all_clusters(items, groups);
    let tags = tagged(groups, rows);
    assert forall|g: int| 0 <= g < tags.len() implies (#[trigger] tags[g]).no_duplicates() by {
        let file = groups[g].file;
        let clusters = groups[g].clusters@;
        assert(clusters == clusters_of(items, file));
        lemma_clusters_of_differ(items, file);
        let at = cluster_positions(clusters);
        assert(clusters.len() > 0);
        assert forall|p: int| 0 <= p < at.len() implies (#[trigger] at[p]) < lists(file).len() && disjoint(
            lists(file),
        ) by {
            assert(clusters.contains(clusters[p]));
            lemma_clusters_of_contains(items, file, clusters[p]);
            let i = choose|i: int|
                0 <= i < items.len() && (#[trigger] items[i]).file == file && items[i].cluster == clusters[p];
            let o = order[i] as int;
            assert(items[i] == all[o]);
            let f = choose|f: int|
                {
                    &&& 0 <= f < files.len()
                    &&& (#[trigger] files[f]).file == all[o].file
                    &&& all[o].cluster < files[f].distances@.len()
                };
            assert(files[f].file == file);
        }
        assert(at[0] < lists(file).len());
        assert forall|p: int, q: int| 0 <= p < q < at.len() implies at[p] != at[q] by {
            assert(clusters[p] != clusters[q]);
        }
        law_rows_of_clusters_are_distinct(lists(file), at);
        assert forall|p: int, q: int| 0 <= p < q < tags[g].len() implies tags[g][p] != tags[g][q] by {
            assert(rows[g][p] != rows[g][q]);
        }
    }
    assert forall|g: int, h: int, x: (usize, u32)|
        0 <= g < h < tags.len() && #[trigger] tags[g].contains(x) implies !#[trigger] tags[h].contains(x) by {
        let p = choose|p: int| 0 <= p < tags[g].len() && tags[g][p] == x;
        assert(x.0 == groups[g].file);
        assert(groups[g].file != groups[h].file);
    }
    lemma_listed_differ(tags);
}

/// A search of different files with one budget reports the `k` nearest of the
/// pairs of a file and a row that the file lists under one of the `budget` closest
/// clusters: each pair once, at the distance of the row in its own file.
pub proof fn law_one_budget_reports_the_nearest_pairs<
    M: Fn(&[Scalar], &[Scalar]) -> Vec<Scalar>,
    R: Fn(Scalar) -> Scalar,
>(
    measure: M,
    root: R,
    query: Seq<Scalar>,
    files: Seq<FileDistances>,
    budget: nat,
    groups: Seq<FileClusters>,
    lists: spec_fn(usize) -> Seq<Seq<u32>>,
    rows: Seq<Seq<u32>>,
    columns: spec_fn(usize) -> Seq<Scalar>,
    parts: Seq<Option<Vec<Scalar>>>,
    k: nat,
    results: Seq<SearchResult>,
)
    requires
        query.len() > 0,
        all_clusters(files).len() <= usize::MAX,
        forall|f: int|
            0 <= f < files.len() ==> (#[trigger] files[f]).distances@.len() <= u32::MAX && disjoint(
                lists(files[f].file),
            ) && lists(files[f].file).len() == files[f].distances@.len(),
        forall|a: int, b: int| 0 <= a < b < files.len() ==> (#[trigger] files[a]).file != (#[trigger] files[b]).file,
        groups_by_file(closest_items(all_clusters(files), budget), groups),
        rows_listed(groups, lists, rows),
        rows.len() <= usize::MAX,
        forall|g: int| 0 <= g < rows.len() ==> (#[trigger] rows[g]).len() <= usize::MAX,
        rows_are_in_files(groups, rows, columns, query.len()),
        parts.len() == planned(rows).len(),
        forall|c: int| 0 <= c < parts.len() ==> #[trigger] parts[c] is Some,
        forall|c: int|
            0 <= c < parts.len() ==> stored(
                groups,
                rows,
                columns,
                query.len(),
                #[trigger] planned(rows)[c],
                parts[c]->0@,
            ),
        answers(measure, root, query, rows_read(rows, planned(rows), parts), joined(parts), k, results),
    ensures
        nearest_pairs(measure, root, query, columns, pairs_of(groups, rows), k, results),
        pairs_of(groups, rows).no_duplicates(),
        forall|file: usize, number: u32| #[trigger]
            pairs_of(groups, rows).contains((file, number)) <==> exists|i: int|
                {
                    &&& 0 <= i < closest_items(all_clusters(files), budget).len()
                    &&& (#[trigger] closest_items(all_clusters(files), budget)[i]).file == file
                    &&& lists(file)[closest_items(all_clusters(files), budget)[i].cluster as int].contains(number)
                },
{
    let items = closest_items(all_clusters(files), budget);
    law_nearest_pairs_are_reported(measure, root, query, groups, rows, columns, parts, k, results);
    law_pairs_are_different(files, budget, groups, lists, rows);
    assert forall|file: usize, number: u32| #[trigger] pairs_of(groups, rows).contains((file, number)) <==> exists|i: int|
        {
            &&& 0 <= i < items.len()
            &&& (#[trigger] items[i]).file == file
            &&& lists(file)[items[i].cluster as int].contains(number)
        } by {
        law_pairs_lie_in_selected_clusters(items, groups, lists, rows, file, number);
    }
}

} // verus!
