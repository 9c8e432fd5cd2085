//! Which rows are read, and where they end up.

use crate::embeddings::{lemma_row_within, row};
use crate::matrix::{gathered, lemma_gathered_row};
use crate::nonuniform::{
    chunk_rows, clusters_of, groups_by_file, joined, law_chunks_cover_all_rows, law_chunks_lie_in_one_group, listed,
    planned, rows_read, ClusterItem, FileClusters,
};
use crate::scalar::Scalar;
use crate::selection::{
    ascending, law_selection_is_exact, lemma_position_of, positions, position_of, row_after, row_positions, runs_for,
    runs_mask, selected,
};
use vstd::prelude::*;

verus! {

/// The rows of a matrix lie one after the other: column `d` of row `i` is the
/// value at `i * dim + d`.
pub proof fn law_rows_lie_one_after_the_other(data: Seq<Scalar>, dim: nat, i: int, d: int)
    requires
        0 <= i,
        (i + 1) * dim <= data.len(),
        0 <= d < dim,
    ensures
        row(data, dim, i).len() == dim,
        row(data, dim, i)[d] == data[i * dim + d],
{
    lemma_row_within(i + 1, dim as int, i);
}

/// Gathering copies the rows asked for, each as it is and in the order in which
/// they are asked for.
pub proof fn law_gathering_copies_each_row(data: Seq<Scalar>, dim: nat, rows: Seq<usize>, i: int, d: int)
    requires
        forall|j: int| 0 <= j < rows.len() ==> (#[trigger] rows[j] + 1) * dim <= data.len(),
        0 <= i < rows.len(),
        0 <= d < dim,
    ensures
        gathered(data, dim, rows).len() == rows.len() * dim,
        gathered(data, dim, rows)[i * dim + d] == data[rows[i] * dim + d],
{
    lemma_gathered_row(data, dim, rows, i);
    lemma_row_within(rows.len() as int, dim as int, i);
    lemma_row_within(rows[i] + 1, dim as int, rows[i] as int);
    assert(row(gathered(data, dim, rows), dim, i)[d] == row(data, dim, rows[i] as int)[d]);
}

proof fn lemma_selected_contains(mask: Seq<bool>, i: usize)
    requires
        mask.len() <= usize::MAX,
    ensures
        selected(mask).contains(i) <==> i < mask.len() && mask[i as int],
    decreases mask.len(),
{
    if mask.len() > 0 {
        let front = mask.drop_last();
        let before = selected(front);
        lemma_selected_contains(front, i);
        if mask.last() {
            let all = selected(mask);
            let last = (mask.len() - 1) as usize;
            assert(all == before.push(last));
            if before.contains(i) {
                let p = choose|p: int| 0 <= p < before.len() && before[p] == i;
                assert(all[p] == i);
            }
            if i == last {
                assert(all[before.len() as int] == i);
            }
            if all.contains(i) {
                let p = choose|p: int| 0 <= p < all.len() && all[p] == i;
                if p < before.len() {
                    assert(before[p] == i);
                }
            }
        }
    }
}

/// A row of the file is selected if and only if it is asked for, whatever rows are
/// asked for and however many the file has; the selection covers them all.
pub proof fn law_a_row_is_selected_if_it_is_asked_for(rows: Seq<u32>, total_rows: nat, row: u32)
    requires
        forall|i: int, j: int| 0 <= i < j < rows.len() ==> #[trigger] rows[i] < #[trigger] rows[j],
        forall|i: int| 0 <= i < rows.len() ==> (#[trigger] rows[i]) < total_rows,
        total_rows <= usize::MAX,
        row < total_rows,
    ensures
        runs_mask(runs_for(rows, total_rows as int)).len() == total_rows,
        runs_mask(runs_for(rows, total_rows as int))[row as int] <==> rows.contains(row),
{
    let n = rows.len() as int;
    let mask = runs_mask(runs_for(rows, total_rows as int));
    assert(ascending(rows));
    if n > 0 {
        assert(rows[n - 1] < total_rows);
    }
    assert(row_after(rows, n) <= total_rows);
    law_selection_is_exact(rows, total_rows);
    lemma_selected_contains(mask, row as usize);
    let at = row_positions(rows);
    if rows.contains(row) {
        let i = choose|i: int| 0 <= i < rows.len() && rows[i] == row;
        assert(at[i] == row as usize);
        assert(at.contains(row as usize));
    }
    if at.contains(row as usize) {
        let i = choose|i: int| 0 <= i < at.len() && at[i] == row as usize;
        assert(rows[i] < total_rows);
        assert(rows[i] == row);
    }
}

/// What is put back into order is, for each row wanted, the embedding that was
/// read for that row.
pub proof fn law_each_wanted_row_gets_its_own_embedding(
    embeddings: Seq<Scalar>,
    dim: nat,
    wanted: Seq<u32>,
    read: Seq<u32>,
    i: int,
    j: int,
    d: int,
)
    requires
        forall|a: int, b: int| 0 <= a < b < read.len() ==> #[trigger] read[a] < #[trigger] read[b],
        forall|a: int| 0 <= a < wanted.len() ==> read.contains(#[trigger] wanted[a]),
        embeddings.len() == read.len() * dim,
        read.len() <= usize::MAX,
        0 <= i < wanted.len(),
        0 <= j < read.len(),
        wanted[i] == read[j],
        0 <= d < dim,
    ensures
        gathered(embeddings, dim, positions(wanted, read)).len() == wanted.len() * dim,
        gathered(embeddings, dim, positions(wanted, read))[i * dim + d] == embeddings[j * dim + d],
{
    let at = positions(wanted, read);
    assert forall|a: int| 0 <= a < at.len() implies (#[trigger] at[a] + 1) * dim <= embeddings.len() && at[a]
        < read.len() && read[at[a] as int] == wanted[a] by {
        assert(read.contains(wanted[a]));
        lemma_position_of(read, wanted[a]);
        lemma_row_within(read.len() as int, dim as int, position_of(read, wanted[a]));
    }
    law_gathering_copies_each_row(embeddings, dim, at, i, d);
    let p = at[i] as int;
    assert(read[p] == read[j]);
    if p < j {
        assert(read[p] < read[j]);
    } else if j < p {
        assert(read[j] < read[p]);
    }
}

proof fn lemma_clusters_of_is_a_filter(items: Seq<ClusterItem>, file: usize)
    ensures
        clusters_of(items, file) == items.filter(|item: ClusterItem| item.file == file).map_values(
            |item: ClusterItem| item.cluster,
        ),
    decreases items.len(),
{
    reveal(Seq::filter);
    let same = |item: ClusterItem| item.file == file;
    let cluster = |item: ClusterItem| item.cluster;
    if items.len() > 0 {
        let front = items.drop_last();
        lemma_clusters_of_is_a_filter(front, file);
        assert(clusters_of(items, file) =~= items.filter(same).map_values(cluster));
    } else {
        assert(clusters_of(items, file) =~= items.filter(same).map_values(cluster));
    }
}

/// The group of a file holds the clusters that were selected in that file, all of
/// them, in the order of selection, and no others; every file with a selected
/// cluster has a group, and but one.
pub proof fn law_groups_hold_the_clusters_of_their_files(items: Seq<ClusterItem>, groups: Seq<FileClusters>)
    requires
        groups_by_file(items, groups),
    ensures
        forall|g: int|
            0 <= g < groups.len() ==> (#[trigger] groups[g]).clusters@ == items.filter(
                |item: ClusterItem| item.file == groups[g].file,
            ).map_values(|item: ClusterItem| item.cluster),
        forall|i: int|
            0 <= i < items.len() ==> exists|g: int|
                0 <= g < groups.len() && (#[trigger] groups[g]).file == (#[trigger] items[i]).file,
        forall|a: int, b: int| 0 <= a < b < groups.len() ==> (#[trigger] groups[a]).file != (#[trigger] groups[b]).file,
{
    crate::nonuniform::law_groups_hold_all_clusters(items, groups);
    assert forall|g: int| 0 <= g < groups.len() implies (#[trigger] groups[g]).clusters@ == items.filter(
        |item: ClusterItem| item.file == groups[g].file,
    ).map_values(|item: ClusterItem| item.cluster) by {
        lemma_clusters_of_is_a_filter(items, groups[g].file);
    }
}

proof fn lemma_listed_end_to_end<X>(rows: Seq<Seq<X>>)
    ensures
        listed(rows) == rows.flatten(),
    decreases rows.len(),
{
    if rows.len() > 0 {
        let front = rows.drop_last();
        lemma_listed_end_to_end(front);
        front.lemma_flatten_push(rows.last());
        assert(front.push(rows.last()) =~= rows);
    }
}

/// What the reads that succeeded gave is kept whole, one read after the other.
pub proof fn law_joined_reads_are_kept_whole<T>(parts: Seq<Option<Vec<T>>>)
    ensures
        joined(parts) == Seq::new(
            parts.len(),
            |c: int|
                match parts[c] {
                    Some(values) => values@,
                    None => Seq::empty(),
                },
        ).flatten(),
    decreases parts.len(),
{
    let all = Seq::new(
        parts.len(),
        |c: int|
            match parts[c] {
                Some(values) => values@,
                None => Seq::empty(),
            },
    );
    if parts.len() == 0 {
        assert(all =~= Seq::<Seq<T>>::empty());
    } else {
        let front = parts.drop_last();
        law_joined_reads_are_kept_whole(front);
        let before = Seq::new(
            front.len(),
            |c: int|
                match front[c] {
                    Some(values) => values@,
                    None => Seq::empty(),
                },
        );
        let last = match parts.last() {
            Some(values) => values@,
            None => Seq::empty(),
        };
        assert(all =~= before.push(last));
        before.lemma_flatten_push(last);
        assert(joined(parts) =~= joined(front) + last);
    }
}

/// The rows kept are those of the chunks whose reads succeeded, one chunk after the
/// other.
pub proof fn law_rows_of_successful_reads_are_kept<X, T>(
    rows: Seq<Seq<X>>,
    plan: Seq<crate::nonuniform::ChunkRead>,
    parts: Seq<Option<Vec<T>>>,
)
    requires
        parts.len() == plan.len(),
    ensures
        rows_read(rows, plan, parts) == Seq::new(
            plan.len(),
            |c: int|
                match parts[c] {
                    Some(_) => rows[plan[c].group as int].subrange(plan[c].start as int, plan[c].end as int),
                    None => Seq::empty(),
                },
        ).flatten(),
    decreases plan.len(),
{
    let all = Seq::new(
        plan.len(),
        |c: int|
            match parts[c] {
                Some(_) => rows[plan[c].group as int].subrange(plan[c].start as int, plan[c].end as int),
                None => Seq::empty(),
            },
    );
    if plan.len() == 0 {
        assert(all =~= Seq::<Seq<X>>::empty());
    } else {
        let shorter = plan.drop_last();
        let fewer = parts.drop_last();
        law_rows_of_successful_reads_are_kept(rows, shorter, fewer);
        let before = Seq::new(
            shorter.len(),
            |c: int|
                match fewer[c] {
                    Some(_) => rows[shorter[c].group as int].subrange(shorter[c].start as int, shorter[c].end as int),
                    None => Seq::empty(),
                },
        );
        let last = match parts.last() {
            Some(_) => chunk_rows(rows, plan.last()),
            None => Seq::empty(),
        };
        assert(all =~= before.push(last));
        before.lemma_flatten_push(last);
        assert(rows_read(rows, plan, parts) =~= rows_read(rows, shorter, fewer) + last);
    }
}

/// The chunks, end to end, are the rows of all groups: none is left out and none
/// comes twice. A chunk is a stretch of one group of at most a thousand rows.
pub proof fn law_chunks_are_all_rows_end_to_end<X>(rows: Seq<Seq<X>>)
    requires
        rows.len() <= usize::MAX,
        forall|g: int| 0 <= g < rows.len() ==> (#[trigger] rows[g]).len() <= usize::MAX,
    ensures
        Seq::new(
            planned(rows).len(),
            |c: int|
                rows[planned(rows)[c].group as int].subrange(planned(rows)[c].start as int, planned(rows)[c].end as int),
        ).flatten() == rows.flatten(),
        forall|c: int|
            0 <= c < planned(rows).len() ==> {
                &&& (#[trigger] planned(rows)[c]).group < rows.len()
                &&& planned(rows)[c].start < planned(rows)[c].end <= rows[planned(rows)[c].group as int].len()
                &&& planned(rows)[c].end - planned(rows)[c].start <= 1000
            },
{
    let plan = planned(rows);
    let some: Vec<u8> = arbitrary();
    let parts = Seq::new(plan.len(), |c: int| Some(some));
    law_chunks_lie_in_one_group(rows);
    assert forall|c: int| 0 <= c < plan.len() implies {
        &&& (#[trigger] planned(rows)[c]).group < rows.len()
        &&& planned(rows)[c].start < planned(rows)[c].end <= rows[planned(rows)[c].group as int].len()
        &&& planned(rows)[c].end - planned(rows)[c].start <= 1000
    } by {
        assert(crate::nonuniform::within(rows, plan[c]));
    }
    law_chunks_cover_all_rows(rows, parts);
    law_rows_of_successful_reads_are_kept(rows, plan, parts);
    lemma_listed_end_to_end(rows);
    assert(Seq::new(
        plan.len(),
        |c: int|
            match parts[c] {
                Some(_) => rows[plan[c].group as int].subrange(plan[c].start as int, plan[c].end as int),
                None => Seq::empty(),
            },
    ) =~= Seq::new(
        planned(rows).len(),
        |c: int|
            rows[planned(rows)[c].group as int].subrange(planned(rows)[c].start as int, planned(rows)[c].end as int),
    ));
}

} // verus!
