//! Reading the embeddings of given rows.
//!
//! Rows are read in ascending order, in one pass over the file, and put back
//! into the order in which they were asked for.

use crate::count::EmbeddingDim;
use crate::embeddings::{lemma_row_within, EmbeddingColumn};
use crate::error::Error;
use crate::matrix::{gather, gathered};
use crate::order::{as_ints, order_by_rank, orders_range, precedes};
use crate::scalar::Scalar;
use parquet::arrow::arrow_reader::{RowSelection, RowSelector};
use std::collections::HashMap;
use vstd::prelude::*;

verus! {

broadcast use vstd::std_specs::hash::group_hash_axioms;

/// Declares `parquet::arrow::arrow_reader::RowSelection`, of which nothing is seen
/// but the rows it selects.
#[verifier::external_type_specification]
#[verifier::external_body]
pub struct ExRowSelection(parquet::arrow::arrow_reader::RowSelection);

/// A run of consecutive rows that are all skipped or all selected.
#[derive(Clone, Copy, PartialEq, Eq, Structural, Debug)]
pub struct RowRun {
    pub row_count: usize,
    pub skip: bool,
}

/// For each row that `runs` cover, in order, whether it is selected.
pub open spec fn runs_mask(runs: Seq<RowRun>) -> Seq<bool>
    decreases runs.len(),
{
    if runs.len() == 0 {
        Seq::empty()
    } else {
        runs_mask(runs.drop_last()) + Seq::new(runs.last().row_count as nat, |i: int| !runs.last().skip)
    }
}

/// For each row that a selection covers, in order, whether it is selected.
pub uninterp spec fn selection_mask(selection: RowSelection) -> Seq<bool>;

/// Calls `RowSelection::from` on the selectors of `runs`, which adds up the
/// lengths of adjacent runs of one kind and panics where they exceed a `usize`:
/// the selection covers the rows that the runs cover, in order, and selects those
/// that they select.
#[verifier::external_body]
pub(crate) fn selection_of(runs: &Vec<RowRun>) -> (r: RowSelection)
    requires
        runs_mask(runs@).len() <= usize::MAX,
    ensures
        selection_mask(r) == runs_mask(runs@),
{
    let selectors: Vec<RowSelector> = runs.iter().map(
        |run| RowSelector { row_count: run.row_count, skip: run.skip },
    ).collect();
    RowSelection::from(selectors)
}

/// The first row after the first `i` of `rows`.
pub open spec fn row_after(rows: Seq<u32>, i: int) -> int {
    if i <= 0 {
        0
    } else {
        rows[i - 1] + 1
    }
}

/// The runs up to and including the first `i` of `rows`: each row is selected by
/// a run of its own, behind a run that skips the rows since the one before.
pub open spec fn runs_to(rows: Seq<u32>, i: int) -> Seq<RowRun>
    decreases i,
{
    if i <= 0 {
        Seq::empty()
    } else {
        let front = runs_to(rows, i - 1);
        let gap = rows[i - 1] - row_after(rows, i - 1);
        let skipped = if gap > 0 {
            front.push(RowRun { row_count: gap as usize, skip: true })
        } else {
            front
        };
        skipped.push(RowRun { row_count: 1, skip: false })
    }
}

/// The runs that select `rows` of a file of `total_rows`: up to the last row,
/// then a run that skips the rest.
pub open spec fn runs_for(rows: Seq<u32>, total_rows: int) -> Seq<RowRun> {
    let n = rows.len() as int;
    let rest = total_rows - row_after(rows, n);
    if rest > 0 {
        runs_to(rows, n).push(RowRun { row_count: rest as usize, skip: true })
    } else {
        runs_to(rows, n)
    }
}

/// Whether `rows` are in ascending order, each but once.
pub open spec fn ascending(rows: Seq<u32>) -> bool {
    forall|i: int, j: int| 0 <= i < j < rows.len() ==> #[trigger] rows[i] < #[trigger] rows[j]
}

/// The runs that select `rows` of a file of `total_rows`.
fn row_runs(rows: &[u32], total_rows: usize) -> (r: Vec<RowRun>)
    requires
        forall|i: int| 0 <= i < rows@.len() ==> (#[trigger] rows@[i]) < usize::MAX,
    ensures
        r@ == runs_for(rows@, total_rows as int),
{
    let mut runs: Vec<RowRun> = Vec::new();
    let mut position: usize = 0;
    let mut i: usize = 0;
    while i < rows.len()
        invariant
            i <= rows@.len(),
            forall|i: int| 0 <= i < rows@.len() ==> (#[trigger] rows@[i]) < usize::MAX,
            position == row_after(rows@, i as int),
            runs@ == runs_to(rows@, i as int),
        decreases rows@.len() - i,
    {
        let row: usize = rows[i] as usize;
        if row > position {
            runs.push(RowRun { row_count: row - position, skip: true });
        }
        runs.push(RowRun { row_count: 1, skip: false });
        position = row + 1;
        i = i + 1;
    }
    if position < total_rows {
        runs.push(RowRun { row_count: total_rows - position, skip: true });
    }
    runs
}

/// The rows that `mask` selects, in order.
pub open spec fn selected(mask: Seq<bool>) -> Seq<usize>
    decreases mask.len(),
{
    if mask.len() == 0 {
        Seq::empty()
    } else if mask.last() {
        selected(mask.drop_last()).push((mask.len() - 1) as usize)
    } else {
        selected(mask.drop_last())
    }
}

proof fn lemma_selected_skip(mask: Seq<bool>, count: nat)
    ensures
        selected(mask + Seq::new(count, |i: int| false)) == selected(mask),
    decreases count,
{
    let longer = mask + Seq::new(count, |i: int| false);
    if count == 0 {
        assert(longer =~= mask);
    } else {
        lemma_selected_skip(mask, (count - 1) as nat);
        assert(longer.drop_last() =~= mask + Seq::new((count - 1) as nat, |i: int| false));
    }
}

/// Where rows ascend, the runs up to the `i`-th cover the rows of the file up to
/// it and select the first `i`.
proof fn lemma_runs_to_selected(rows: Seq<u32>, i: int)
    requires
        ascending(rows),
        0 <= i <= rows.len(),
        forall|j: int| 0 <= j < rows.len() ==> (#[trigger] rows[j]) < usize::MAX,
    ensures
        runs_mask(runs_to(rows, i)).len() == row_after(rows, i),
        selected(runs_mask(runs_to(rows, i))) == row_positions(rows.take(i)),
    decreases i,
{
    if i == 0 {
        assert(row_positions(rows.take(0)) =~= Seq::<usize>::empty());
    } else {
        lemma_runs_to_selected(rows, i - 1);
        let front = runs_to(rows, i - 1);
        let row = rows[i - 1] as int;
        let gap = row - row_after(rows, i - 1);
        if i > 1 {
            assert(rows[i - 2] < rows[i - 1]);
        }
        let skipped = if gap > 0 {
            front.push(RowRun { row_count: gap as usize, skip: true })
        } else {
            front
        };
        let mask = runs_mask(skipped);
        if gap > 0 {
            assert(skipped.drop_last() =~= front);
            assert(mask =~= runs_mask(front) + Seq::new(gap as nat, |i: int| false));
            lemma_selected_skip(runs_mask(front), gap as nat);
        }
        assert(runs_to(rows, i).drop_last() =~= skipped);
        assert(runs_mask(runs_to(rows, i)) =~= mask.push(true));
        assert(mask.push(true).drop_last() =~= mask);
        assert(row_positions(rows.take(i)) =~= row_positions(rows.take(i - 1)).push(row as usize));
    }
}

/// The selection of rows in ascending order, each but once, covers every row of
/// the file and those asked for, and selects exactly those asked for.
pub proof fn law_selection_is_exact(rows: Seq<u32>, total_rows: nat)
    requires
        ascending(rows),
        total_rows <= usize::MAX,
        row_after(rows, rows.len() as int) <= usize::MAX,
    ensures
        runs_mask(runs_for(rows, total_rows as int)).len() == if row_after(rows, rows.len() as int) < total_rows {
            total_rows as int
        } else {
            row_after(rows, rows.len() as int)
        },
        selected(runs_mask(runs_for(rows, total_rows as int))) == row_positions(rows),
{
    let n = rows.len() as int;
    assert forall|i: int| 0 <= i < n implies (#[trigger] rows[i]) < usize::MAX by {
        assert(i < n - 1 ==> rows[i] < rows[n - 1]);
    }
    lemma_runs_to_selected(rows, n);
    assert(rows.take(n) =~= rows);
    let rest = total_rows - row_after(rows, n);
    let front = runs_to(rows, n);
    if rest > 0 {
        assert(runs_for(rows, total_rows as int).drop_last() =~= front);
        assert(runs_mask(runs_for(rows, total_rows as int)) =~= runs_mask(front) + Seq::new(
            rest as nat,
            |i: int| false,
        ));
        lemma_selected_skip(runs_mask(front), rest as nat);
    }
}

/// The selection of `rows`, given in ascending order, in a file of `total_rows`.
pub fn select_rows(rows: &[u32], total_rows: usize) -> (r: RowSelection)
    requires
        ascending(rows@),
        row_after(rows@, rows@.len() as int) <= usize::MAX,
    ensures
        selection_mask(r) == runs_mask(runs_for(rows@, total_rows as int)),
        selected(selection_mask(r)) == row_positions(rows@),
        row_after(rows@, rows@.len() as int) <= total_rows ==> selection_mask(r).len() == total_rows,
{
    proof {
        law_selection_is_exact(rows@, total_rows as nat);
        assert forall|i: int| 0 <= i < rows@.len() implies (#[trigger] rows@[i]) < usize::MAX by {
            assert(i < rows@.len() - 1 ==> rows@[i] < rows@[rows@.len() - 1]);
        }
    }
    let runs = row_runs(rows, total_rows);
    selection_of(&runs)
}

/// The rows to read, in ascending order and each but once; `None` where there is
/// nothing to read.
pub fn rows_to_read(rows: &[u32]) -> (r: Option<Vec<u32>>)
    ensures
        r is None <==> rows@.len() == 0,
        r matches Some(ordered) ==> {
            &&& ascending(ordered@)
            &&& forall|i: int, j: int| 0 <= i < j < ordered@.len() ==> #[trigger] ordered@[i] < #[trigger] ordered@[j]
            &&& forall|row: u32| #[trigger] ordered@.contains(row) <==> rows@.contains(row)
        },
{
    if rows.len() == 0 {
        return None;
    }
    let mut ranks: Vec<i64> = Vec::with_capacity(rows.len());
    let mut i: usize = 0;
    while i < rows.len()
        invariant
            i <= rows@.len(),
            ranks@.len() == i,
            forall|j: int| 0 <= j < i ==> #[trigger] ranks@[j] == rows@[j],
        decreases rows@.len() - i,
    {
        ranks.push(rows[i] as i64);
        i = i + 1;
    }
    let order = order_by_rank(ranks.as_slice());
    let mut ordered: Vec<u32> = Vec::with_capacity(rows.len());
    let mut p: usize = 0;
    while p < order.len()
        invariant
            p <= order@.len(),
            ranks@.len() == rows@.len(),
            forall|j: int| 0 <= j < rows@.len() ==> #[trigger] ranks@[j] == rows@[j],
            orders_range(as_ints(ranks@), 0, rows@.len() as int, order@),
            p > 0 ==> ordered@.len() > 0 && ordered@.last() == rows@[order@[p - 1] as int],
            p == 0 ==> ordered@.len() == 0,
            ascending(ordered@),
            forall|a: int| 0 <= a < ordered@.len() ==> rows@.contains(#[trigger] ordered@[a]),
            forall|q: int| 0 <= q < p ==> ordered@.contains(rows@[#[trigger] order@[q] as int]),
        decreases order@.len() - p,
    {
        let row: u32 = rows[order[p]];
        let ghost before = ordered@;
        proof {
            if p > 0 {
                assert(precedes(as_ints(ranks@), order@[p - 1] as int, order@[p as int] as int));
            }
        }
        if ordered.len() == 0 || ordered[ordered.len() - 1] != row {
            ordered.push(row);
        }
        proof {
            assert(ordered@.last() == row && ordered@[ordered@.len() - 1] == row);
            assert forall|a: int| 0 <= a < ordered@.len() implies rows@.contains(#[trigger] ordered@[a]) by {
                if a < before.len() {
                    assert(rows@.contains(before[a]));
                } else {
                    assert(rows@[order@[p as int] as int] == row);
                }
            }
            assert forall|q: int| 0 <= q < p + 1 implies ordered@.contains(rows@[#[trigger] order@[q] as int]) by {
                if q < p {
                    let a = choose|a: int| 0 <= a < before.len() && before[a] == rows@[order@[q] as int];
                    assert(ordered@[a] == rows@[order@[q] as int]);
                }
            }
            assert forall|a: int, b: int| 0 <= a < b < ordered@.len() implies #[trigger] ordered@[a]
                < #[trigger] ordered@[b] by {
                if b < before.len() {
                    assert(before[a] < before[b]);
                } else if a < before.len() - 1 {
                    assert(before[a] < before[before.len() - 1]);
                }
            }
        }
        p = p + 1;
    }
    proof {
        assert forall|row: u32| #[trigger] ordered@.contains(row) <==> rows@.contains(row) by {
            if ordered@.contains(row) {
                let a = choose|a: int| 0 <= a < ordered@.len() && ordered@[a] == row;
                assert(rows@.contains(ordered@[a]));
            }
            if rows@.contains(row) {
                let i = choose|i: int| 0 <= i < rows@.len() && rows@[i] == row;
                assert(order@.contains(i as usize));
                let q = choose|q: int| 0 <= q < order@.len() && order@[q] == i as usize;
                assert(ordered@.contains(rows@[order@[q] as int]));
            }
        }
    }
    Some(ordered)
}

/// The position of `column` among the column names of a file: the first that
/// has its name.
pub fn column_position(names: &[String], column: &EmbeddingColumn) -> (r: Result<usize, Error>)
    ensures
        match r {
            Ok(i) => {
                &&& i < names@.len()
                &&& names@[i as int]@ == column@
                &&& forall|j: int| 0 <= j < i ==> (#[trigger] names@[j])@ != column@
            },
            Err(e) => {
                &&& e matches Error::ColumnNotFound { column: missing } && missing@ == column@
                &&& forall|j: int| 0 <= j < names@.len() ==> (#[trigger] names@[j])@ != column@
            },
        },
{
    let mut i: usize = 0;
    while i < names.len()
        invariant
            i <= names@.len(),
            forall|j: int| 0 <= j < i ==> (#[trigger] names@[j])@ != column@,
        decreases names@.len() - i,
    {
        if column.is_named(&names[i]) {
            return Ok(i);
        }
        i = i + 1;
    }
    Err(Error::ColumnNotFound { column: column.as_str().to_owned() })
}

/// Accepts a batch of embeddings, unless a row or a value is missing.
pub fn check_batch(null_rows: usize, null_values: usize) -> (r: Result<(), Error>)
    ensures
        null_rows > 0 ==> r == Err::<(), Error>(Error::NullRows),
        null_rows == 0 && null_values > 0 ==> r == Err::<(), Error>(Error::NullValues),
        null_rows == 0 && null_values == 0 ==> r is Ok,
{
    if null_rows > 0 {
        Err(Error::NullRows)
    } else if null_values > 0 {
        Err(Error::NullValues)
    } else {
        Ok(())
    }
}

/// The position of `row` in `rows`, in which it occurs but once; -1 where it does
/// not occur.
pub open spec fn position_of(rows: Seq<u32>, row: u32) -> int
    decreases rows.len(),
{
    if rows.len() == 0 {
        -1
    } else if rows.last() == row {
        rows.len() - 1
    } else {
        position_of(rows.drop_last(), row)
    }
}

/// For each of `wanted`, its position in `read`.
pub open spec fn positions(wanted: Seq<u32>, read: Seq<u32>) -> Seq<usize> {
    wanted.map_values(|row: u32| position_of(read, row) as usize)
}

pub proof fn lemma_position_of(rows: Seq<u32>, row: u32)
    ensures
        rows.contains(row) ==> 0 <= position_of(rows, row) < rows.len() && rows[position_of(rows, row)] == row,
        !rows.contains(row) ==> position_of(rows, row) == -1,
        -1 <= position_of(rows, row) < rows.len(),
    decreases rows.len(),
{
    if rows.len() > 0 {
        let front = rows.drop_last();
        lemma_position_of(front, row);
        if rows.last() == row {
            assert(rows.contains(row));
        } else {
            if rows.contains(row) {
                let i = choose|i: int| 0 <= i < rows.len() && rows[i] == row;
                assert(front[i] == row);
                assert(front.contains(row));
            }
            if front.contains(row) {
                let i = choose|i: int| 0 <= i < front.len() && front[i] == row;
                assert(rows[i] == row);
            }
        }
    }
}

/// Puts the embeddings of `read` rows into the order in which they are `wanted`,
/// unless their length is not that of the rows.
pub fn restore_order(wanted: &[u32], read: &[u32], embeddings: &[Scalar], dim: EmbeddingDim) -> (r: Result<
    Vec<Scalar>,
    Error,
>)
    requires
        ascending(read@),
        forall|i: int| 0 <= i < wanted@.len() ==> read@.contains(#[trigger] wanted@[i]),
        read@.len() * dim@ <= usize::MAX,
    ensures
        embeddings@.len() != read@.len() * dim@ ==> r == Err::<Vec<Scalar>, Error>(Error::SelectionMismatch),
        embeddings@.len() == read@.len() * dim@ ==> {
            &&& r is Ok
            &&& r->Ok_0@ == gathered(embeddings@, dim@ as nat, positions(wanted@, read@))
            &&& r->Ok_0@.len() == wanted@.len() * dim@
        },
{
    let width: usize = dim.as_usize();
    if embeddings.len() != read.len() * width {
        return Err(Error::SelectionMismatch);
    }
    let mut found: HashMap<u32, usize> = HashMap::new();
    let mut i: usize = 0;
    while i < read.len()
        invariant
            i <= read@.len(),
            forall|row: u32|
                found@.contains_key(row) <==> position_of(read@.take(i as int), row) >= 0,
            forall|row: u32|
                #[trigger] found@.contains_key(row) ==> found@[row] == position_of(read@.take(i as int), row),
        decreases read@.len() - i,
    {
        found.insert(read[i], i);
        proof {
            let longer = read@.take(i + 1);
            assert(longer.drop_last() =~= read@.take(i as int));
            assert forall|row: u32| found@.contains_key(row) <==> position_of(longer, row) >= 0 by {}
        }
        i = i + 1;
    }
    assert(read@.take(i as int) =~= read@);
    let mut order: Vec<usize> = Vec::with_capacity(wanted.len());
    let mut j: usize = 0;
    while j < wanted.len()
        invariant
            j <= wanted@.len(),
            forall|i: int| 0 <= i < wanted@.len() ==> read@.contains(#[trigger] wanted@[i]),
            forall|row: u32| found@.contains_key(row) <==> position_of(read@, row) >= 0,
            forall|row: u32| #[trigger] found@.contains_key(row) ==> found@[row] == position_of(read@, row),
            order@.len() == j,
            forall|q: int|
                0 <= q < j ==> #[trigger] order@[q] == positions(wanted@, read@)[q] && order@[q] < read@.len(),
        decreases wanted@.len() - j,
    {
        proof {
            lemma_position_of(read@, wanted@[j as int]);
            assert(found@.contains_key(wanted@[j as int]));
        }
        let position: usize = match found.get(&wanted[j]) {
            Some(position) => *position,
            None => vstd::pervasive::unreached(),
        };
        order.push(position);
        j = j + 1;
    }
    proof {
        assert(order@ =~= positions(wanted@, read@));
        assert forall|q: int| 0 <= q < order@.len() implies (#[trigger] order@[q] + 1) * width <= embeddings@.len() by {
            lemma_row_within(read@.len() as int, width as int, order@[q] as int);
        }
    }
    Ok(gather(embeddings, width, order.as_slice()))
}

/// The rows, as positions in the file.
pub open spec fn row_positions(rows: Seq<u32>) -> Seq<usize> {
    rows.map_values(|row: u32| row as usize)
}

proof fn lemma_restored(table: Seq<Scalar>, dim: nat, wanted: Seq<u32>, read: Seq<u32>)
    requires
        read.len() <= usize::MAX,
        forall|j: int| 0 <= j < read.len() ==> (#[trigger] read[j] + 1) * dim <= table.len() && read[j] <= usize::MAX,
        forall|i: int| 0 <= i < wanted.len() ==> read.contains(#[trigger] wanted[i]),
    ensures
        gathered(gathered(table, dim, row_positions(read)), dim, positions(wanted, read)) == gathered(
            table,
            dim,
            row_positions(wanted),
        ),
    decreases wanted.len(),
{
    let all = gathered(table, dim, row_positions(read));
    assert forall|j: int| 0 <= j < row_positions(read).len() implies (#[trigger] row_positions(read)[j] + 1) * dim
        <= table.len() by {
        assert(row_positions(read)[j] == read[j]);
    }
    if wanted.len() > 0 {
        let front = wanted.drop_last();
        assert forall|i: int| 0 <= i < front.len() implies read.contains(#[trigger] front[i]) by {
            assert(front[i] == wanted[i]);
        }
        lemma_restored(table, dim, front, read);
        let row = wanted.last();
        assert(read.contains(wanted[wanted.len() - 1]));
        lemma_position_of(read, row);
        let at = position_of(read, row);
        crate::matrix::lemma_gathered_row(table, dim, row_positions(read), at);
        assert(positions(wanted, read).drop_last() =~= positions(front, read));
        assert(row_positions(wanted).drop_last() =~= row_positions(front));
        assert(read[at] == row);
    } else {
        assert(positions(wanted, read) =~= Seq::<usize>::empty());
        assert(row_positions(wanted) =~= Seq::<usize>::empty());
    }
}

/// What the selection of the rows to read takes of a column, put back into the
/// order in which rows were asked for, is the embedding of each; of a row asked
/// for twice, twice.
pub proof fn law_read_rows_are_those_wanted(
    column: Seq<Scalar>,
    dim: nat,
    total_rows: nat,
    wanted: Seq<u32>,
    read: Seq<u32>,
)
    requires
        total_rows <= usize::MAX,
        column.len() == total_rows * dim,
        forall|i: int| 0 <= i < wanted.len() ==> (#[trigger] wanted[i]) < total_rows,
        ascending(read),
        forall|row: u32| #[trigger] read.contains(row) <==> wanted.contains(row),
    ensures
        ({
            let taken = gathered(column, dim, selected(runs_mask(runs_for(read, total_rows as int))));
            &&& taken.len() == read.len() * dim
            &&& gathered(taken, dim, positions(wanted, read)) == gathered(column, dim, row_positions(wanted))
        }),
{
    assert forall|j: int| 0 <= j < read.len() implies (#[trigger] read[j]) < total_rows && (read[j] + 1) * dim
        <= column.len() by {
        assert(read.contains(read[j]));
        let i = choose|i: int| 0 <= i < wanted.len() && wanted[i] == read[j];
        assert(wanted[i] < total_rows);
        lemma_row_within(total_rows as int, dim as int, read[j] as int);
    }
    assert forall|i: int| 0 <= i < wanted.len() implies read.contains(#[trigger] wanted[i]) by {
        assert(wanted.contains(wanted[i]));
    }
    lemma_ascending_len(read, total_rows as int);
    law_selection_is_exact(read, total_rows);
    assert forall|j: int| 0 <= j < row_positions(read).len() implies (#[trigger] row_positions(read)[j] + 1) * dim
        <= column.len() by {
        assert(row_positions(read)[j] == read[j]);
    }
    crate::matrix::lemma_gathered_len(column, dim, row_positions(read));
    lemma_restored(column, dim, wanted, read);
}

/// There are no more rows below `bound`, each but once, than `bound`.
proof fn lemma_ascending_len(rows: Seq<u32>, bound: int)
    requires
        ascending(rows),
        bound >= 0,
        forall|i: int| 0 <= i < rows.len() ==> (#[trigger] rows[i]) < bound,
    ensures
        rows.len() <= bound,
    decreases rows.len(),
{
    if rows.len() > 0 {
        let front = rows.drop_last();
        let last = rows.last() as int;
        assert forall|i: int| 0 <= i < front.len() implies (#[trigger] front[i]) < last by {
            assert(rows[i] < rows[rows.len() - 1]);
        }
        lemma_ascending_len(front, last);
    }
}

} // verus!
