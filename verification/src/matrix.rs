//! Copying rows between row-major matrices.

use crate::embeddings::{lemma_row_within, row, row_of};
use crate::scalar::{zero, Scalar};
use vstd::prelude::*;

verus! {

/// The position of column `d` of row `i` in a row-major matrix of width `dim`.
pub open spec fn cell(dim: nat, i: int, d: int) -> int {
    i * dim + d
}

/// The cells of a matrix of `rows` rows lie within it, row after row.
pub proof fn lemma_cell(rows: int, dim: nat, i: int, d: int)
    requires
        0 <= i < rows,
        0 <= d < dim,
    ensures
        0 <= i * dim <= cell(dim, i, d) < (i + 1) * dim <= rows * dim,
{
    lemma_row_within(rows, dim as int, i);
}

/// Different cells have different positions.
pub proof fn lemma_cells_differ(dim: nat, i: int, d: int, j: int, e: int)
    requires
        0 <= d < dim,
        0 <= e < dim,
        cell(dim, i, d) == cell(dim, j, e),
    ensures
        i == j,
        d == e,
{
    assert(i == j && d == e) by (nonlinear_arith)
        requires
            0 <= d < dim,
            0 <= e < dim,
            i * dim + d == j * dim + e,
    ;
}

/// Every position within a matrix is a cell of it.
pub proof fn lemma_position_is_cell(rows: int, dim: nat, p: int) -> (c: (int, int))
    requires
        dim > 0,
        0 <= p < rows * dim,
    ensures
        0 <= c.0 < rows,
        0 <= c.1 < dim,
        p == cell(dim, c.0, c.1),
{
    let i = p / (dim as int);
    let d = p % (dim as int);
    vstd::arithmetic::div_mod::lemma_fundamental_div_mod(p, dim as int);
    vstd::arithmetic::div_mod::lemma_div_pos_is_pos(p, dim as int);
    assert(dim * i == i * dim) by (nonlinear_arith);
    assert(i < rows) by (nonlinear_arith)
        requires
            i * dim <= p,
            p < rows * dim,
            dim > 0,
    ;
    (i, d)
}

/// `rows` of `data`, one after the other.
pub open spec fn gathered(data: Seq<Scalar>, dim: nat, rows: Seq<usize>) -> Seq<Scalar>
    decreases rows.len(),
{
    if rows.len() == 0 {
        Seq::empty()
    } else {
        gathered(data, dim, rows.drop_last()) + row(data, dim, rows.last() as int)
    }
}

/// Copies `rows` of `data`, one after the other.
pub fn gather(data: &[Scalar], dim: usize, rows: &[usize]) -> (r: Vec<Scalar>)
    requires
        forall|i: int| 0 <= i < rows@.len() ==> (#[trigger] rows@[i] + 1) * dim <= data@.len(),
    ensures
        r@ == gathered(data@, dim as nat, rows@),
        r@.len() == rows@.len() * dim,
{
    let mut out: Vec<Scalar> = Vec::new();
    let mut i: usize = 0;
    assert(0 * dim == 0) by (nonlinear_arith);
    while i < rows.len()
        invariant
            i <= rows@.len(),
            forall|i: int| 0 <= i < rows@.len() ==> (#[trigger] rows@[i] + 1) * dim <= data@.len(),
            out@ == gathered(data@, dim as nat, rows@.take(i as int)),
            out@.len() == i * dim,
        decreases rows@.len() - i,
    {
        let next = row_of(data, dim, rows[i]);
        let ghost before = out@;
        out.extend_from_slice(next);
        proof {
            assert(out@ =~= before + next@);
            assert(rows@.take(i + 1).drop_last() =~= rows@.take(i as int));
            assert((i + 1) * dim == i * dim + dim) by (nonlinear_arith);
        }
        i = i + 1;
    }
    assert(rows@.take(i as int) =~= rows@);
    out
}

/// Row `i` of gathered rows is the `i`-th of them.
pub proof fn lemma_gathered_row(data: Seq<Scalar>, dim: nat, rows: Seq<usize>, i: int)
    requires
        forall|j: int| 0 <= j < rows.len() ==> (#[trigger] rows[j] + 1) * dim <= data.len(),
        0 <= i < rows.len(),
    ensures
        gathered(data, dim, rows).len() == rows.len() * dim,
        row(gathered(data, dim, rows), dim, i) == row(data, dim, rows[i] as int),
    decreases rows.len(),
{
    let all = gathered(data, dim, rows);
    let shorter = rows.drop_last();
    let front = gathered(data, dim, shorter);
    let n = rows.len() as int;
    lemma_gathered_len(data, dim, rows);
    lemma_gathered_len(data, dim, shorter);
    lemma_row_within(n, dim as int, i);
    lemma_row_within(n, dim as int, n - 1);
    assert((rows.last() + 1) * dim == rows.last() * dim + dim) by (nonlinear_arith);
    if i < n - 1 {
        lemma_gathered_row(data, dim, shorter, i);
        lemma_row_within(n - 1, dim as int, i);
        assert(row(all, dim, i) =~= row(front, dim, i));
    } else {
        assert(row(all, dim, i) =~= row(data, dim, rows.last() as int));
    }
}

pub proof fn lemma_gathered_len(data: Seq<Scalar>, dim: nat, rows: Seq<usize>)
    requires
        forall|j: int| 0 <= j < rows.len() ==> (#[trigger] rows[j] + 1) * dim <= data.len(),
    ensures
        gathered(data, dim, rows).len() == rows.len() * dim,
    decreases rows.len(),
{
    assert(0 * dim == 0) by (nonlinear_arith);
    if rows.len() > 0 {
        let shorter = rows.drop_last();
        lemma_gathered_len(data, dim, shorter);
        assert((rows.last() + 1) * dim == rows.last() * dim + dim) by (nonlinear_arith);
        assert(rows.last() * dim >= 0) by (nonlinear_arith);
        assert((rows.len() - 1) * dim + dim == rows.len() * dim) by (nonlinear_arith);
    }
}

/// `len` zeros.
pub open spec fn zeros(len: nat) -> Seq<Scalar> {
    Seq::new(len, |p: int| zero())
}

/// A vector of `len` zeros.
pub fn zero_vector(len: usize) -> (r: Vec<Scalar>)
    ensures
        r@ == zeros(len as nat),
{
    let mut out: Vec<Scalar> = Vec::with_capacity(len);
    let mut i: usize = 0;
    while i < len
        invariant
            i <= len,
            out@ == zeros(i as nat),
        decreases len - i,
    {
        out.push(zero());
        assert(out@ =~= zeros((i + 1) as nat));
        i = i + 1;
    }
    out
}

/// `matrix` with its row `i` replaced by `values`.
pub open spec fn with_row(matrix: Seq<Scalar>, dim: nat, i: int, values: Seq<Scalar>) -> Seq<Scalar> {
    Seq::new(
        matrix.len(),
        |p: int|
            if i * dim <= p < (i + 1) * dim {
                values[p - i * dim]
            } else {
                matrix[p]
            },
    )
}

/// Replaces row `i` of `matrix` by `values`.
pub fn set_row(matrix: &mut Vec<Scalar>, dim: usize, i: usize, values: &[Scalar])
    requires
        values@.len() == dim,
        (i + 1) * dim <= old(matrix)@.len(),
    ensures
        final(matrix)@ == with_row(old(matrix)@, dim as nat, i as int, values@),
{
    let ghost before = matrix@;
    proof {
        lemma_row_within(i + 1, dim as int, i as int);
    }
    let len: usize = matrix.len();
    let start: usize = i * dim;
    let mut d: usize = 0;
    while d < dim
        invariant
            d <= dim,
            values@.len() == dim,
            start == i * dim,
            len == matrix@.len(),
            start + dim <= len,
            matrix@.len() == before.len(),
            forall|p: int|
                0 <= p < matrix@.len() ==> #[trigger] matrix@[p] == if start <= p < start + d {
                    values@[p - start]
                } else {
                    before[p]
                },
        decreases dim - d,
    {
        matrix.set(start + d, values[d]);
        d = d + 1;
    }
    assert(matrix@ =~= with_row(before, dim as nat, i as int, values@));
}

/// Replacing a row leaves the others as they are.
pub proof fn lemma_with_row(matrix: Seq<Scalar>, dim: nat, i: int, values: Seq<Scalar>, j: int)
    requires
        values.len() == dim,
        0 <= i,
        0 <= j,
        (i + 1) * dim <= matrix.len(),
        (j + 1) * dim <= matrix.len(),
    ensures
        row(with_row(matrix, dim, i, values), dim, j) == if i == j {
            values
        } else {
            row(matrix, dim, j)
        },
{
    lemma_row_within(i + 1, dim as int, i);
    lemma_row_within(j + 1, dim as int, j);
    let replaced = row(with_row(matrix, dim, i, values), dim, j);
    if i == j {
        assert(replaced =~= values);
    } else {
        if i < j {
            assert((i + 1) * dim <= j * dim) by (nonlinear_arith)
                requires
                    i + 1 <= j,
            ;
        } else {
            assert((j + 1) * dim <= i * dim) by (nonlinear_arith)
                requires
                    j + 1 <= i,
            ;
        }
        assert(replaced =~= row(matrix, dim, j));
    }
}

} // verus!
