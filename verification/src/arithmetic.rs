//! The arithmetic that callers hand in, and what can be said of its results.
//!
//! The library decides by comparing scalars but never computes with them. Each
//! operation is a function of the caller's. A contract says which calls were
//! made and what was done with the values that came back, whatever they were.

use crate::embeddings::row;
use crate::scalar::{zero, Scalar};
use vstd::prelude::*;

verus! {

/// The operations that clustering needs.
pub struct Arithmetic<M, A, T, V> {
    /// The distances between one vector and each row of a matrix of that width.
    pub measure: M,
    /// The sum of two scalars.
    pub plus: A,
    /// The scalar at a random fraction, given by 32 random bits, of a scalar.
    pub fraction: T,
    /// A scalar divided by a count that is not zero.
    pub divide: V,
}

/// Whether `measure` can be asked for the distances between any vector and any
/// matrix of its width, and gives one for each row.
pub open spec fn measures<M: Fn(&[Scalar], &[Scalar]) -> Vec<Scalar>>(measure: M) -> bool {
    &&& forall|v: &[Scalar], m: &[Scalar]|
        v@.len() > 0 && m@.len() % v@.len() == 0 ==> #[trigger] call_requires(measure, (v, m))
    &&& forall|v: &[Scalar], m: &[Scalar], d: Vec<Scalar>|
        v@.len() > 0 && m@.len() % v@.len() == 0 && #[trigger] call_ensures(measure, (v, m), d) ==> d@.len()
            == m@.len() / v@.len()
}

/// Whether `distances` is what `measure` gave for `vector` and `matrix`.
pub open spec fn measured<M: Fn(&[Scalar], &[Scalar]) -> Vec<Scalar>>(
    measure: M,
    vector: Seq<Scalar>,
    matrix: Seq<Scalar>,
    distances: Seq<Scalar>,
) -> bool {
    exists|v: &[Scalar], m: &[Scalar], d: Vec<Scalar>|
        v@ == vector && m@ == matrix && d@ == distances && #[trigger] call_ensures(measure, (v, m), d)
}

/// Whether `measure` gave `distance` for `vector` and `other`, one row among those
/// of some matrix.
pub open spec fn apart<M: Fn(&[Scalar], &[Scalar]) -> Vec<Scalar>>(
    measure: M,
    vector: Seq<Scalar>,
    other: Seq<Scalar>,
    distance: Scalar,
) -> bool {
    exists|matrix: Seq<Scalar>, distances: Seq<Scalar>, i: int|
        {
            &&& #[trigger] measured(measure, vector, matrix, distances)
            &&& matrix.len() % vector.len() == 0
            &&& 0 <= i < distances.len()
            &&& other == row(matrix, vector.len(), i)
            &&& distance == #[trigger] distances[i]
        }
}

/// Whether the distance between two vectors depends on those two alone, whatever
/// else is in the matrix.
pub open spec fn row_by_row<M: Fn(&[Scalar], &[Scalar]) -> Vec<Scalar>>(measure: M) -> bool {
    forall|vector: Seq<Scalar>, other: Seq<Scalar>, x: Scalar, y: Scalar|
        {
            &&& 0 < vector.len() == other.len()
            &&& #[trigger] apart(measure, vector, other, x)
            &&& #[trigger] apart(measure, vector, other, y)
        } ==> x == y
}

/// Each of the distances that were measured is that between the vector and a row.
pub proof fn lemma_measured_apart<M: Fn(&[Scalar], &[Scalar]) -> Vec<Scalar>>(
    measure: M,
    vector: Seq<Scalar>,
    matrix: Seq<Scalar>,
    distances: Seq<Scalar>,
    i: int,
)
    requires
        measured(measure, vector, matrix, distances),
        matrix.len() % vector.len() == 0,
        0 <= i < distances.len(),
    ensures
        apart(measure, vector, row(matrix, vector.len(), i), distances[i]),
{
    assert(distances[i] == distances[i]);
}

/// Asks for the distances between `vector` and each row of `matrix`.
pub fn distances<M: Fn(&[Scalar], &[Scalar]) -> Vec<Scalar>>(
    measure: &M,
    vector: &[Scalar],
    matrix: &[Scalar],
) -> (r: Vec<Scalar>)
    requires
        measures(*measure),
        vector@.len() > 0,
        matrix@.len() % vector@.len() == 0,
    ensures
        measured(*measure, vector@, matrix@, r@),
        r@.len() == matrix@.len() / vector@.len(),
{
    measure(vector, matrix)
}

/// Whether any two scalars can be added.
pub open spec fn adds<A: Fn(Scalar, Scalar) -> Scalar>(plus: A) -> bool {
    forall|a: Scalar, b: Scalar| #[trigger] call_requires(plus, (a, b))
}

/// Whether `sums` are the running sums of `values`: zero, then each sum as
/// `plus` gave it for the sum before and the next value.
pub open spec fn running_sums<A: Fn(Scalar, Scalar) -> Scalar>(plus: A, values: Seq<Scalar>, sums: Seq<Scalar>) -> bool {
    &&& sums.len() == values.len() + 1
    &&& sums[0] == zero()
    &&& forall|i: int| 0 <= i < values.len() ==> call_ensures(plus, (sums[i], #[trigger] values[i]), sums[i + 1])
}

/// Whether `total` is a sum of `values`, added up from zero in order.
pub open spec fn summed<A: Fn(Scalar, Scalar) -> Scalar>(plus: A, values: Seq<Scalar>, total: Scalar) -> bool {
    exists|sums: Seq<Scalar>| #[trigger] running_sums(plus, values, sums) && total == sums.last()
}

pub proof fn lemma_summed_none<A: Fn(Scalar, Scalar) -> Scalar>(plus: A)
    ensures
        summed(plus, Seq::<Scalar>::empty(), zero()),
{
    assert(running_sums(plus, Seq::<Scalar>::empty(), seq![zero()]));
}

pub proof fn lemma_summed_push<A: Fn(Scalar, Scalar) -> Scalar>(
    plus: A,
    values: Seq<Scalar>,
    total: Scalar,
    value: Scalar,
    next: Scalar,
)
    requires
        summed(plus, values, total),
        call_ensures(plus, (total, value), next),
    ensures
        summed(plus, values.push(value), next),
{
    let sums = choose|sums: Seq<Scalar>| #[trigger] running_sums(plus, values, sums) && total == sums.last();
    let longer = sums.push(next);
    assert forall|i: int| 0 <= i < values.push(value).len() implies call_ensures(
        plus,
        (longer[i], #[trigger] values.push(value)[i]),
        longer[i + 1],
    ) by {
        if i < values.len() {
            assert(call_ensures(plus, (sums[i], values[i]), sums[i + 1]));
        }
    }
    assert(running_sums(plus, values.push(value), longer));
}

/// The sum of `values[from..to]`, added up from zero in order.
pub fn sum_range<A: Fn(Scalar, Scalar) -> Scalar>(plus: &A, values: &[Scalar], from: usize, to: usize) -> (r: Scalar)
    requires
        adds(*plus),
        from <= to <= values@.len(),
    ensures
        summed(*plus, values@.subrange(from as int, to as int), r),
{
    let mut total: Scalar = zero();
    let mut i: usize = from;
    proof {
        lemma_summed_none(*plus);
        assert(values@.subrange(from as int, from as int) =~= Seq::<Scalar>::empty());
    }
    while i < to
        invariant
            adds(*plus),
            from <= i <= to <= values@.len(),
            summed(*plus, values@.subrange(from as int, i as int), total),
        decreases to - i,
    {
        let value: Scalar = values[i];
        let next: Scalar = plus(total, value);
        proof {
            lemma_summed_push(*plus, values@.subrange(from as int, i as int), total, value, next);
            assert(values@.subrange(from as int, i as int).push(value) =~= values@.subrange(from as int, i + 1));
        }
        total = next;
        i = i + 1;
    }
    total
}

impl<M, A, T, V> Arithmetic<M, A, T, V> where
    M: Fn(&[Scalar], &[Scalar]) -> Vec<Scalar>,
    A: Fn(Scalar, Scalar) -> Scalar,
    T: Fn(u32, Scalar) -> Scalar,
    V: Fn(Scalar, usize) -> Scalar,
 {
    /// Whether the operations are defined wherever clustering uses them.
    pub open spec fn defined(self) -> bool {
        &&& measures(self.measure)
        &&& adds(self.plus)
        &&& forall|bits: u32, whole: Scalar| #[trigger] call_requires(self.fraction, (bits, whole))
        &&& forall|sum: Scalar, count: usize| count > 0 ==> #[trigger] call_requires(self.divide, (sum, count))
    }
}

} // verus!
