//! What a distance says of two vectors: every coordinate counts, and counts once.

use crate::arithmetic::{running_sums, summed};
use crate::distance::Squares;
use crate::scalar::{zero, Scalar};
use crate::sums::{
    adds_exactly, counts, grows, law_sums_are_exact, law_sums_are_no_less_than_each_value, lemma_total_grows,
    multiplies_exactly, numbers_of, subtracts_exactly, total,
};
use vstd::prelude::*;

verus! {

/// The squares of the differences of the numbers that `a` and `b` stand for.
pub open spec fn square_numbers(value: spec_fn(Scalar) -> Option<int>, a: Seq<Scalar>, b: Seq<Scalar>) -> Seq<int> {
    Seq::new(a.len(), |i: int| (value(a[i])->0 - value(b[i])->0) * (value(a[i])->0 - value(b[i])->0))
}

proof fn lemma_square_is_exact<S, T, A>(
    ops: Squares<S, T, A>,
    value: spec_fn(Scalar) -> Option<int>,
    limit: int,
    a: Scalar,
    b: Scalar,
    square: Scalar,
) where
    S: Fn(Scalar, Scalar) -> Scalar,
    T: Fn(Scalar, Scalar) -> Scalar,
    A: Fn(Scalar, Scalar) -> Scalar,

    requires
        subtracts_exactly(ops.minus, value, limit),
        multiplies_exactly(ops.times, value, limit),
        value(a) is Some,
        value(b) is Some,
        (value(a)->0 - value(b)->0) * (value(a)->0 - value(b)->0) <= limit,
        ops.squares(a, b, square),
    ensures
        value(square) == Some((value(a)->0 - value(b)->0) * (value(a)->0 - value(b)->0)),
        (value(a)->0 - value(b)->0) * (value(a)->0 - value(b)->0) >= 0,
{
    let x = value(a)->0 - value(b)->0;
    assert(x * x >= 0 && x <= x * x && -x <= x * x) by (nonlinear_arith);
    let d = choose|d: Scalar| #[trigger] call_ensures(ops.minus, (a, b), d) && call_ensures(ops.times, (d, d), square);
    assert(value(d) == Some(x));
}

/// One square among those of all positions is no more than their sum.
proof fn lemma_square_in_total(numbers: Seq<int>, i: int)
    requires
        0 <= i < numbers.len(),
        forall|j: int| 0 <= j < numbers.len() ==> #[trigger] numbers[j] >= 0,
    ensures
        numbers[i] <= total(numbers),
{
    let n = numbers.len() as int;
    assert(numbers.take(n) =~= numbers);
    lemma_total_grows(numbers, 0, i);
    lemma_total_grows(numbers, i + 1, n);
    assert(numbers.take(i + 1).drop_last() =~= numbers.take(i));
}

proof fn lemma_four_are_exact<S, T, A>(
    ops: Squares<S, T, A>,
    value: spec_fn(Scalar) -> Option<int>,
    limit: int,
    a: Seq<Scalar>,
    b: Seq<Scalar>,
    g: int,
    term: Scalar,
) where
    S: Fn(Scalar, Scalar) -> Scalar,
    T: Fn(Scalar, Scalar) -> Scalar,
    A: Fn(Scalar, Scalar) -> Scalar,

    requires
        adds_exactly(ops.plus, value, limit),
        subtracts_exactly(ops.minus, value, limit),
        multiplies_exactly(ops.times, value, limit),
        a.len() == b.len(),
        0 <= g,
        4 * g + 4 <= a.len(),
        forall|i: int|
            0 <= i < a.len() ==> value(#[trigger] a[i]) is Some && value(b[i]) is Some && square_numbers(
                value,
                a,
                b,
            )[i] >= 0,
        square_numbers(value, a, b)[4 * g] + square_numbers(value, a, b)[4 * g + 1] + square_numbers(
            value,
            a,
            b,
        )[4 * g + 2] + square_numbers(value, a, b)[4 * g + 3] <= limit,
        ops.sums_four(a.subrange(4 * g, 4 * g + 4), b.subrange(4 * g, 4 * g + 4), term),
    ensures
        value(term) == Some(
            square_numbers(value, a, b)[4 * g] + square_numbers(value, a, b)[4 * g + 1] + square_numbers(
                value,
                a,
                b,
            )[4 * g + 2] + square_numbers(value, a, b)[4 * g + 3],
        ),
{
    let numbers = square_numbers(value, a, b);
    let fa = a.subrange(4 * g, 4 * g + 4);
    let fb = b.subrange(4 * g, 4 * g + 4);
    let (s, first, second) = choose|s: Seq<Scalar>, first: Scalar, second: Scalar|
        {
            &&& s.len() == 4
            &&& forall|i: int| 0 <= i < 4 ==> ops.squares(fa[i], fb[i], #[trigger] s[i])
            &&& #[trigger] call_ensures(ops.plus, (s[0], s[1]), first)
            &&& #[trigger] call_ensures(ops.plus, (first, s[2]), second)
            &&& call_ensures(ops.plus, (second, s[3]), term)
        };
    let n0 = numbers[4 * g];
    let n1 = numbers[4 * g + 1];
    let n2 = numbers[4 * g + 2];
    let n3 = numbers[4 * g + 3];
    assert(value(a[4 * g]) is Some && value(a[4 * g + 1]) is Some && value(a[4 * g + 2]) is Some && value(
        a[4 * g + 3],
    ) is Some);
    assert(ops.squares(fa[0], fb[0], s[0]) && ops.squares(fa[1], fb[1], s[1]) && ops.squares(fa[2], fb[2], s[2])
        && ops.squares(fa[3], fb[3], s[3]));
    lemma_square_is_exact(ops, value, limit, a[4 * g], b[4 * g], s[0]);
    lemma_square_is_exact(ops, value, limit, a[4 * g + 1], b[4 * g + 1], s[1]);
    lemma_square_is_exact(ops, value, limit, a[4 * g + 2], b[4 * g + 2], s[2]);
    lemma_square_is_exact(ops, value, limit, a[4 * g + 3], b[4 * g + 3], s[3]);
    assert(value(s[0]) == Some(n0) && value(s[1]) == Some(n1) && value(s[2]) == Some(n2) && value(s[3]) == Some(n3));
    assert(value(first) == Some(n0 + n1));
    assert(value(second) == Some(n0 + n1 + n2));
}

/// Four numbers more.
proof fn lemma_total_of_four(numbers: Seq<int>, p: int)
    requires
        0 <= p,
        p + 4 <= numbers.len(),
    ensures
        total(numbers.take(p + 4)) == total(numbers.take(p)) + (numbers[p] + numbers[p + 1] + numbers[p + 2] + numbers[p
            + 3]),
{
    assert(numbers.take(p + 4).drop_last() =~= numbers.take(p + 3));
    assert(numbers.take(p + 3).drop_last() =~= numbers.take(p + 2));
    assert(numbers.take(p + 2).drop_last() =~= numbers.take(p + 1));
    assert(numbers.take(p + 1).drop_last() =~= numbers.take(p));
    reveal_with_fuel(total, 5);
}

/// The first `t` terms of a distance come to the squares at the positions they
/// are made of.
proof fn lemma_terms_are_exact<S, T, A>(
    ops: Squares<S, T, A>,
    value: spec_fn(Scalar) -> Option<int>,
    limit: int,
    a: Seq<Scalar>,
    b: Seq<Scalar>,
    terms: Seq<Scalar>,
    t: int,
) where
    S: Fn(Scalar, Scalar) -> Scalar,
    T: Fn(Scalar, Scalar) -> Scalar,
    A: Fn(Scalar, Scalar) -> Scalar,

    requires
        adds_exactly(ops.plus, value, limit),
        subtracts_exactly(ops.minus, value, limit),
        multiplies_exactly(ops.times, value, limit),
        a.len() == b.len(),
        forall|i: int|
            0 <= i < a.len() ==> value(#[trigger] a[i]) is Some && value(b[i]) is Some && square_numbers(
                value,
                a,
                b,
            )[i] >= 0,
        total(square_numbers(value, a, b)) <= limit,
        ops.terms_to(a, b, a.len() as int, terms),
        0 <= t <= terms.len(),
    ensures
        counts(value, terms.take(t)),
        ({
            let done = a.len() as int / 4;
            let position = if t <= done {
                4 * t
            } else {
                4 * done + (t - done)
            };
            &&& position <= a.len()
            &&& total(numbers_of(value, terms.take(t))) == total(square_numbers(value, a, b).take(position))
        }),
    decreases t,
{
    let numbers = square_numbers(value, a, b);
    let n = a.len() as int;
    let done = n / 4;
    let some = terms.take(t);
    assert forall|j: int| 0 <= j < numbers.len() implies #[trigger] numbers[j] >= 0 by {
        assert(value(a[j]) is Some);
    }
    assert(numbers.take(n) =~= numbers);
    if t == 0 {
        assert(numbers_of(value, some) =~= Seq::<int>::empty());
        assert(numbers.take(0) =~= Seq::<int>::empty());
    } else {
        lemma_terms_are_exact(ops, value, limit, a, b, terms, t - 1);
        let fewer = terms.take(t - 1);
        let term = terms[t - 1];
        assert(numbers_of(value, some).drop_last() =~= numbers_of(value, fewer));
        if t <= done {
            let g = t - 1;
            lemma_total_of_four(numbers, 4 * g);
            lemma_total_grows(numbers, 0, 4 * g);
            lemma_total_grows(numbers, 4 * g + 4, n);
            assert(ops.sums_four(a.subrange(4 * g, 4 * g + 4), b.subrange(4 * g, 4 * g + 4), terms[g]));
            lemma_four_are_exact(ops, value, limit, a, b, g, term);
        } else {
            let p = 4 * done + (t - 1 - done);
            assert(ops.squares(a[p], b[p], terms[t - 1]));
            assert(value(a[p]) is Some);
            lemma_square_in_total(numbers, p);
            lemma_square_is_exact(ops, value, limit, a[p], b[p], term);
            assert(numbers.take(p + 1).drop_last() =~= numbers.take(p));
        }
        assert forall|i: int| 0 <= i < some.len() implies value(#[trigger] some[i]) is Some && value(some[i])->0
            >= 0 by {
            if i < t - 1 {
                assert(some[i] == fewer[i]);
            }
        }
    }
}

impl<S, T, A> Squares<S, T, A> where
    S: Fn(Scalar, Scalar) -> Scalar,
    T: Fn(Scalar, Scalar) -> Scalar,
    A: Fn(Scalar, Scalar) -> Scalar,
 {
    /// The distance between vectors of whole numbers is the sum of the squares of
    /// their differences over all coordinates, however many there are.
    pub proof fn law_distance_is_the_sum_over_all_coordinates(
        self,
        value: spec_fn(Scalar) -> Option<int>,
        limit: int,
        a: Seq<Scalar>,
        b: Seq<Scalar>,
        distance: Scalar,
    )
        requires
            adds_exactly(self.plus, value, limit),
            subtracts_exactly(self.minus, value, limit),
            multiplies_exactly(self.times, value, limit),
            a.len() == b.len(),
            forall|i: int| 0 <= i < a.len() ==> value(#[trigger] a[i]) is Some && value(b[i]) is Some,
            total(
                Seq::new(a.len(), |i: int| (value(a[i])->0 - value(b[i])->0) * (value(a[i])->0 - value(b[i])->0)),
            ) <= limit,
            self.distances(a, b, distance),
        ensures
            value(distance) == Some(
                total(
                    Seq::new(a.len(), |i: int| (value(a[i])->0 - value(b[i])->0) * (value(a[i])->0 - value(b[i])->0)),
                ),
            ),
    {
        let numbers = square_numbers(value, a, b);
        let n = a.len() as int;
        assert(Seq::new(a.len(), |i: int| (value(a[i])->0 - value(b[i])->0) * (value(a[i])->0 - value(b[i])->0))
            =~= numbers);
        let terms = choose|terms: Seq<Scalar>| #[trigger]
            self.terms_to(a, b, n, terms) && summed(self.plus, terms, distance);
        assert forall|i: int| 0 <= i < a.len() implies value(#[trigger] a[i]) is Some && value(b[i]) is Some
            && numbers[i] >= 0 by {
            let x = value(a[i])->0 - value(b[i])->0;
            assert(x * x >= 0) by (nonlinear_arith);
        }
        lemma_terms_are_exact(self, value, limit, a, b, terms, terms.len() as int);
        assert(terms.take(terms.len() as int) =~= terms);
        assert(numbers.take(n) =~= numbers);
        law_sums_are_exact(self.plus, value, limit, terms, distance);
    }

    /// The distance between vectors of whole numbers is zero only where they agree in
    /// every coordinate.
    pub proof fn law_only_equal_vectors_are_at_no_distance(
        self,
        value: spec_fn(Scalar) -> Option<int>,
        limit: int,
        a: Seq<Scalar>,
        b: Seq<Scalar>,
        distance: Scalar,
    )
        requires
            adds_exactly(self.plus, value, limit),
            subtracts_exactly(self.minus, value, limit),
            multiplies_exactly(self.times, value, limit),
            a.len() == b.len(),
            forall|i: int| 0 <= i < a.len() ==> value(#[trigger] a[i]) is Some && value(b[i]) is Some,
            total(
                Seq::new(a.len(), |i: int| (value(a[i])->0 - value(b[i])->0) * (value(a[i])->0 - value(b[i])->0)),
            ) <= limit,
            self.distances(a, b, distance),
        ensures
            value(distance) == Some(0int) <==> forall|i: int|
                0 <= i < a.len() ==> value(#[trigger] a[i]) == value(b[i]),
    {
        let numbers = square_numbers(value, a, b);
        assert(Seq::new(a.len(), |i: int| (value(a[i])->0 - value(b[i])->0) * (value(a[i])->0 - value(b[i])->0))
            =~= numbers);
        self.law_distance_is_the_sum_over_all_coordinates(value, limit, a, b, distance);
        assert forall|i: int| 0 <= i < numbers.len() implies #[trigger] numbers[i] >= 0 && (numbers[i] == 0 <==> value(
            a[i],
        )->0 == value(b[i])->0) by {
            let x = value(a[i])->0 - value(b[i])->0;
            assert(x * x >= 0 && (x * x == 0 <==> x == 0)) by (nonlinear_arith);
        }
        if value(distance) == Some(0int) {
            assert forall|i: int| 0 <= i < a.len() implies value(#[trigger] a[i]) == value(b[i]) by {
                lemma_square_in_total(numbers, i);
                assert(numbers[i] >= 0);
            }
        }
        if forall|i: int| 0 <= i < a.len() ==> value(#[trigger] a[i]) == value(b[i]) {
            assert forall|i: int| 0 <= i < numbers.len() implies #[trigger] numbers[i] == 0 by {
                assert(value(a[i]) == value(b[i]));
            }
            lemma_total_of_zeros(numbers);
        }
    }

    /// The distance between vectors is no less than the square of their difference in
    /// any one coordinate, where all those squares are numbers of at least zero.
    pub proof fn law_each_coordinate_counts(self, a: Seq<Scalar>, b: Seq<Scalar>, distance: Scalar, i: int)
        requires
            grows(self.plus),
            a.len() == b.len(),
            forall|j: int, d: Scalar, square: Scalar|
                0 <= j < a.len() && #[trigger] call_ensures(self.minus, (a[j], b[j]), d) && #[trigger] call_ensures(
                    self.times,
                    (d, d),
                    square,
                ) ==> square.ge(zero()),
            self.distances(a, b, distance),
            0 <= i < a.len(),
        ensures
            exists|d: Scalar, square: Scalar|
                {
                    &&& #[trigger] call_ensures(self.minus, (a[i], b[i]), d)
                    &&& #[trigger] call_ensures(self.times, (d, d), square)
                    &&& distance.ge(square)
                },
    {
        let n = a.len() as int;
        let done = n / 4;
        let terms = choose|terms: Seq<Scalar>| #[trigger]
            self.terms_to(a, b, n, terms) && summed(self.plus, terms, distance);
        assert forall|t: int| 0 <= t < terms.len() implies (#[trigger] terms[t]).ge(zero()) by {
            if t < done {
                assert(self.sums_four(a.subrange(4 * t, 4 * t + 4), b.subrange(4 * t, 4 * t + 4), terms[t]));
                let _square = self.lemma_four_cover(a, b, t, terms[t], 0);
            } else {
                let p = 4 * done + (t - done);
                assert(self.squares(a[p], b[p], terms[t]));
            }
        }
        law_sums_are_no_less_than_each_value(self.plus, terms, distance);
        let t = if i < 4 * done {
            i / 4
        } else {
            done + (i - 4 * done)
        };
        let square = if i < 4 * done {
            assert(self.sums_four(a.subrange(4 * t, 4 * t + 4), b.subrange(4 * t, 4 * t + 4), terms[t]));
            self.lemma_four_cover(a, b, t, terms[t], i % 4)
        } else {
            assert(self.squares(a[4 * done + (t - done)], b[4 * done + (t - done)], terms[t]));
            terms[t]
        };
        assert(self.squares(a[i], b[i], square));
        assert(square.ge(zero()));
        assert(terms[t].ge(square));
        assert(distance.ge(terms[t]));
        let d = choose|d: Scalar| #[trigger]
            call_ensures(self.minus, (a[i], b[i]), d) && call_ensures(self.times, (d, d), square);
        assert(call_ensures(self.minus, (a[i], b[i]), d));
    }

    /// A NaN in any one coordinate of either vector makes the distance a NaN, where
    /// the operations give a NaN for one.
    pub proof fn law_a_nan_in_any_coordinate_shows(self, a: Seq<Scalar>, b: Seq<Scalar>, distance: Scalar, i: int)
        requires
            forall|x: Scalar, y: Scalar, z: Scalar|
                (x.nan() || y.nan()) && #[trigger] call_ensures(self.minus, (x, y), z) ==> z.nan(),
            forall|x: Scalar, y: Scalar, z: Scalar|
                (x.nan() || y.nan()) && #[trigger] call_ensures(self.times, (x, y), z) ==> z.nan(),
            forall|x: Scalar, y: Scalar, z: Scalar|
                (x.nan() || y.nan()) && #[trigger] call_ensures(self.plus, (x, y), z) ==> z.nan(),
            a.len() == b.len(),
            self.distances(a, b, distance),
            0 <= i < a.len(),
            a[i].nan() || b[i].nan(),
        ensures
            distance.nan(),
    {
        let n = a.len() as int;
        let done = n / 4;
        let terms = choose|terms: Seq<Scalar>| #[trigger]
            self.terms_to(a, b, n, terms) && summed(self.plus, terms, distance);
        let t = if i < 4 * done {
            i / 4
        } else {
            done + (i - 4 * done)
        };
        if i < 4 * done {
            let fa = a.subrange(4 * t, 4 * t + 4);
            let fb = b.subrange(4 * t, 4 * t + 4);
            assert(self.sums_four(fa, fb, terms[t]));
            let (s, first, second) = choose|s: Seq<Scalar>, first: Scalar, second: Scalar|
                {
                    &&& s.len() == 4
                    &&& forall|j: int| 0 <= j < 4 ==> self.squares(fa[j], fb[j], #[trigger] s[j])
                    &&& #[trigger] call_ensures(self.plus, (s[0], s[1]), first)
                    &&& #[trigger] call_ensures(self.plus, (first, s[2]), second)
                    &&& call_ensures(self.plus, (second, s[3]), terms[t])
                };
            let j = i - 4 * t;
            assert(fa[j] == a[i] && fb[j] == b[i]);
            assert(self.squares(fa[j], fb[j], s[j]));
            assert(s[j].nan());
            assert(j == 0 || j == 1 || j == 2 || j == 3);
        } else {
            assert(self.squares(a[4 * done + (t - done)], b[4 * done + (t - done)], terms[t]));
        }
        assert(terms[t].nan());
        let sums = choose|sums: Seq<Scalar>| #[trigger]
            running_sums(self.plus, terms, sums) && distance == sums.last();
        self.lemma_nan_stays(terms, sums, t, terms.len() as int);
    }

    proof fn lemma_nan_stays(self, terms: Seq<Scalar>, sums: Seq<Scalar>, t: int, upto: int)
        requires
            forall|x: Scalar, y: Scalar, z: Scalar|
                (x.nan() || y.nan()) && #[trigger] call_ensures(self.plus, (x, y), z) ==> z.nan(),
            running_sums(self.plus, terms, sums),
            0 <= t < upto <= terms.len(),
            terms[t].nan(),
        ensures
            sums[upto].nan(),
        decreases upto,
    {
        assert(call_ensures(self.plus, (sums[upto - 1], terms[upto - 1]), sums[upto - 1 + 1]));
        if t < upto - 1 {
            self.lemma_nan_stays(terms, sums, t, upto - 1);
        }
    }

    proof fn lemma_four_cover(self, a: Seq<Scalar>, b: Seq<Scalar>, g: int, term: Scalar, i: int) -> (square: Scalar)
        requires
            grows(self.plus),
            a.len() == b.len(),
            forall|j: int, d: Scalar, square: Scalar|
                0 <= j < a.len() && #[trigger] call_ensures(self.minus, (a[j], b[j]), d) && #[trigger] call_ensures(
                    self.times,
                    (d, d),
                    square,
                ) ==> square.ge(zero()),
            0 <= g < a.len() as int / 4,
            self.sums_four(a.subrange(4 * g, 4 * g + 4), b.subrange(4 * g, 4 * g + 4), term),
            0 <= i < 4,
        ensures
            self.squares(a[4 * g + i], b[4 * g + i], square),
            term.ge(square),
            term.ge(zero()),
    {
        let fa = a.subrange(4 * g, 4 * g + 4);
        let fb = b.subrange(4 * g, 4 * g + 4);
        let (s, first, second) = choose|s: Seq<Scalar>, first: Scalar, second: Scalar|
            {
                &&& s.len() == 4
                &&& forall|i: int| 0 <= i < 4 ==> self.squares(fa[i], fb[i], #[trigger] s[i])
                &&& #[trigger] call_ensures(self.plus, (s[0], s[1]), first)
                &&& #[trigger] call_ensures(self.plus, (first, s[2]), second)
                &&& call_ensures(self.plus, (second, s[3]), term)
            };
        assert forall|j: int| 0 <= j < 4 implies (#[trigger] s[j]).ge(zero()) && self.squares(
            a[4 * g + j],
            b[4 * g + j],
            s[j],
        ) by {
            assert(fa[j] == a[4 * g + j] && fb[j] == b[4 * g + j]);
            assert(self.squares(fa[j], fb[j], s[j]));
        }
        assert(first.ge(s[0]) && first.ge(s[1]));
        assert(second.ge(first) && second.ge(s[2]));
        assert(term.ge(second) && term.ge(s[3]));
        s[i]
    }
}

proof fn lemma_total_of_zeros(numbers: Seq<int>)
    requires
        forall|i: int| 0 <= i < numbers.len() ==> #[trigger] numbers[i] == 0,
    ensures
        total(numbers) == 0,
    decreases numbers.len(),
{
    if numbers.len() > 0 {
        let shorter = numbers.drop_last();
        assert forall|i: int| 0 <= i < shorter.len() implies #[trigger] shorter[i] == 0 by {
            assert(numbers[i] == 0);
        }
        lemma_total_of_zeros(shorter);
    }
}

} // verus!
