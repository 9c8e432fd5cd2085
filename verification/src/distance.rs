//! The squared Euclidean distance.

use crate::arithmetic::{adds, apart, lemma_summed_none, lemma_summed_push, measured, row_by_row, running_sums, summed};
use crate::embeddings::{lemma_row_within, lemma_rows_of, row, row_of};
use crate::reproducible::{lemma_summed_once, plus_repeats};
use crate::scalar::{all_finite, all_numbers, zero, Scalar};
use vstd::prelude::*;

verus! {

/// The arithmetic of distances.
pub struct Squares<S, T, A> {
    /// The difference of two scalars.
    pub minus: S,
    /// The product of two scalars.
    pub times: T,
    /// The sum of two scalars.
    pub plus: A,
}

impl<S, T, A> Squares<S, T, A> where
    S: Fn(Scalar, Scalar) -> Scalar,
    T: Fn(Scalar, Scalar) -> Scalar,
    A: Fn(Scalar, Scalar) -> Scalar,
 {
    /// Whether the operations are defined for any operands.
    pub open spec fn defined(self) -> bool {
        &&& forall|a: Scalar, b: Scalar| #[trigger] call_requires(self.minus, (a, b))
        &&& forall|a: Scalar, b: Scalar| #[trigger] call_requires(self.times, (a, b))
        &&& adds(self.plus)
    }

    /// Whether `square` is the square of the difference of `a` and `b`.
    pub open spec fn squares(self, a: Scalar, b: Scalar, square: Scalar) -> bool {
        exists|d: Scalar| #[trigger] call_ensures(self.minus, (a, b), d) && call_ensures(self.times, (d, d), square)
    }

    /// Whether `sum` is the sum, from the left, of four squares of differences.
    pub open spec fn sums_four(self, a: Seq<Scalar>, b: Seq<Scalar>, sum: Scalar) -> bool {
        exists|s: Seq<Scalar>, first: Scalar, second: Scalar|
            {
                &&& s.len() == 4
                &&& forall|i: int| 0 <= i < 4 ==> self.squares(a[i], b[i], #[trigger] s[i])
                &&& #[trigger] call_ensures(self.plus, (s[0], s[1]), first)
                &&& #[trigger] call_ensures(self.plus, (first, s[2]), second)
                &&& call_ensures(self.plus, (second, s[3]), sum)
            }
    }

    /// Whether `terms` are the terms of the distance between the first `upto`
    /// values of `a` and `b`: one for each four values, and one for each value
    /// that is left.
    pub open spec fn terms_to(self, a: Seq<Scalar>, b: Seq<Scalar>, upto: int, terms: Seq<Scalar>) -> bool {
        let fours = a.len() as int / 4;
        let done = if upto / 4 < fours {
            upto / 4
        } else {
            fours
        };
        &&& terms.len() == done + (upto - 4 * done)
        &&& forall|g: int|
            0 <= g < done ==> self.sums_four(
                a.subrange(4 * g, 4 * g + 4),
                b.subrange(4 * g, 4 * g + 4),
                #[trigger] terms[g],
            )
        &&& forall|t: int|
            done <= t < terms.len() ==> self.squares(a[4 * done + (t - done)], b[4 * done + (t - done)], #[trigger] terms[t])
    }

    /// Whether `distance` is the squared distance between `a` and `b`: the sum of
    /// its terms, added up from zero in order.
    pub open spec fn distances(self, a: Seq<Scalar>, b: Seq<Scalar>, distance: Scalar) -> bool {
        exists|terms: Seq<Scalar>| #[trigger]
            self.terms_to(a, b, a.len() as int, terms) && summed(self.plus, terms, distance)
    }

    fn square(&self, a: Scalar, b: Scalar) -> (r: Scalar)
        requires
            self.defined(),
        ensures
            self.squares(a, b, r),
    {
        let d: Scalar = (self.minus)(a, b);
        (self.times)(d, d)
    }

    /// The sum of the squares of the differences at the four positions from `i` on.
    fn sum_four(&self, a: &[Scalar], b: &[Scalar], i: usize) -> (r: Scalar)
        requires
            self.defined(),
            i + 4 <= a@.len() == b@.len(),
        ensures
            self.sums_four(a@.subrange(i as int, i + 4), b@.subrange(i as int, i + 4), r),
    {
        assert(a@.len() == a.len());
        let s0: Scalar = self.square(a[i], b[i]);
        let s1: Scalar = self.square(a[i + 1], b[i + 1]);
        let s2: Scalar = self.square(a[i + 2], b[i + 2]);
        let s3: Scalar = self.square(a[i + 3], b[i + 3]);
        let first: Scalar = (self.plus)(s0, s1);
        let second: Scalar = (self.plus)(first, s2);
        let sum: Scalar = (self.plus)(second, s3);
        proof {
            let s = seq![s0, s1, s2, s3];
            let x = a@.subrange(i as int, i + 4);
            let y = b@.subrange(i as int, i + 4);
            assert forall|j: int| 0 <= j < 4 implies self.squares(x[j], y[j], #[trigger] s[j]) by {
                assert(x[j] == a@[i + j] && y[j] == b@[i + j]);
            }
            assert(call_ensures(self.plus, (s[0], s[1]), first));
            assert(call_ensures(self.plus, (first, s[2]), second));
            assert(call_ensures(self.plus, (second, s[3]), sum));
        }
        sum
    }

    /// Compute squared L2 distance between two vectors.
    pub fn squared_l2_distance(&self, a: &[Scalar], b: &[Scalar]) -> (r: Scalar)
        requires
            self.defined(),
            a@.len() == b@.len(),
        ensures
            self.distances(a@, b@, r),
    {
        let len: usize = a.len();
        let mut sum: Scalar = zero();
        let ghost mut terms: Seq<Scalar> = Seq::empty();
        let mut i: usize = 0;
        proof {
            lemma_summed_none(self.plus);
        }
        while len - i >= 4
            invariant
                self.defined(),
                len == a@.len() == b@.len(),
                i <= len,
                i % 4 == 0,
                self.terms_to(a@, b@, i as int, terms),
                summed(self.plus, terms, sum),
            decreases len - i,
        {
            let four: Scalar = self.sum_four(a, b, i);
            let next: Scalar = (self.plus)(sum, four);
            proof {
                lemma_summed_push(self.plus, terms, sum, four, next);
                let grown = terms.push(four);
                assert forall|g: int| 0 <= g < (i + 4) / 4 implies self.sums_four(
                    a@.subrange(4 * g, 4 * g + 4),
                    b@.subrange(4 * g, 4 * g + 4),
                    #[trigger] grown[g],
                ) by {
                    if g < i / 4 {
                        assert(grown[g] == terms[g]);
                    }
                }
                terms = grown;
            }
            sum = next;
            i = i + 4;
        }
        while i < len
            invariant
                self.defined(),
                len == a@.len() == b@.len(),
                i <= len,
                len - i < 4,
                len / 4 * 4 <= i,
                self.terms_to(a@, b@, i as int, terms),
                summed(self.plus, terms, sum),
            decreases len - i,
        {
            let square: Scalar = self.square(a[i], b[i]);
            let next: Scalar = (self.plus)(sum, square);
            proof {
                lemma_summed_push(self.plus, terms, sum, square, next);
                let grown = terms.push(square);
                let done = len as int / 4;
                assert forall|g: int| 0 <= g < done implies self.sums_four(
                    a@.subrange(4 * g, 4 * g + 4),
                    b@.subrange(4 * g, 4 * g + 4),
                    #[trigger] grown[g],
                ) by {
                    assert(grown[g] == terms[g]);
                }
                assert forall|t: int| done <= t < grown.len() implies self.squares(
                    a@[4 * done + (t - done)],
                    b@[4 * done + (t - done)],
                    #[trigger] grown[t],
                ) by {
                    if t < terms.len() {
                        assert(grown[t] == terms[t]);
                    }
                }
                terms = grown;
            }
            sum = next;
            i = i + 1;
        }
        sum
    }

    /// The squared distance between `vector` and each row of `matrix`.
    pub fn row_distances(&self, vector: &[Scalar], matrix: &[Scalar]) -> (r: Vec<Scalar>)
        requires
            self.defined(),
            vector@.len() > 0,
            matrix@.len() % vector@.len() == 0,
        ensures
            r@.len() == matrix@.len() / vector@.len(),
            forall|i: int|
                0 <= i < r@.len() ==> self.distances(vector@, row(matrix@, vector@.len(), i), #[trigger] r@[i]),
    {
        let dim: usize = vector.len();
        let rows: usize = matrix.len() / dim;
        let mut out: Vec<Scalar> = Vec::with_capacity(rows);
        let mut i: usize = 0;
        proof {
            lemma_rows_of(matrix@.len() as int, dim as int);
        }
        while i < rows
            invariant
                self.defined(),
                dim == vector@.len(),
                i <= rows,
                matrix@.len() == rows * dim,
                out@.len() == i,
                forall|j: int|
                    0 <= j < i ==> self.distances(vector@, row(matrix@, vector@.len(), j), #[trigger] out@[j]),
            decreases rows - i,
        {
            proof {
                lemma_row_within(rows as int, dim as int, i as int);
            }
            out.push(self.squared_l2_distance(vector, row_of(matrix, dim, i)));
            i = i + 1;
        }
        out
    }
}

impl<S, T, A> Squares<S, T, A> where
    S: Fn(Scalar, Scalar) -> Scalar,
    T: Fn(Scalar, Scalar) -> Scalar,
    A: Fn(Scalar, Scalar) -> Scalar,
 {
    /// Whether `measure` gives the squared distance between the vector and each
    /// row, as [`Self::row_distances`] does.
    pub open spec fn measured_by<M: Fn(&[Scalar], &[Scalar]) -> Vec<Scalar>>(self, measure: M) -> bool {
        forall|v: &[Scalar], m: &[Scalar], d: Vec<Scalar>|
            v@.len() > 0 && m@.len() % v@.len() == 0 && #[trigger] call_ensures(measure, (v, m), d) ==> {
                &&& d@.len() == m@.len() / v@.len()
                &&& forall|i: int| 0 <= i < d@.len() ==> self.distances(v@, row(m@, v@.len(), i), #[trigger] d@[i])
            }
    }

    /// Whether the operations give the same result for the same operands.
    pub open spec fn repeats(self) -> bool {
        &&& plus_repeats(self.minus)
        &&& plus_repeats(self.times)
        &&& plus_repeats(self.plus)
    }

    /// Whether the square of a difference of finite values is the same either way.
    pub open spec fn mirrors(self) -> bool {
        forall|a: Scalar, b: Scalar, x: Scalar, y: Scalar|
            a.finite() && b.finite() && #[trigger] self.squares(a, b, x) && #[trigger] self.squares(b, a, y) ==> x == y
    }

    /// Whether the square of the difference of a finite value and itself is zero,
    /// and zero plus zero is zero.
    pub open spec fn cancels(self) -> bool {
        &&& forall|a: Scalar, x: Scalar| a.finite() && #[trigger] self.squares(a, a, x) ==> x == zero()
        &&& forall|x: Scalar| #[trigger] call_ensures(self.plus, (zero(), zero()), x) ==> x == zero()
    }

    /// Whether the square of the difference is the same for `a` and `b` as for `c`
    /// and `d`, at each position.
    spec fn alike(self, a: Seq<Scalar>, b: Seq<Scalar>, c: Seq<Scalar>, d: Seq<Scalar>) -> bool {
        forall|i: int, x: Scalar, y: Scalar|
            0 <= i < a.len() && #[trigger] self.squares(a[i], b[i], x) && #[trigger] self.squares(c[i], d[i], y) ==> x
                == y
    }

    proof fn lemma_four_alike(
        self,
        a: Seq<Scalar>,
        b: Seq<Scalar>,
        c: Seq<Scalar>,
        d: Seq<Scalar>,
        x: Scalar,
        y: Scalar,
    )
        requires
            plus_repeats(self.plus),
            a.len() == 4,
            self.alike(a, b, c, d),
            self.sums_four(a, b, x),
            self.sums_four(c, d, y),
        ensures
            x == y,
    {
        let (s, s1, s2) = choose|s: Seq<Scalar>, first: Scalar, second: Scalar|
            {
                &&& s.len() == 4
                &&& forall|i: int| 0 <= i < 4 ==> self.squares(a[i], b[i], #[trigger] s[i])
                &&& #[trigger] call_ensures(self.plus, (s[0], s[1]), first)
                &&& #[trigger] call_ensures(self.plus, (first, s[2]), second)
                &&& call_ensures(self.plus, (second, s[3]), x)
            };
        let (t, t1, t2) = choose|s: Seq<Scalar>, first: Scalar, second: Scalar|
            {
                &&& s.len() == 4
                &&& forall|i: int| 0 <= i < 4 ==> self.squares(c[i], d[i], #[trigger] s[i])
                &&& #[trigger] call_ensures(self.plus, (s[0], s[1]), first)
                &&& #[trigger] call_ensures(self.plus, (first, s[2]), second)
                &&& call_ensures(self.plus, (second, s[3]), y)
            };
        assert forall|i: int| 0 <= i < 4 implies s[i] == t[i] by {
            assert(self.squares(a[i], b[i], s[i]) && self.squares(c[i], d[i], t[i]));
        }
        assert(s1 == t1);
        assert(s2 == t2);
    }

    proof fn lemma_distances_alike(
        self,
        a: Seq<Scalar>,
        b: Seq<Scalar>,
        c: Seq<Scalar>,
        d: Seq<Scalar>,
        x: Scalar,
        y: Scalar,
    )
        requires
            plus_repeats(self.plus),
            a.len() == b.len() == c.len() == d.len(),
            self.alike(a, b, c, d),
            self.distances(a, b, x),
            self.distances(c, d, y),
        ensures
            x == y,
    {
        let n = a.len() as int;
        let s = choose|terms: Seq<Scalar>| #[trigger] self.terms_to(a, b, n, terms) && summed(self.plus, terms, x);
        let t = choose|terms: Seq<Scalar>| #[trigger] self.terms_to(c, d, n, terms) && summed(self.plus, terms, y);
        let done = n / 4;
        assert forall|g: int| 0 <= g < s.len() implies s[g] == t[g] by {
            if g < done {
                let fa = a.subrange(4 * g, 4 * g + 4);
                let fb = b.subrange(4 * g, 4 * g + 4);
                let fc = c.subrange(4 * g, 4 * g + 4);
                let fd = d.subrange(4 * g, 4 * g + 4);
                assert forall|i: int, u: Scalar, v: Scalar|
                    0 <= i < 4 && #[trigger] self.squares(fa[i], fb[i], u) && #[trigger] self.squares(
                        fc[i],
                        fd[i],
                        v,
                    ) implies u == v by {
                    let p = 4 * g + i;
                    assert(self.squares(a[p], b[p], u) && self.squares(c[p], d[p], v));
                }
                assert(self.sums_four(fa, fb, s[g]) && self.sums_four(fc, fd, t[g]));
                self.lemma_four_alike(fa, fb, fc, fd, s[g], t[g]);
            } else {
                let p = 4 * done + (g - done);
                assert(self.squares(a[p], b[p], s[g]) && self.squares(c[p], d[p], t[g]));
            }
        }
        assert(s =~= t);
        lemma_summed_once(self.plus, s, x, y);
    }

    /// Two vectors have one distance.
    pub proof fn law_distance_is_unique(self, a: Seq<Scalar>, b: Seq<Scalar>, x: Scalar, y: Scalar)
        requires
            self.repeats(),
            a.len() == b.len(),
            self.distances(a, b, x),
            self.distances(a, b, y),
        ensures
            x == y,
    {
        self.lemma_distances_alike(a, b, a, b, x, y);
    }

    /// The distance is symmetric: exactly, not up to rounding.
    pub proof fn law_distance_is_symmetric(self, a: Seq<Scalar>, b: Seq<Scalar>, x: Scalar, y: Scalar)
        requires
            self.mirrors(),
            plus_repeats(self.plus),
            a.len() == b.len(),
            all_finite(a),
            all_finite(b),
            self.distances(a, b, x),
            self.distances(b, a, y),
        ensures
            x == y,
    {
        assert forall|i: int, u: Scalar, v: Scalar|
            0 <= i < a.len() && #[trigger] self.squares(a[i], b[i], u) && #[trigger] self.squares(
                b[i],
                a[i],
                v,
            ) implies u == v by {
            assert(a[i].finite() && b[i].finite());
        }
        self.lemma_distances_alike(a, b, b, a, x, y);
    }

    /// The distance from a vector to itself is zero.
    pub proof fn law_distance_to_itself_is_zero(self, a: Seq<Scalar>, x: Scalar)
        requires
            self.cancels(),
            all_finite(a),
            self.distances(a, a, x),
        ensures
            x == zero(),
    {
        let n = a.len() as int;
        let terms = choose|terms: Seq<Scalar>| #[trigger] self.terms_to(a, a, n, terms) && summed(self.plus, terms, x);
        let done = n / 4;
        assert forall|g: int| 0 <= g < terms.len() implies #[trigger] terms[g] == zero() by {
            if g < done {
                let four = a.subrange(4 * g, 4 * g + 4);
                assert(self.sums_four(four, four, terms[g]));
                let (s, first, second) = choose|s: Seq<Scalar>, first: Scalar, second: Scalar|
                    {
                        &&& s.len() == 4
                        &&& forall|i: int| 0 <= i < 4 ==> self.squares(four[i], four[i], #[trigger] s[i])
                        &&& #[trigger] call_ensures(self.plus, (s[0], s[1]), first)
                        &&& #[trigger] call_ensures(self.plus, (first, s[2]), second)
                        &&& call_ensures(self.plus, (second, s[3]), terms[g])
                    };
                assert forall|i: int| 0 <= i < 4 implies s[i] == zero() by {
                    assert(four[i] == a[4 * g + i]);
                    assert(self.squares(four[i], four[i], s[i]));
                }
                assert(first == zero());
                assert(second == zero());
            } else {
                let p = 4 * done + (g - done);
                assert(a[p].finite());
                assert(self.squares(a[p], a[p], terms[g]));
            }
        }
        let sums = choose|sums: Seq<Scalar>| #[trigger] running_sums(self.plus, terms, sums) && x == sums.last();
        self.lemma_zero_sums(terms, sums, terms.len() as int);
    }

    proof fn lemma_zero_sums(self, terms: Seq<Scalar>, sums: Seq<Scalar>, i: int)
        requires
            self.cancels(),
            running_sums(self.plus, terms, sums),
            forall|g: int| 0 <= g < terms.len() ==> #[trigger] terms[g] == zero(),
            0 <= i <= terms.len(),
        ensures
            sums[i] == zero(),
        decreases i,
    {
        if i > 0 {
            self.lemma_zero_sums(terms, sums, i - 1);
            assert(terms[i - 1] == zero());
            assert(call_ensures(self.plus, (sums[i - 1], terms[i - 1]), sums[i - 1 + 1]));
        }
    }

    /// Whether the square of a difference of finite values is a number of at least
    /// zero, and so is the sum of two such numbers.
    pub open spec fn stays_positive(self) -> bool {
        &&& forall|a: Scalar, b: Scalar, x: Scalar|
            a.finite() && b.finite() && #[trigger] self.squares(a, b, x) ==> x.ge(zero())
        &&& forall|x: Scalar, y: Scalar, z: Scalar|
            x.ge(zero()) && y.ge(zero()) && #[trigger] call_ensures(self.plus, (x, y), z) ==> z.ge(zero())
    }

    proof fn lemma_positive_sums(self, terms: Seq<Scalar>, sums: Seq<Scalar>, i: int)
        requires
            self.stays_positive(),
            running_sums(self.plus, terms, sums),
            forall|g: int| 0 <= g < terms.len() ==> (#[trigger] terms[g]).ge(zero()),
            0 <= i <= terms.len(),
        ensures
            sums[i].ge(zero()),
        decreases i,
    {
        if i > 0 {
            self.lemma_positive_sums(terms, sums, i - 1);
            assert(terms[i - 1].ge(zero()));
            assert(call_ensures(self.plus, (sums[i - 1], terms[i - 1]), sums[i - 1 + 1]));
        }
    }

    /// The distance between finite vectors is a number of at least zero.
    pub proof fn law_distance_of_finite_vectors_is_a_number(self, a: Seq<Scalar>, b: Seq<Scalar>, x: Scalar)
        requires
            self.stays_positive(),
            a.len() == b.len(),
            all_finite(a),
            all_finite(b),
            self.distances(a, b, x),
        ensures
            x.ge(zero()),
            !x.nan(),
    {
        let n = a.len() as int;
        let terms = choose|terms: Seq<Scalar>| #[trigger] self.terms_to(a, b, n, terms) && summed(self.plus, terms, x);
        let done = n / 4;
        assert forall|g: int| 0 <= g < terms.len() implies (#[trigger] terms[g]).ge(zero()) by {
            if g < done {
                let fa = a.subrange(4 * g, 4 * g + 4);
                let fb = b.subrange(4 * g, 4 * g + 4);
                assert(self.sums_four(fa, fb, terms[g]));
                let (s, first, second) = choose|s: Seq<Scalar>, first: Scalar, second: Scalar|
                    {
                        &&& s.len() == 4
                        &&& forall|i: int| 0 <= i < 4 ==> self.squares(fa[i], fb[i], #[trigger] s[i])
                        &&& #[trigger] call_ensures(self.plus, (s[0], s[1]), first)
                        &&& #[trigger] call_ensures(self.plus, (first, s[2]), second)
                        &&& call_ensures(self.plus, (second, s[3]), terms[g])
                    };
                assert forall|i: int| 0 <= i < 4 implies (#[trigger] s[i]).ge(zero()) by {
                    assert(fa[i] == a[4 * g + i] && fb[i] == b[4 * g + i]);
                    assert(self.squares(fa[i], fb[i], s[i]));
                }
                assert(first.ge(zero()));
                assert(second.ge(zero()));
            } else {
                let p = 4 * done + (g - done);
                assert(a[p].finite() && b[p].finite());
                assert(self.squares(a[p], b[p], terms[g]));
            }
        }
        let sums = choose|sums: Seq<Scalar>| #[trigger] running_sums(self.plus, terms, sums) && x == sums.last();
        self.lemma_positive_sums(terms, sums, terms.len() as int);
    }

    /// What a measure of squared distances gave for finite vectors are numbers of at
    /// least zero: no distance is a NaN.
    pub proof fn law_finite_vectors_are_measured_in_numbers<M: Fn(&[Scalar], &[Scalar]) -> Vec<Scalar>>(
        self,
        measure: M,
        vector: Seq<Scalar>,
        matrix: Seq<Scalar>,
        distances: Seq<Scalar>,
    )
        requires
            self.stays_positive(),
            self.measured_by(measure),
            vector.len() > 0,
            matrix.len() % vector.len() == 0,
            all_finite(vector),
            all_finite(matrix),
            measured(measure, vector, matrix, distances),
        ensures
            all_numbers(distances),
            forall|i: int| 0 <= i < distances.len() ==> (#[trigger] distances[i]).ge(zero()),
    {
        let dim = vector.len() as int;
        self.law_measured_rows_are_distances(measure, vector, matrix, distances);
        lemma_rows_of(matrix.len() as int, dim);
        assert forall|i: int| 0 <= i < distances.len() implies (#[trigger] distances[i]).ge(zero())
            && !distances[i].nan() by {
            let other = row(matrix, vector.len(), i);
            lemma_row_within(distances.len() as int, dim, i);
            assert forall|j: int| 0 <= j < other.len() implies (#[trigger] other[j]).finite() by {
                assert(matrix[i * dim + j].finite());
            }
            self.law_distance_of_finite_vectors_is_a_number(vector, other, distances[i]);
        }
    }

    /// What a measure of squared distances gave for two vectors is their distance.
    pub proof fn law_apart_is_the_distance<M: Fn(&[Scalar], &[Scalar]) -> Vec<Scalar>>(
        self,
        measure: M,
        vector: Seq<Scalar>,
        other: Seq<Scalar>,
        distance: Scalar,
    )
        requires
            self.measured_by(measure),
            vector.len() > 0,
            apart(measure, vector, other, distance),
        ensures
            self.distances(vector, other, distance),
    {
    }

    /// What a measure of squared distances gave for two finite vectors is a number of
    /// at least zero.
    pub proof fn law_finite_vectors_are_apart_by_a_number<M: Fn(&[Scalar], &[Scalar]) -> Vec<Scalar>>(
        self,
        measure: M,
        vector: Seq<Scalar>,
        other: Seq<Scalar>,
        distance: Scalar,
    )
        requires
            self.stays_positive(),
            self.measured_by(measure),
            0 < vector.len() == other.len(),
            all_finite(vector),
            all_finite(other),
            apart(measure, vector, other, distance),
        ensures
            distance.ge(zero()),
            !distance.nan(),
    {
        self.law_apart_is_the_distance(measure, vector, other, distance);
        self.law_distance_of_finite_vectors_is_a_number(vector, other, distance);
    }

    /// What a measure of squared distances gave for a vector and a matrix are the
    /// distances between the vector and each row.
    pub proof fn law_measured_rows_are_distances<M: Fn(&[Scalar], &[Scalar]) -> Vec<Scalar>>(
        self,
        measure: M,
        vector: Seq<Scalar>,
        matrix: Seq<Scalar>,
        distances: Seq<Scalar>,
    )
        requires
            self.measured_by(measure),
            vector.len() > 0,
            matrix.len() % vector.len() == 0,
            measured(measure, vector, matrix, distances),
        ensures
            distances.len() == matrix.len() / vector.len(),
            forall|i: int|
                0 <= i < distances.len() ==> self.distances(
                    vector,
                    row(matrix, vector.len(), i),
                    #[trigger] distances[i],
                ),
    {
    }

    /// A measure of squared distances, by operations that repeat themselves, works
    /// row by row.
    pub proof fn law_squares_are_measured_row_by_row<M: Fn(&[Scalar], &[Scalar]) -> Vec<Scalar>>(self, measure: M)
        requires
            self.repeats(),
            self.measured_by(measure),
        ensures
            row_by_row(measure),
    {
        assert forall|vector: Seq<Scalar>, other: Seq<Scalar>, x: Scalar, y: Scalar|
            {
                &&& 0 < vector.len() == other.len()
                &&& #[trigger] apart(measure, vector, other, x)
                &&& #[trigger] apart(measure, vector, other, y)
            } implies x == y by {
            self.law_apart_is_the_distance(measure, vector, other, x);
            self.law_apart_is_the_distance(measure, vector, other, y);
            self.law_distance_is_unique(vector, other, x, y);
        }
    }
}

} // verus!
