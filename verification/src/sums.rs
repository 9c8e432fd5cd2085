//! What sums come to: each value counts, and counts once.
//!
//! Where the operations are exact on the whole numbers that some scalars stand
//! for, as single-precision operations are up to a limit, a sum is that of the
//! numbers. Where they only keep sums from shrinking, as rounding does, a sum is
//! no less than each of its values.

use crate::arithmetic::{running_sums, summed, Arithmetic};
use crate::embeddings::{lemma_row_within, row};
use crate::kmeans::{mean_of, means, member_values, members};
use crate::matrix::{cell, lemma_cell, lemma_with_row, with_row};
use crate::ranges::{law_shares_partition, shared_out};
use crate::rng::{index_draw, word_draw};
use crate::scalar::{zero, Scalar};
use crate::seeding::{lemma_ends_ascend, reaches, seeding_continues, summed_in_parts, SeedStep};
use vstd::prelude::*;

verus! {

/// The sum of `numbers`.
pub open spec fn total(numbers: Seq<int>) -> int
    decreases numbers.len(),
{
    if numbers.len() == 0 {
        0
    } else {
        total(numbers.drop_last()) + numbers.last()
    }
}

/// The whole numbers that `values` stand for.
pub open spec fn numbers_of(value: spec_fn(Scalar) -> Option<int>, values: Seq<Scalar>) -> Seq<int> {
    Seq::new(values.len(), |i: int| value(values[i])->0)
}

/// Whether each of `values` stands for a whole number of at least zero.
pub open spec fn counts(value: spec_fn(Scalar) -> Option<int>, values: Seq<Scalar>) -> bool {
    forall|i: int| 0 <= i < values.len() ==> value(#[trigger] values[i]) is Some && value(values[i])->0 >= 0
}

/// Whether zero stands for 0, and `plus` gives the sum of two whole numbers of at
/// least zero where it is no more than `limit`.
pub open spec fn adds_exactly<A: Fn(Scalar, Scalar) -> Scalar>(
    plus: A,
    value: spec_fn(Scalar) -> Option<int>,
    limit: int,
) -> bool {
    &&& value(zero()) == Some(0int)
    &&& forall|a: Scalar, b: Scalar, x: Scalar|
        {
            &&& #[trigger] call_ensures(plus, (a, b), x)
            &&& value(a) is Some && value(a)->0 >= 0
            &&& value(b) is Some && value(b)->0 >= 0
            &&& value(a)->0 + value(b)->0 <= limit
        } ==> value(x) == Some(value(a)->0 + value(b)->0)
}

/// Whether zero stands for 0, and `plus` gives the sum of two whole numbers of
/// either sign where it is no more than `limit` either way.
pub open spec fn adds_signed_exactly<A: Fn(Scalar, Scalar) -> Scalar>(
    plus: A,
    value: spec_fn(Scalar) -> Option<int>,
    limit: int,
) -> bool {
    &&& value(zero()) == Some(0int)
    &&& forall|a: Scalar, b: Scalar, x: Scalar|
        {
            &&& #[trigger] call_ensures(plus, (a, b), x)
            &&& value(a) is Some
            &&& value(b) is Some
            &&& -limit <= value(a)->0 + value(b)->0 <= limit
        } ==> value(x) == Some(value(a)->0 + value(b)->0)
}

/// Whether each of `values` stands for a whole number.
pub open spec fn whole(value: spec_fn(Scalar) -> Option<int>, values: Seq<Scalar>) -> bool {
    forall|i: int| 0 <= i < values.len() ==> value(#[trigger] values[i]) is Some
}

/// A number without its sign.
pub open spec fn unsigned(number: int) -> int {
    if number < 0 {
        -number
    } else {
        number
    }
}

/// The numbers without their signs.
pub open spec fn magnitudes(numbers: Seq<int>) -> Seq<int> {
    Seq::new(numbers.len(), |i: int| unsigned(numbers[i]))
}

/// Whether `minus` gives the difference of two whole numbers, where it is no more
/// than `limit` either way.
pub open spec fn subtracts_exactly<S: Fn(Scalar, Scalar) -> Scalar>(
    minus: S,
    value: spec_fn(Scalar) -> Option<int>,
    limit: int,
) -> bool {
    forall|a: Scalar, b: Scalar, x: Scalar|
        {
            &&& #[trigger] call_ensures(minus, (a, b), x)
            &&& value(a) is Some
            &&& value(b) is Some
            &&& -limit <= value(a)->0 - value(b)->0 <= limit
        } ==> value(x) == Some(value(a)->0 - value(b)->0)
}

/// Whether `times` gives the product of two whole numbers, where it is no more
/// than `limit` either way.
pub open spec fn multiplies_exactly<T: Fn(Scalar, Scalar) -> Scalar>(
    times: T,
    value: spec_fn(Scalar) -> Option<int>,
    limit: int,
) -> bool {
    forall|a: Scalar, b: Scalar, x: Scalar|
        {
            &&& #[trigger] call_ensures(times, (a, b), x)
            &&& value(a) is Some
            &&& value(b) is Some
            &&& -limit <= value(a)->0 * value(b)->0 <= limit
        } ==> value(x) == Some(value(a)->0 * value(b)->0)
}

/// Whether scalars that stand for whole numbers compare as those do.
pub open spec fn orders_numbers(value: spec_fn(Scalar) -> Option<int>) -> bool {
    forall|a: Scalar, b: Scalar|
        value(a) is Some && value(b) is Some ==> {
            &&& #[trigger] a.ge(b) <==> value(a)->0 >= value(b)->0
            &&& a.lt(b) <==> value(a)->0 < value(b)->0
        }
}

/// Whether the sum of two numbers of at least zero is less than neither.
pub open spec fn grows<A: Fn(Scalar, Scalar) -> Scalar>(plus: A) -> bool {
    forall|x: Scalar, y: Scalar, z: Scalar|
        x.ge(zero()) && y.ge(zero()) && #[trigger] call_ensures(plus, (x, y), z) ==> z.ge(x) && z.ge(y)
}

proof fn lemma_total_split(numbers: Seq<int>, a: int, b: int)
    requires
        0 <= a <= b <= numbers.len(),
    ensures
        total(numbers.take(b)) == total(numbers.take(a)) + total(numbers.subrange(a, b)),
    decreases b - a,
{
    if a == b {
        assert(numbers.subrange(a, b) =~= Seq::<int>::empty());
    } else {
        lemma_total_split(numbers, a, b - 1);
        assert(numbers.take(b).drop_last() =~= numbers.take(b - 1));
        assert(numbers.subrange(a, b).drop_last() =~= numbers.subrange(a, b - 1));
    }
}

/// Of numbers of at least zero, more come to no less.
pub proof fn lemma_total_grows(numbers: Seq<int>, a: int, b: int)
    requires
        0 <= a <= b <= numbers.len(),
        forall|i: int| 0 <= i < numbers.len() ==> #[trigger] numbers[i] >= 0,
    ensures
        0 <= total(numbers.take(a)) <= total(numbers.take(b)),
    decreases b,
{
    if b > 0 {
        assert(numbers.take(b).drop_last() =~= numbers.take(b - 1));
        if a < b {
            lemma_total_grows(numbers, a, b - 1);
        } else {
            lemma_total_grows(numbers, a - 1, b - 1);
        }
    }
}

proof fn lemma_running_sums_are_exact<A: Fn(Scalar, Scalar) -> Scalar>(
    plus: A,
    value: spec_fn(Scalar) -> Option<int>,
    limit: int,
    values: Seq<Scalar>,
    sums: Seq<Scalar>,
    i: int,
)
    requires
        adds_exactly(plus, value, limit),
        counts(value, values),
        running_sums(plus, values, sums),
        0 <= i <= values.len(),
        total(numbers_of(value, values).take(i)) <= limit,
    ensures
        value(sums[i]) == Some(total(numbers_of(value, values).take(i))),
        total(numbers_of(value, values).take(i)) >= 0,
    decreases i,
{
    let numbers = numbers_of(value, values);
    if i > 0 {
        lemma_total_grows(numbers, i - 1, i);
        lemma_running_sums_are_exact(plus, value, limit, values, sums, i - 1);
        assert(numbers.take(i).drop_last() =~= numbers.take(i - 1));
        assert(numbers.take(i).last() == value(values[i - 1])->0);
        assert(call_ensures(plus, (sums[i - 1], values[i - 1]), sums[i - 1 + 1]));
    }
}

/// A sum of whole numbers of at least zero is their sum, where that is no more
/// than the operations are exact for.
pub proof fn law_sums_are_exact<A: Fn(Scalar, Scalar) -> Scalar>(
    plus: A,
    value: spec_fn(Scalar) -> Option<int>,
    limit: int,
    values: Seq<Scalar>,
    sum: Scalar,
)
    requires
        adds_exactly(plus, value, limit),
        counts(value, values),
        total(numbers_of(value, values)) <= limit,
        summed(plus, values, sum),
    ensures
        value(sum) == Some(total(numbers_of(value, values))),
        total(numbers_of(value, values)) >= 0,
{
    let sums = choose|sums: Seq<Scalar>| #[trigger] running_sums(plus, values, sums) && sum == sums.last();
    let numbers = numbers_of(value, values);
    assert(numbers.take(values.len() as int) =~= numbers);
    lemma_running_sums_are_exact(plus, value, limit, values, sums, values.len() as int);
}

proof fn lemma_signed_running_sums<A: Fn(Scalar, Scalar) -> Scalar>(
    plus: A,
    value: spec_fn(Scalar) -> Option<int>,
    limit: int,
    values: Seq<Scalar>,
    sums: Seq<Scalar>,
    i: int,
)
    requires
        adds_signed_exactly(plus, value, limit),
        whole(value, values),
        running_sums(plus, values, sums),
        0 <= i <= values.len(),
        total(magnitudes(numbers_of(value, values)).take(i)) <= limit,
    ensures
        value(sums[i]) == Some(total(numbers_of(value, values).take(i))),
        unsigned(total(numbers_of(value, values).take(i))) <= total(magnitudes(numbers_of(value, values)).take(i)),
    decreases i,
{
    let numbers = numbers_of(value, values);
    let sizes = magnitudes(numbers);
    if i > 0 {
        lemma_total_grows(sizes, i - 1, i);
        lemma_signed_running_sums(plus, value, limit, values, sums, i - 1);
        assert(numbers.take(i).drop_last() =~= numbers.take(i - 1));
        assert(sizes.take(i).drop_last() =~= sizes.take(i - 1));
        assert(numbers.take(i).last() == value(values[i - 1])->0);
        assert(sizes.take(i).last() == unsigned(numbers[i - 1]));
        assert(call_ensures(plus, (sums[i - 1], values[i - 1]), sums[i - 1 + 1]));
    } else {
        assert(numbers.take(0) =~= Seq::<int>::empty());
        assert(sizes.take(0) =~= Seq::<int>::empty());
    }
}

/// A sum of whole numbers of either sign is their sum, where their magnitudes come
/// to no more than the operations are exact for.
pub proof fn law_signed_sums_are_exact<A: Fn(Scalar, Scalar) -> Scalar>(
    plus: A,
    value: spec_fn(Scalar) -> Option<int>,
    limit: int,
    values: Seq<Scalar>,
    sum: Scalar,
)
    requires
        adds_signed_exactly(plus, value, limit),
        whole(value, values),
        total(magnitudes(numbers_of(value, values))) <= limit,
        summed(plus, values, sum),
    ensures
        value(sum) == Some(total(numbers_of(value, values))),
{
    let sums = choose|sums: Seq<Scalar>| #[trigger] running_sums(plus, values, sums) && sum == sums.last();
    let numbers = numbers_of(value, values);
    let n = values.len() as int;
    assert(numbers.take(n) =~= numbers);
    assert(magnitudes(numbers).take(n) =~= magnitudes(numbers));
    lemma_signed_running_sums(plus, value, limit, values, sums, n);
}

proof fn lemma_running_sums_grow<A: Fn(Scalar, Scalar) -> Scalar>(
    plus: A,
    values: Seq<Scalar>,
    sums: Seq<Scalar>,
    i: int,
)
    requires
        grows(plus),
        forall|j: int| 0 <= j < values.len() ==> (#[trigger] values[j]).ge(zero()),
        running_sums(plus, values, sums),
        0 <= i <= values.len(),
    ensures
        sums[i].ge(zero()),
        forall|j: int| 0 <= j < i ==> sums[i].ge(#[trigger] values[j]),
    decreases i,
{
    if i > 0 {
        lemma_running_sums_grow(plus, values, sums, i - 1);
        assert(values[i - 1].ge(zero()));
        assert(call_ensures(plus, (sums[i - 1], values[i - 1]), sums[i - 1 + 1]));
        assert forall|j: int| 0 <= j < i implies sums[i].ge(#[trigger] values[j]) by {
            if j < i - 1 {
                assert(sums[i - 1].ge(values[j]));
            }
        }
    }
}

/// A sum of numbers of at least zero is less than none of them.
pub proof fn law_sums_are_no_less_than_each_value<A: Fn(Scalar, Scalar) -> Scalar>(
    plus: A,
    values: Seq<Scalar>,
    sum: Scalar,
)
    requires
        grows(plus),
        forall|i: int| 0 <= i < values.len() ==> (#[trigger] values[i]).ge(zero()),
        summed(plus, values, sum),
    ensures
        sum.ge(zero()),
        forall|i: int| 0 <= i < values.len() ==> sum.ge(#[trigger] values[i]),
{
    let sums = choose|sums: Seq<Scalar>| #[trigger] running_sums(plus, values, sums) && sum == sums.last();
    lemma_running_sums_grow(plus, values, sums, values.len() as int);
}

proof fn lemma_parts_are_exact<A: Fn(Scalar, Scalar) -> Scalar>(
    plus: A,
    value: spec_fn(Scalar) -> Option<int>,
    limit: int,
    weights: Seq<Scalar>,
    ranges: Seq<(usize, usize)>,
    parts: Seq<Scalar>,
    c: int,
)
    requires
        adds_exactly(plus, value, limit),
        counts(value, weights),
        total(numbers_of(value, weights)) <= limit,
        ranges.len() > 0,
        ranges[0].0 == 0,
        ranges.last().1 == weights.len(),
        forall|d: int| 0 <= d < ranges.len() ==> (#[trigger] ranges[d]).0 < ranges[d].1,
        forall|d: int| 0 <= d < ranges.len() - 1 ==> (#[trigger] ranges[d]).1 == ranges[d + 1].0,
        parts.len() == ranges.len(),
        forall|d: int|
            0 <= d < ranges.len() ==> summed(
                plus,
                weights.subrange(ranges[d].0 as int, ranges[d].1 as int),
                #[trigger] parts[d],
            ),
        0 <= c < ranges.len(),
        ranges[c].1 <= weights.len(),
    ensures
        counts(value, parts.take(c + 1)),
        total(numbers_of(value, parts.take(c + 1))) == total(numbers_of(value, weights).take(ranges[c].1 as int)),
    decreases c,
{
    let numbers = numbers_of(value, weights);
    let from = ranges[c].0 as int;
    let to = ranges[c].1 as int;
    let own = weights.subrange(from, to);
    if c > 0 {
        assert(ranges[c - 1].1 == ranges[c - 1 + 1].0);
    }
    assert(numbers_of(value, own) =~= numbers.subrange(from, to));
    assert(counts(value, own)) by {
        assert forall|i: int| 0 <= i < own.len() implies value(#[trigger] own[i]) is Some && value(own[i])->0 >= 0 by {
            assert(own[i] == weights[from + i]);
        }
    }
    lemma_total_split(numbers, from, to);
    lemma_total_grows(numbers, 0, from);
    lemma_total_grows(numbers, to, numbers.len() as int);
    assert(numbers.take(numbers.len() as int) =~= numbers);
    assert(summed(plus, own, parts[c]));
    law_sums_are_exact(plus, value, limit, own, parts[c]);
    let some = parts.take(c + 1);
    let fewer = parts.take(c);
    assert(numbers_of(value, some).drop_last() =~= numbers_of(value, fewer));
    if c > 0 {
        lemma_parts_are_exact(plus, value, limit, weights, ranges, parts, c - 1);
        assert(parts.take(c - 1 + 1) =~= fewer);
    } else {
        assert(numbers_of(value, fewer) =~= Seq::<int>::empty());
        assert(numbers.take(0) =~= Seq::<int>::empty());
    }
    assert forall|i: int| 0 <= i < some.len() implies value(#[trigger] some[i]) is Some && value(some[i])->0 >= 0 by {
        if i < c {
            assert(some[i] == fewer[i]);
        }
    }
}

/// Each weight counts in the total of the parts, and counts once, however many
/// threads add them up: the total of whole numbers is their sum.
pub proof fn law_total_is_the_sum_of_all_weights<A: Fn(Scalar, Scalar) -> Scalar>(
    plus: A,
    value: spec_fn(Scalar) -> Option<int>,
    limit: int,
    weights: Seq<Scalar>,
    parallelism: nat,
    sum: Scalar,
)
    requires
        adds_exactly(plus, value, limit),
        counts(value, weights),
        total(numbers_of(value, weights)) <= limit,
        summed_in_parts(plus, weights, parallelism, sum),
    ensures
        value(sum) == Some(total(numbers_of(value, weights))),
{
    let (ranges, parts) = choose|ranges: Seq<(usize, usize)>, parts: Seq<Scalar>|
        {
            &&& #[trigger] shared_out(ranges, weights.len(), parallelism)
            &&& parts.len() == ranges.len()
            &&& forall|c: int|
                0 <= c < ranges.len() ==> summed(
                    plus,
                    weights.subrange(ranges[c].0 as int, ranges[c].1 as int),
                    #[trigger] parts[c],
                )
            &&& #[trigger] summed(plus, parts, sum)
        };
    law_shares_partition(ranges, weights.len(), parallelism);
    let numbers = numbers_of(value, weights);
    if weights.len() == 0 {
        assert(numbers_of(value, parts) =~= Seq::<int>::empty());
        assert(numbers =~= Seq::<int>::empty());
        lemma_total_grows(numbers, 0, 0);
    } else {
        let n = ranges.len() as int;
        assert(numbers.take(numbers.len() as int) =~= numbers);
        lemma_parts_are_exact(plus, value, limit, weights, ranges, parts, n - 1);
        assert(parts.take(n) =~= parts);
    }
    law_sums_are_exact(plus, value, limit, parts, sum);
}

/// The total does not depend on the number of threads, where it is exact.
pub proof fn law_total_is_the_same_for_any_number_of_threads<A: Fn(Scalar, Scalar) -> Scalar>(
    plus: A,
    value: spec_fn(Scalar) -> Option<int>,
    limit: int,
    weights: Seq<Scalar>,
    few: nat,
    many: nat,
    a: Scalar,
    b: Scalar,
)
    requires
        adds_exactly(plus, value, limit),
        counts(value, weights),
        total(numbers_of(value, weights)) <= limit,
        summed_in_parts(plus, weights, few, a),
        summed_in_parts(plus, weights, many, b),
    ensures
        value(a) == value(b),
        value(a) is Some,
{
    law_total_is_the_sum_of_all_weights(plus, value, limit, weights, few, a);
    law_total_is_the_sum_of_all_weights(plus, value, limit, weights, many, b);
}

/// The part that a weight is in.
proof fn lemma_range_of(ranges: Seq<(usize, usize)>, i: int, upto: int) -> (c: int)
    requires
        ranges.len() > 0,
        ranges[0].0 == 0,
        forall|d: int| 0 <= d < ranges.len() ==> (#[trigger] ranges[d]).0 < ranges[d].1,
        forall|d: int| 0 <= d < ranges.len() - 1 ==> (#[trigger] ranges[d]).1 == ranges[d + 1].0,
        0 <= upto < ranges.len(),
        0 <= i < ranges[upto].1,
    ensures
        0 <= c <= upto,
        ranges[c].0 <= i < ranges[c].1,
    decreases upto,
{
    if i >= ranges[upto].0 {
        upto
    } else {
        assert(upto > 0);
        assert(ranges[upto - 1].1 == ranges[upto - 1 + 1].0);
        lemma_range_of(ranges, i, upto - 1)
    }
}

/// The total of weights of at least zero is less than none of them, however many
/// threads add them up.
pub proof fn law_total_is_no_less_than_each_weight<A: Fn(Scalar, Scalar) -> Scalar>(
    plus: A,
    weights: Seq<Scalar>,
    parallelism: nat,
    sum: Scalar,
)
    requires
        grows(plus),
        forall|i: int| 0 <= i < weights.len() ==> (#[trigger] weights[i]).ge(zero()),
        summed_in_parts(plus, weights, parallelism, sum),
    ensures
        sum.ge(zero()),
        forall|i: int| 0 <= i < weights.len() ==> sum.ge(#[trigger] weights[i]),
{
    let (ranges, parts) = choose|ranges: Seq<(usize, usize)>, parts: Seq<Scalar>|
        {
            &&& #[trigger] shared_out(ranges, weights.len(), parallelism)
            &&& parts.len() == ranges.len()
            &&& forall|c: int|
                0 <= c < ranges.len() ==> summed(
                    plus,
                    weights.subrange(ranges[c].0 as int, ranges[c].1 as int),
                    #[trigger] parts[c],
                )
            &&& #[trigger] summed(plus, parts, sum)
        };
    law_shares_partition(ranges, weights.len(), parallelism);
    assert forall|c: int| 0 <= c < parts.len() implies {
        &&& (#[trigger] parts[c]).ge(zero())
        &&& forall|i: int| ranges[c].0 <= i < ranges[c].1 ==> parts[c].ge(#[trigger] weights[i])
    } by {
        lemma_ends_ascend(ranges, c);
        let own = weights.subrange(ranges[c].0 as int, ranges[c].1 as int);
        assert(summed(plus, own, parts[c]));
        assert forall|i: int| 0 <= i < own.len() implies (#[trigger] own[i]).ge(zero()) by {
            assert(own[i] == weights[ranges[c].0 + i]);
        }
        law_sums_are_no_less_than_each_value(plus, own, parts[c]);
        assert forall|i: int| ranges[c].0 <= i < ranges[c].1 implies parts[c].ge(#[trigger] weights[i]) by {
            assert(own[i - ranges[c].0] == weights[i]);
        }
    }
    law_sums_are_no_less_than_each_value(plus, parts, sum);
    assert forall|i: int| 0 <= i < weights.len() implies sum.ge(#[trigger] weights[i]) by {
        let c = lemma_range_of(ranges, i, ranges.len() - 1);
        assert(parts[c].ge(weights[i]));
        assert(sum.ge(parts[c]));
    }
}

/// A goal is reached at the weight whose share of the total it lies in: past the
/// sum of the weights before it, and not past its own. A goal past the sum of all
/// weights is not reached.
pub proof fn law_each_weight_is_drawn_for_its_share<A: Fn(Scalar, Scalar) -> Scalar>(
    plus: A,
    value: spec_fn(Scalar) -> Option<int>,
    limit: int,
    weights: Seq<Scalar>,
    goal: Scalar,
    slot: Option<usize>,
)
    requires
        adds_exactly(plus, value, limit),
        orders_numbers(value),
        counts(value, weights),
        total(numbers_of(value, weights)) <= limit,
        weights.len() <= usize::MAX,
        value(goal) is Some,
        reaches(plus, weights, goal, slot),
    ensures
        slot matches Some(s) ==> {
            &&& s < weights.len()
            &&& value(goal)->0 <= total(numbers_of(value, weights).take(s + 1))
            &&& s == 0 || total(numbers_of(value, weights).take(s as int)) < value(goal)->0
        },
        slot is None <==> weights.len() == 0 || total(numbers_of(value, weights)) < value(goal)->0,
        forall|i: int|
            0 <= i < weights.len() && (i == 0 || total(#[trigger] numbers_of(value, weights).take(i)) < value(goal)->0)
                && value(goal)->0 <= total(numbers_of(value, weights).take(i + 1)) ==> slot == Some(i as usize),
{
    let numbers = numbers_of(value, weights);
    let n = weights.len() as int;
    assert(numbers.take(n) =~= numbers);
    match slot {
        Some(s) => {
            let some = weights.take(s + 1);
            let sums = choose|sums: Seq<Scalar>|
                {
                    &&& #[trigger] running_sums(plus, weights.take(s + 1), sums)
                    &&& sums[s + 1].ge(goal)
                    &&& forall|i: int| 0 < i <= s ==> !(#[trigger] sums[i]).ge(goal)
                };
            assert forall|i: int| 0 <= i < some.len() implies value(#[trigger] some[i]) is Some && value(some[i])->0
                >= 0 by {
                assert(some[i] == weights[i]);
            }
            assert forall|i: int| 0 <= i <= s + 1 implies value(#[trigger] sums[i]) == Some(total(numbers.take(i))) by {
                assert(numbers_of(value, some).take(i) =~= numbers.take(i));
                lemma_total_grows(numbers, i, n);
                lemma_running_sums_are_exact(plus, value, limit, some, sums, i);
            }
            if s > 0 {
                assert(!sums[s as int].ge(goal));
            }
            assert forall|i: int|
                0 <= i < n && (i == 0 || total(#[trigger] numbers.take(i)) < value(goal)->0) && value(goal)->0
                    <= total(numbers.take(i + 1)) implies slot == Some(i as usize) by {
                if i < s {
                    assert(!sums[i + 1].ge(goal));
                } else if i > s {
                    lemma_total_grows(numbers, s + 1, i);
                }
            }
            lemma_total_grows(numbers, s + 1, n);
        },
        None => {
            let sums = choose|sums: Seq<Scalar>|
                {
                    &&& #[trigger] running_sums(plus, weights, sums)
                    &&& forall|i: int| 0 < i <= weights.len() ==> !(#[trigger] sums[i]).ge(goal)
                };
            assert forall|i: int| 0 < i <= n implies total(#[trigger] numbers.take(i)) < value(goal)->0 by {
                lemma_total_grows(numbers, i, n);
                lemma_running_sums_are_exact(plus, value, limit, weights, sums, i);
                assert(!sums[i].ge(goal));
            }
            assert forall|i: int|
                0 <= i < n && (i == 0 || total(#[trigger] numbers.take(i)) < value(goal)->0) && value(goal)->0
                    <= total(numbers.take(i + 1)) implies slot == Some(i as usize) by {
                assert(total(numbers.take(i + 1)) < value(goal)->0);
            }
        },
    }
}

/// The next centroid is drawn in proportion to the gaps of all competing rows: a
/// random fraction is taken of the sum of all gaps, and the centroid is the row
/// whose share of that sum the fraction lies in.
pub proof fn law_centroids_are_drawn_by_the_gaps_of_all_rows<M, A, T, V>(
    ops: Arithmetic<M, A, T, V>,
    value: spec_fn(Scalar) -> Option<int>,
    limit: int,
    data: Seq<Scalar>,
    dim: nat,
    rows: Seq<usize>,
    parallelism: nat,
    i: int,
    step: SeedStep,
    next: SeedStep,
) where
    M: Fn(&[Scalar], &[Scalar]) -> Vec<Scalar>,
    A: Fn(Scalar, Scalar) -> Scalar,
    T: Fn(u32, Scalar) -> Scalar,
    V: Fn(Scalar, usize) -> Scalar,

    requires
        adds_exactly(ops.plus, value, limit),
        orders_numbers(value),
        forall|bits: u32, whole: Scalar, goal: Scalar|
            value(whole) is Some && #[trigger] call_ensures(ops.fraction, (bits, whole), goal) ==> value(goal) is Some
                && 0 <= value(goal)->0 <= value(whole)->0,
        seeding_continues(ops, data, dim, rows, parallelism, i, step, next),
        next.gaps.len() == rows.len() <= usize::MAX,
        0 <= i,
        (i + 1) * dim <= step.centroids.len(),
        forall|r: int| 0 <= r < rows.len() ==> (#[trigger] rows[r] + 1) * dim <= data.len(),
        counts(value, next.gaps),
        0 < total(numbers_of(value, next.gaps)) <= limit,
    ensures
        exists|whole: Scalar, goal: Scalar, s: int|
            {
                &&& value(whole) == Some(total(numbers_of(value, next.gaps)))
                &&& #[trigger] call_ensures(ops.fraction, (word_draw(step.state).0, whole), goal)
                &&& 0 <= s < rows.len()
                &&& s == 0 || total(numbers_of(value, next.gaps).take(s)) < value(goal)->0
                &&& value(goal)->0 <= total(numbers_of(value, next.gaps).take(s + 1))
                &&& next.centroids.subrange(i * dim, (i + 1) * dim) == data.subrange(
                    #[trigger] rows[s] * dim,
                    (rows[s] + 1) * dim,
                )
            },
{
    let whole = choose|whole: Scalar|
        {
            &&& #[trigger] summed_in_parts(ops.plus, next.gaps, parallelism, whole)
            &&& if zero().lt(whole) {
                let (bits, left) = word_draw(step.state);
                &&& next.state == left
                &&& exists|goal: Scalar, slot: Option<usize>|
                    {
                        &&& #[trigger] call_ensures(ops.fraction, (bits, whole), goal)
                        &&& #[trigger] reaches(ops.plus, next.gaps, goal, slot)
                        &&& slot matches Some(s) ==> s < rows.len()
                        &&& next.centroids == match slot {
                            Some(s) => with_row(step.centroids, dim, i, row(data, dim, rows[s as int] as int)),
                            None => step.centroids,
                        }
                    }
            } else {
                let (choice, left) = index_draw(step.state, rows.len() as usize, usize::BITS);
                &&& choice < rows.len()
                &&& next.state == left
                &&& next.centroids == with_row(step.centroids, dim, i, row(data, dim, rows[choice as int] as int))
            }
        };
    law_total_is_the_sum_of_all_weights(ops.plus, value, limit, next.gaps, parallelism, whole);
    assert(!zero().ge(whole));
    assert(zero().lt(whole));
    let bits = word_draw(step.state).0;
    let (goal, slot) = choose|goal: Scalar, slot: Option<usize>|
        {
            &&& #[trigger] call_ensures(ops.fraction, (bits, whole), goal)
            &&& #[trigger] reaches(ops.plus, next.gaps, goal, slot)
            &&& slot matches Some(s) ==> s < rows.len()
            &&& next.centroids == match slot {
                Some(s) => with_row(step.centroids, dim, i, row(data, dim, rows[s as int] as int)),
                None => step.centroids,
            }
        };
    law_each_weight_is_drawn_for_its_share(ops.plus, value, limit, next.gaps, goal, slot);
    let numbers = numbers_of(value, next.gaps);
    if next.gaps.len() == 0 {
        assert(numbers =~= Seq::<int>::empty());
    }
    let s = slot->0 as int;
    lemma_row_within(rows[s] + 1, dim as int, rows[s] as int);
    lemma_with_row(step.centroids, dim, i, row(data, dim, rows[s] as int), i);
    assert(call_ensures(ops.fraction, (word_draw(step.state).0, whole), goal));
}

/// Where no competing row has a gap, the next centroid is a copy of the row drawn
/// evenly for it.
pub proof fn law_without_gaps_rows_are_drawn_evenly<M, A, T, V>(
    ops: Arithmetic<M, A, T, V>,
    value: spec_fn(Scalar) -> Option<int>,
    limit: int,
    data: Seq<Scalar>,
    dim: nat,
    rows: Seq<usize>,
    parallelism: nat,
    i: int,
    step: SeedStep,
    next: SeedStep,
) where
    M: Fn(&[Scalar], &[Scalar]) -> Vec<Scalar>,
    A: Fn(Scalar, Scalar) -> Scalar,
    T: Fn(u32, Scalar) -> Scalar,
    V: Fn(Scalar, usize) -> Scalar,

    requires
        adds_exactly(ops.plus, value, limit),
        orders_numbers(value),
        seeding_continues(ops, data, dim, rows, parallelism, i, step, next),
        0 <= i,
        (i + 1) * dim <= step.centroids.len(),
        forall|r: int| 0 <= r < rows.len() ==> (#[trigger] rows[r] + 1) * dim <= data.len(),
        counts(value, next.gaps),
        total(numbers_of(value, next.gaps)) == 0 <= limit,
    ensures
        ({
            let (choice, left) = index_draw(step.state, rows.len() as usize, usize::BITS);
            &&& choice < rows.len()
            &&& next.state == left
            &&& next.centroids.subrange(i * dim, (i + 1) * dim) == data.subrange(
                rows[choice as int] * dim,
                (rows[choice as int] + 1) * dim,
            )
        }),
{
    let whole = choose|whole: Scalar|
        {
            &&& #[trigger] summed_in_parts(ops.plus, next.gaps, parallelism, whole)
            &&& if zero().lt(whole) {
                let (bits, left) = word_draw(step.state);
                &&& next.state == left
                &&& exists|goal: Scalar, slot: Option<usize>|
                    {
                        &&& #[trigger] call_ensures(ops.fraction, (bits, whole), goal)
                        &&& #[trigger] reaches(ops.plus, next.gaps, goal, slot)
                        &&& slot matches Some(s) ==> s < rows.len()
                        &&& next.centroids == match slot {
                            Some(s) => with_row(step.centroids, dim, i, row(data, dim, rows[s as int] as int)),
                            None => step.centroids,
                        }
                    }
            } else {
                let (choice, left) = index_draw(step.state, rows.len() as usize, usize::BITS);
                &&& choice < rows.len()
                &&& next.state == left
                &&& next.centroids == with_row(step.centroids, dim, i, row(data, dim, rows[choice as int] as int))
            }
        };
    law_total_is_the_sum_of_all_weights(ops.plus, value, limit, next.gaps, parallelism, whole);
    assert(zero().ge(whole));
    assert(!zero().lt(whole));
    let r = rows[index_draw(step.state, rows.len() as usize, usize::BITS).0 as int] as int;
    lemma_row_within(r + 1, dim as int, r);
    lemma_with_row(step.centroids, dim, i, row(data, dim, r), i);
}

/// The size of a cluster is the number of rows that are assigned to it.
pub proof fn law_members_are_counted(picks: Seq<usize>, cluster: int, upto: int)
    requires
        0 <= upto <= picks.len(),
    ensures
        members(picks, cluster, upto) == total(
            Seq::new(
                upto as nat,
                |i: int|
                    if picks[i] == cluster {
                        1int
                    } else {
                        0int
                    },
            ),
        ),
    decreases upto,
{
    let ones = Seq::new(
        upto as nat,
        |i: int|
            if picks[i] == cluster {
                1int
            } else {
                0int
            },
    );
    if upto == 0 {
        assert(ones =~= Seq::<int>::empty());
    } else {
        law_members_are_counted(picks, cluster, upto - 1);
        assert(ones.drop_last() =~= Seq::new(
            (upto - 1) as nat,
            |i: int|
                if picks[i] == cluster {
                    1int
                } else {
                    0int
                },
        ));
    }
}

proof fn lemma_member_values_are_counted(
    value: spec_fn(Scalar) -> Option<int>,
    data: Seq<Scalar>,
    dim: nat,
    picks: Seq<usize>,
    cluster: int,
    d: int,
    upto: int,
)
    requires
        0 <= upto <= picks.len(),
        whole(value, data),
        data.len() == picks.len() * dim,
        0 <= d < dim,
    ensures
        member_values(data, dim, picks, cluster, d, upto).len() == members(picks, cluster, upto),
        whole(value, member_values(data, dim, picks, cluster, d, upto)),
        total(magnitudes(numbers_of(value, member_values(data, dim, picks, cluster, d, upto)))) == total(
            Seq::new(
                upto as nat,
                |i: int|
                    if picks[i] == cluster {
                        unsigned(value(data[i * dim + d])->0)
                    } else {
                        0int
                    },
            ),
        ),
        total(numbers_of(value, member_values(data, dim, picks, cluster, d, upto))) == total(
            Seq::new(
                upto as nat,
                |i: int|
                    if picks[i] == cluster {
                        value(data[i * dim + d])->0
                    } else {
                        0int
                    },
            ),
        ),
    decreases upto,
{
    let values = member_values(data, dim, picks, cluster, d, upto);
    let shares = Seq::new(
        upto as nat,
        |i: int|
            if picks[i] == cluster {
                value(data[i * dim + d])->0
            } else {
                0int
            },
    );
    let sizes = Seq::new(
        upto as nat,
        |i: int|
            if picks[i] == cluster {
                unsigned(value(data[i * dim + d])->0)
            } else {
                0int
            },
    );
    if upto == 0 {
        assert(numbers_of(value, values) =~= Seq::<int>::empty());
        assert(magnitudes(numbers_of(value, values)) =~= Seq::<int>::empty());
        assert(sizes =~= Seq::<int>::empty());
        assert(shares =~= Seq::<int>::empty());
    } else {
        lemma_member_values_are_counted(value, data, dim, picks, cluster, d, upto - 1);
        assert(shares.drop_last() =~= Seq::new(
            (upto - 1) as nat,
            |i: int|
                if picks[i] == cluster {
                    value(data[i * dim + d])->0
                } else {
                    0int
                },
        ));
        assert(sizes.drop_last() =~= Seq::new(
            (upto - 1) as nat,
            |i: int|
                if picks[i] == cluster {
                    unsigned(value(data[i * dim + d])->0)
                } else {
                    0int
                },
        ));
        let front = member_values(data, dim, picks, cluster, d, upto - 1);
        if picks[upto - 1] == cluster {
            lemma_cell(picks.len() as int, dim, upto - 1, d);
            assert(value(data[(upto - 1) * dim + d]) is Some);
            assert(values == front.push(data[(upto - 1) * dim + d]));
            assert(numbers_of(value, values).drop_last() =~= numbers_of(value, front));
            assert(magnitudes(numbers_of(value, values)).drop_last() =~= magnitudes(numbers_of(value, front)));
            assert forall|i: int| 0 <= i < values.len() implies value(#[trigger] values[i]) is Some by {
                if i < front.len() {
                    assert(values[i] == front[i]);
                }
            }
        } else {
            assert(values == front);
        }
    }
}

/// Each coordinate of a centroid is the sum of that coordinate over the rows of
/// its cluster, all of them and no others, divided by their number. A cluster
/// without rows has its centroid at zero.
pub proof fn law_centroids_are_the_means_of_all_their_rows<A, V>(
    plus: A,
    divide: V,
    value: spec_fn(Scalar) -> Option<int>,
    limit: int,
    data: Seq<Scalar>,
    dim: nat,
    picks: Seq<usize>,
    k: nat,
    centroids: Seq<Scalar>,
    j: int,
    d: int,
) where A: Fn(Scalar, Scalar) -> Scalar, V: Fn(Scalar, usize) -> Scalar
    requires
        adds_signed_exactly(plus, value, limit),
        whole(value, data),
        data.len() == picks.len() * dim,
        picks.len() <= usize::MAX,
        means(plus, divide, data, dim, picks, k, centroids),
        0 <= j < k,
        0 <= d < dim,
        total(
            Seq::new(
                picks.len(),
                |i: int|
                    if picks[i] == j {
                        unsigned(value(data[i * dim + d])->0)
                    } else {
                        0int
                    },
            ),
        ) <= limit,
    ensures
        centroids.len() == k * dim,
        (forall|i: int| 0 <= i < picks.len() ==> #[trigger] picks[i] != j) ==> centroids[j * dim + d] == zero(),
        (exists|i: int| 0 <= i < picks.len() && #[trigger] picks[i] == j) ==> exists|sum: Scalar, count: usize|
            {
                &&& value(sum) == Some(
                    total(
                        Seq::new(
                            picks.len(),
                            |i: int|
                                if picks[i] == j {
                                    value(data[i * dim + d])->0
                                } else {
                                    0int
                                },
                        ),
                    ),
                )
                &&& count == total(
                    Seq::new(
                        picks.len(),
                        |i: int|
                            if picks[i] == j {
                                1int
                            } else {
                                0int
                            },
                    ),
                )
                &&& #[trigger] call_ensures(divide, (sum, count), centroids[j * dim + d])
            },
{
    let n = picks.len() as int;
    let values = member_values(data, dim, picks, j, d, n);
    lemma_member_values_are_counted(value, data, dim, picks, j, d, n);
    law_members_are_counted(picks, j, n);
    let ones = Seq::new(
        picks.len(),
        |i: int|
            if picks[i] == j {
                1int
            } else {
                0int
            },
    );
    assert(mean_of(plus, divide, values, centroids[cell(dim, j, d)]));
    assert(ones.take(n) =~= ones);
    if forall|i: int| 0 <= i < picks.len() ==> #[trigger] picks[i] != j {
        assert(values.len() == 0) by {
            lemma_no_members(picks, j, n);
        }
    }
    if exists|i: int| 0 <= i < picks.len() && #[trigger] picks[i] == j {
        let i = choose|i: int| 0 <= i < picks.len() && #[trigger] picks[i] == j;
        lemma_total_grows(ones, 0, i);
        lemma_total_grows(ones, i + 1, n);
        assert(ones.take(i + 1).drop_last() =~= ones.take(i));
        assert(values.len() > 0);
        let sum = choose|sum: Scalar| #[trigger]
            summed(plus, values, sum) && call_ensures(divide, (sum, values.len() as usize), centroids[cell(dim, j, d)]);
        law_signed_sums_are_exact(plus, value, limit, values, sum);
        lemma_members_within(picks, j, n);
        assert(call_ensures(divide, (sum, values.len() as usize), centroids[j * dim + d]));
    }
}

proof fn lemma_no_members(picks: Seq<usize>, cluster: int, upto: int)
    requires
        0 <= upto <= picks.len(),
        forall|i: int| 0 <= i < picks.len() ==> #[trigger] picks[i] != cluster,
    ensures
        members(picks, cluster, upto) == 0,
    decreases upto,
{
    if upto > 0 {
        lemma_no_members(picks, cluster, upto - 1);
        assert(picks[upto - 1] != cluster);
    }
}

proof fn lemma_members_within(picks: Seq<usize>, cluster: int, upto: int)
    requires
        0 <= upto,
    ensures
        members(picks, cluster, upto) <= upto,
    decreases upto,
{
    if upto > 0 {
        lemma_members_within(picks, cluster, upto - 1);
    }
}

} // verus!
