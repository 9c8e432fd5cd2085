//! Choosing the first centroids: k-means++.
//!
//! The first centroid is a random row. Each further one is a row drawn with a
//! probability proportional to its distance from the centroids chosen so far.

use crate::arithmetic::{adds, distances, measured, measures, running_sums, sum_range, summed, Arithmetic};
use crate::embeddings::{lemma_row_within, lemma_whole_rows, row, row_of};
use crate::matrix::{gather, gathered, lemma_with_row, set_row, with_row, zero_vector, zeros};
use crate::ranges::{law_shares_partition, shared_out, worker_ranges};
use crate::rng::{distinct_below, draw_index, draw_sample, draw_word, index_draw, rng_state, sample_draw, word_draw};
use crate::scalar::{zero, Scalar};
use rand::rngs::StdRng;
use vstd::prelude::*;

verus! {

/// At most this many rows compete to become a centroid, unless there are more
/// clusters.
pub const INIT_ROWS: usize = 50_000;

/// How many of `n` rows compete to become one of `k` centroids.
pub open spec fn init_size(n: nat, k: nat) -> nat {
    let capped = if n < INIT_ROWS {
        n
    } else {
        INIT_ROWS as nat
    };
    if capped < k {
        k
    } else {
        capped
    }
}

/// The rows that compete, drawn in `state`, and the state left: all rows where
/// there are no more than compete, else a sample.
pub open spec fn init_rows(state: Seq<u32>, n: nat, k: nat) -> (Seq<usize>, Seq<u32>) {
    if init_size(n, k) == n {
        (Seq::new(n, |i: int| i as usize), state)
    } else {
        sample_draw(state, n as usize, init_size(n, k) as usize)
    }
}

/// All rows compete to become a centroid where there are at most fifty thousand,
/// else fifty thousand, or one for each centroid where those are more.
pub proof fn law_up_to_fifty_thousand_rows_compete(n: nat, k: nat)
    requires
        k <= n,
    ensures
        n <= 50_000 ==> init_size(n, k) == n,
        n > 50_000 && k <= 50_000 ==> init_size(n, k) == 50_000,
        k > 50_000 ==> init_size(n, k) == k,
{
}

/// Where all rows compete, they do so in order and without a draw.
pub proof fn law_all_rows_compete_in_order(state: Seq<u32>, n: nat, k: nat)
    requires
        k <= n <= 50_000,
    ensures
        init_rows(state, n, k).0.len() == n,
        forall|i: int| 0 <= i < n ==> #[trigger] init_rows(state, n, k).0[i] == i,
        init_rows(state, n, k).1 == state,
{
}

/// Chooses the rows that compete to become one of `k` centroids.
pub fn choose_init_rows(rng: &mut StdRng, n: usize, k: usize) -> (r: Vec<usize>)
    requires
        0 < k <= n,
    ensures
        (r@, rng_state(*final(rng))) == init_rows(rng_state(*old(rng)), n as nat, k as nat),
        distinct_below(r@, n as nat, init_size(n as nat, k as nat)),
{
    let capped: usize = if n < INIT_ROWS {
        n
    } else {
        INIT_ROWS
    };
    let size: usize = if capped < k {
        k
    } else {
        capped
    };
    if size == n {
        let mut rows: Vec<usize> = Vec::with_capacity(n);
        let mut i: usize = 0;
        while i < n
            invariant
                i <= n,
                rows@.len() == i,
                forall|j: int| 0 <= j < i ==> #[trigger] rows@[j] == j,
            decreases n - i,
        {
            rows.push(i);
            i = i + 1;
        }
        assert(rows@ =~= Seq::new(n as nat, |i: int| i as usize));
        rows
    } else {
        draw_sample(rng, n, size)
    }
}

/// The lesser of two scalars at each position; the one in `kept` unless that in
/// `offered` is below it.
pub open spec fn lesser(kept: Seq<Scalar>, offered: Seq<Scalar>) -> Seq<Scalar> {
    Seq::new(
        kept.len(),
        |i: int|
            if offered[i].lt(kept[i]) {
                offered[i]
            } else {
                kept[i]
            },
    )
}

/// Lowers each of `kept` to the scalar at the same position of `offered`, where
/// that is below it.
pub fn lower_to(kept: &mut Vec<Scalar>, offered: &[Scalar])
    requires
        old(kept)@.len() == offered@.len(),
    ensures
        final(kept)@ == lesser(old(kept)@, offered@),
{
    let ghost before = kept@;
    let mut i: usize = 0;
    while i < kept.len()
        invariant
            i <= kept@.len(),
            kept@.len() == before.len(),
            before.len() == offered@.len(),
            forall|j: int| 0 <= j < i ==> #[trigger] kept@[j] == lesser(before, offered@)[j],
            forall|j: int| i <= j < kept@.len() ==> #[trigger] kept@[j] == before[j],
        decreases kept@.len() - i,
    {
        if offered[i].less(kept[i]) {
            kept.set(i, offered[i]);
        }
        i = i + 1;
    }
    assert(kept@ =~= lesser(before, offered@));
}

/// Whether `total` is a sum of `weights`, added up in one part for each worker
/// of a machine that runs `parallelism` threads at once, and then over the parts.
pub open spec fn summed_in_parts<A: Fn(Scalar, Scalar) -> Scalar>(
    plus: A,
    weights: Seq<Scalar>,
    parallelism: nat,
    total: Scalar,
) -> bool {
    exists|ranges: Seq<(usize, usize)>, parts: Seq<Scalar>|
        {
            &&& #[trigger] shared_out(ranges, weights.len(), parallelism)
            &&& parts.len() == ranges.len()
            &&& forall|c: int|
                0 <= c < ranges.len() ==> summed(
                    plus,
                    weights.subrange(ranges[c].0 as int, ranges[c].1 as int),
                    #[trigger] parts[c],
                )
            &&& #[trigger] summed(plus, parts, total)
        }
}

/// The sum of `weights`, in one part for each worker.
pub fn sum_in_parts<A: Fn(Scalar, Scalar) -> Scalar>(plus: &A, weights: &[Scalar], parallelism: usize) -> (r: Scalar)
    requires
        adds(*plus),
    ensures
        summed_in_parts(*plus, weights@, parallelism as nat, r),
{
    let ranges = worker_ranges(weights.len(), parallelism);
    let mut parts: Vec<Scalar> = Vec::with_capacity(ranges.len());
    let mut c: usize = 0;
    proof {
        law_shares_partition(ranges@, weights@.len(), parallelism as nat);
        assert forall|c: int| 0 <= c < ranges@.len() implies (#[trigger] ranges@[c]).1 <= weights@.len() by {
            lemma_ends_ascend(ranges@, c);
        }
    }
    while c < ranges.len()
        invariant
            adds(*plus),
            c <= ranges@.len(),
            parts@.len() == c,
            forall|c: int|
                0 <= c < ranges@.len() ==> (#[trigger] ranges@[c]).0 < ranges@[c].1 && ranges@[c].1 <= weights@.len(),
            forall|b: int|
                0 <= b < c ==> summed(
                    *plus,
                    weights@.subrange(ranges@[b].0 as int, ranges@[b].1 as int),
                    #[trigger] parts@[b],
                ),
        decreases ranges@.len() - c,
    {
        let (from, to) = ranges[c];
        parts.push(sum_range(plus, weights, from, to));
        c = c + 1;
    }
    let total = sum_range(plus, parts.as_slice(), 0, parts.len());
    assert(parts@.subrange(0, parts@.len() as int) =~= parts@);
    total
}

/// No range ends past the last.
pub proof fn lemma_ends_ascend(ranges: Seq<(usize, usize)>, c: int)
    requires
        0 <= c < ranges.len(),
        forall|c: int| 0 <= c < ranges.len() ==> (#[trigger] ranges[c]).0 < ranges[c].1,
        forall|c: int| 0 <= c < ranges.len() - 1 ==> (#[trigger] ranges[c]).1 == ranges[c + 1].0,
    ensures
        ranges[c].1 <= ranges.last().1,
    decreases ranges.len() - c,
{
    if c < ranges.len() - 1 {
        lemma_ends_ascend(ranges, c + 1);
        assert(ranges[c].1 == ranges[c + 1].0);
        assert(ranges[c + 1].0 < ranges[c + 1].1);
    }
}

/// Whether `slot` is the first position at which the running sum of `weights`
/// is at least `goal`, or `None` where no running sum gets there.
pub open spec fn reaches<A: Fn(Scalar, Scalar) -> Scalar>(
    plus: A,
    weights: Seq<Scalar>,
    goal: Scalar,
    slot: Option<usize>,
) -> bool {
    match slot {
        Some(s) => s < weights.len() && exists|sums: Seq<Scalar>|
            {
                &&& #[trigger] running_sums(plus, weights.take(s + 1), sums)
                &&& sums[s + 1].ge(goal)
                &&& forall|i: int| 0 < i <= s ==> !(#[trigger] sums[i]).ge(goal)
            },
        None => exists|sums: Seq<Scalar>|
            {
                &&& #[trigger] running_sums(plus, weights, sums)
                &&& forall|i: int| 0 < i <= weights.len() ==> !(#[trigger] sums[i]).ge(goal)
            },
    }
}

/// The first position at which the running sum of `weights` is at least `goal`.
pub fn slot_reaching<A: Fn(Scalar, Scalar) -> Scalar>(plus: &A, weights: &[Scalar], goal: Scalar) -> (r: Option<usize>)
    requires
        adds(*plus),
    ensures
        reaches(*plus, weights@, goal, r),
        r matches Some(s) ==> s < weights@.len(),
{
    let mut sum: Scalar = zero();
    let ghost mut sums: Seq<Scalar> = seq![zero()];
    let mut s: usize = 0;
    while s < weights.len()
        invariant
            adds(*plus),
            s <= weights@.len(),
            running_sums(*plus, weights@.take(s as int), sums),
            sum == sums[s as int],
            forall|i: int| 0 < i <= s ==> !(#[trigger] sums[i]).ge(goal),
        decreases weights@.len() - s,
    {
        let weight: Scalar = weights[s];
        let next: Scalar = plus(sum, weight);
        let ghost longer = sums.push(next);
        proof {
            let taken = weights@.take(s + 1);
            assert forall|i: int| 0 <= i < taken.len() implies call_ensures(
                *plus,
                (longer[i], #[trigger] taken[i]),
                longer[i + 1],
            ) by {
                if i < s {
                    assert(call_ensures(*plus, (sums[i], weights@.take(s as int)[i]), sums[i + 1]));
                }
            }
            assert(running_sums(*plus, taken, longer));
            sums = longer;
        }
        sum = next;
        if sum.at_least(goal) {
            assert(running_sums(*plus, weights@.take(s + 1), sums));
            return Some(s);
        }
        s = s + 1;
    }
    assert(weights@.take(s as int) =~= weights@);
    assert(running_sums(*plus, weights@, sums));
    None
}

/// How far seeding has come: the centroids, the distance of each competing row
/// from the nearest centroid, and the state of the random generator.
pub struct SeedStep {
    pub centroids: Seq<Scalar>,
    pub gaps: Seq<Scalar>,
    pub state: Seq<u32>,
}

/// Whether `step` is the state after the first centroid, a row drawn from `rows`
/// in `state`, is chosen.
pub open spec fn seeding_starts<M: Fn(&[Scalar], &[Scalar]) -> Vec<Scalar>>(
    measure: M,
    data: Seq<Scalar>,
    dim: nat,
    k: nat,
    rows: Seq<usize>,
    state: Seq<u32>,
    step: SeedStep,
) -> bool {
    let (choice, left) = index_draw(state, rows.len() as usize, usize::BITS);
    let first = row(data, dim, rows[choice as int] as int);
    &&& choice < rows.len()
    &&& step.centroids == with_row(zeros(k * dim), dim, 0, first)
    &&& measured(measure, row(step.centroids, dim, 0), gathered(data, dim, rows), step.gaps)
    &&& step.state == left
}

/// The centroid before the `i`-th.
pub open spec fn centroid_before(centroids: Seq<Scalar>, dim: nat, i: int) -> Seq<Scalar> {
    row(centroids, dim, i - 1)
}

/// Whether `next` is the state after centroid `i` is chosen in `step`.
///
/// The gaps first shrink to the distances from centroid `i - 1`. Where their sum
/// is positive, the row is that at which their running sum reaches a random
/// fraction of it, and the centroid stays zero if none does. Otherwise the row
/// is drawn evenly.
pub open spec fn seeding_continues<M, A, T, V>(
    ops: Arithmetic<M, A, T, V>,
    data: Seq<Scalar>,
    dim: nat,
    rows: Seq<usize>,
    parallelism: nat,
    i: int,
    step: SeedStep,
    next: SeedStep,
) -> bool where
    M: Fn(&[Scalar], &[Scalar]) -> Vec<Scalar>,
    A: Fn(Scalar, Scalar) -> Scalar,
    T: Fn(u32, Scalar) -> Scalar,
    V: Fn(Scalar, usize) -> Scalar,
 {
    &&& exists|offered: Seq<Scalar>|
        {
            &&& #[trigger] measured(ops.measure, centroid_before(step.centroids, dim, i), gathered(data, dim, rows), offered)
            &&& next.gaps == lesser(step.gaps, offered)
        }
    &&& exists|total: Scalar|
        {
            &&& #[trigger] summed_in_parts(ops.plus, next.gaps, parallelism, total)
            &&& if zero().lt(total) {
                let (bits, left) = word_draw(step.state);
                &&& next.state == left
                &&& exists|goal: Scalar, slot: Option<usize>|
                    {
                        &&& #[trigger] call_ensures(ops.fraction, (bits, total), goal)
                        &&& #[trigger] reaches(ops.plus, next.gaps, goal, slot)
                        &&& slot matches Some(s) ==> s < rows.len()
                        &&& next.centroids == match slot {
                            Some(s) => with_row(step.centroids, dim, i, row(data, dim, rows[s as int] as int)),
                            None => step.centroids,
                        }
                    }
            } else {
                let (choice, left) = index_draw(step.state, rows.len() as usize, usize::BITS);
                &&& choice < rows.len()
                &&& next.state == left
                &&& next.centroids == with_row(step.centroids, dim, i, row(data, dim, rows[choice as int] as int))
            }
        }
}

/// Whether step `i` of `steps` follows from the one before it.
pub open spec fn seeding_follows<M, A, T, V>(
    ops: Arithmetic<M, A, T, V>,
    data: Seq<Scalar>,
    dim: nat,
    rows: Seq<usize>,
    parallelism: nat,
    steps: Seq<SeedStep>,
    i: int,
) -> bool where
    M: Fn(&[Scalar], &[Scalar]) -> Vec<Scalar>,
    A: Fn(Scalar, Scalar) -> Scalar,
    T: Fn(u32, Scalar) -> Scalar,
    V: Fn(Scalar, usize) -> Scalar,
 {
    seeding_continues(ops, data, dim, rows, parallelism, i, steps[i - 1], steps[i])
}

/// Whether `steps` is a run of seeding `k` centroids that starts in `state`, one
/// step for each centroid.
pub open spec fn seeding_runs<M, A, T, V>(
    ops: Arithmetic<M, A, T, V>,
    data: Seq<Scalar>,
    dim: nat,
    k: nat,
    rows: Seq<usize>,
    parallelism: nat,
    state: Seq<u32>,
    steps: Seq<SeedStep>,
) -> bool where
    M: Fn(&[Scalar], &[Scalar]) -> Vec<Scalar>,
    A: Fn(Scalar, Scalar) -> Scalar,
    T: Fn(u32, Scalar) -> Scalar,
    V: Fn(Scalar, usize) -> Scalar,
 {
    &&& steps.len() == k
    &&& seeding_starts(ops.measure, data, dim, k, rows, state, steps[0])
    &&& forall|i: int|
        0 < i < k ==> #[trigger] seeding_follows(ops, data, dim, rows, parallelism, steps, i)
}

/// Whether `centroids` are `k` first centroids for the rows of `data`, drawn in
/// `state` from different rows: each is a row, or zero.
pub open spec fn seeded_centroids<M, A, T, V>(
    ops: Arithmetic<M, A, T, V>,
    data: Seq<Scalar>,
    dim: nat,
    k: nat,
    parallelism: nat,
    state: Seq<u32>,
    centroids: Seq<Scalar>,
) -> bool where
    M: Fn(&[Scalar], &[Scalar]) -> Vec<Scalar>,
    A: Fn(Scalar, Scalar) -> Scalar,
    T: Fn(u32, Scalar) -> Scalar,
    V: Fn(Scalar, usize) -> Scalar,
 {
    let drawn = init_rows(state, data.len() / dim, k);
    &&& distinct_below(drawn.0, data.len() / dim, init_size(data.len() / dim, k))
    &&& rows_or_zero(data, dim, centroids)
    &&& exists|steps: Seq<SeedStep>| #[trigger]
        seeding_runs(ops, data, dim, k, drawn.0, parallelism, drawn.1, steps) && centroids == steps.last().centroids
}

/// Whether `vector` is a row of `data`, or zero.
pub open spec fn row_or_zero(data: Seq<Scalar>, dim: nat, vector: Seq<Scalar>) -> bool {
    vector == zeros(dim) || exists|r: int| 0 <= r && (r + 1) * dim <= data.len() && vector == #[trigger] row(data, dim, r)
}

/// Whether each row of `centroids` is a row of `data`, or zero.
pub open spec fn rows_or_zero(data: Seq<Scalar>, dim: nat, centroids: Seq<Scalar>) -> bool {
    forall|j: int|
        0 <= j && (j + 1) * dim <= centroids.len() ==> row_or_zero(data, dim, #[trigger] row(centroids, dim, j))
}

proof fn lemma_rows_or_zero_kept(data: Seq<Scalar>, dim: nat, centroids: Seq<Scalar>, i: int, r: int)
    requires
        rows_or_zero(data, dim, centroids),
        0 <= i,
        (i + 1) * dim <= centroids.len(),
        0 <= r,
        (r + 1) * dim <= data.len(),
    ensures
        rows_or_zero(data, dim, with_row(centroids, dim, i, row(data, dim, r))),
{
    let vector = row(data, dim, r);
    let replaced = with_row(centroids, dim, i, vector);
    lemma_row_within(r + 1, dim as int, r);
    assert forall|j: int| 0 <= j && (j + 1) * dim <= replaced.len() implies row_or_zero(
        data,
        dim,
        #[trigger] row(replaced, dim, j),
    ) by {
        lemma_with_row(centroids, dim, i, vector, j);
        if i != j {
            assert(row_or_zero(data, dim, row(centroids, dim, j)));
        }
    }
}

/// Chooses centroid `i`, given those before it.
fn seed_next<M, A, T, V>(
    data: &[Scalar],
    dim: usize,
    rows: &[usize],
    pool: &[Scalar],
    i: usize,
    centroids: &mut Vec<Scalar>,
    gaps: &mut Vec<Scalar>,
    rng: &mut StdRng,
    parallelism: usize,
    ops: &Arithmetic<M, A, T, V>,
) where
    M: Fn(&[Scalar], &[Scalar]) -> Vec<Scalar>,
    A: Fn(Scalar, Scalar) -> Scalar,
    T: Fn(u32, Scalar) -> Scalar,
    V: Fn(Scalar, usize) -> Scalar,

    requires
        ops.defined(),
        dim > 0,
        i > 0,
        (i + 1) * dim <= old(centroids)@.len(),
        rows@.len() > 0,
        forall|j: int| 0 <= j < rows@.len() ==> (#[trigger] rows@[j] + 1) * dim <= data@.len(),
        pool@ == gathered(data@, dim as nat, rows@),
        pool@.len() == rows@.len() * dim,
        old(gaps)@.len() == rows@.len(),
        rows_or_zero(data@, dim as nat, old(centroids)@),
    ensures
        rows_or_zero(data@, dim as nat, final(centroids)@),
        seeding_continues(
            *ops,
            data@,
            dim as nat,
            rows@,
            parallelism as nat,
            i as int,
            (SeedStep { centroids: old(centroids)@, gaps: old(gaps)@, state: rng_state(*old(rng)) }),
            (SeedStep { centroids: final(centroids)@, gaps: final(gaps)@, state: rng_state(*final(rng)) }),
        ),
        final(centroids)@.len() == old(centroids)@.len(),
        final(gaps)@.len() == old(gaps)@.len(),
{
    proof {
        lemma_row_within(i + 1, dim as int, i - 1);
        lemma_whole_rows(rows@.len() as int, dim as int);
        assert(rows@.len() == rows.len());
    }
    let offered = distances(&ops.measure, row_of(centroids.as_slice(), dim, i - 1), pool);
    lower_to(gaps, offered.as_slice());
    let total = sum_in_parts(&ops.plus, gaps.as_slice(), parallelism);
    assert(summed_in_parts(ops.plus, gaps@, parallelism as nat, total));
    if zero().less(total) {
        let bits = draw_word(rng);
        let goal: Scalar = (ops.fraction)(bits, total);
        let slot = slot_reaching(&ops.plus, gaps.as_slice(), goal);
        assert(call_ensures(ops.fraction, (bits, total), goal) && reaches(ops.plus, gaps@, goal, slot));
        match slot {
            Some(s) => {
                proof {
                    lemma_rows_or_zero_kept(data@, dim as nat, centroids@, i as int, rows@[s as int] as int);
                }
                set_row(centroids, dim, i, row_of(data, dim, rows[s]));
            },
            None => {},
        }
    } else {
        let choice = draw_index(rng, rows.len());
        proof {
            lemma_rows_or_zero_kept(data@, dim as nat, centroids@, i as int, rows@[choice as int] as int);
        }
        set_row(centroids, dim, i, row_of(data, dim, rows[choice]));
    }
    proof {
        let step = SeedStep { centroids: old(centroids)@, gaps: old(gaps)@, state: rng_state(*old(rng)) };
        let next = SeedStep { centroids: centroids@, gaps: gaps@, state: rng_state(*rng) };
        assert(next.gaps == lesser(step.gaps, offered@));
        assert(measured(
            ops.measure,
            centroid_before(step.centroids, dim as nat, i as int),
            gathered(data@, dim as nat, rows@),
            offered@,
        ));
        assert(seeding_continues(*ops, data@, dim as nat, rows@, parallelism as nat, i as int, step, next));
    }
}

/// Chooses the first of `k` centroids; the others are zero.
fn seed_first<M: Fn(&[Scalar], &[Scalar]) -> Vec<Scalar>>(
    data: &[Scalar],
    dim: usize,
    k: usize,
    rows: &[usize],
    pool: &[Scalar],
    rng: &mut StdRng,
    measure: &M,
) -> (r: (Vec<Scalar>, Vec<Scalar>))
    requires
        measures(*measure),
        dim > 0,
        k > 0,
        k * dim <= usize::MAX,
        rows@.len() > 0,
        forall|j: int| 0 <= j < rows@.len() ==> (#[trigger] rows@[j] + 1) * dim <= data@.len(),
        pool@ == gathered(data@, dim as nat, rows@),
        pool@.len() == rows@.len() * dim,
    ensures
        rows_or_zero(data@, dim as nat, r.0@),
        seeding_starts(
            *measure,
            data@,
            dim as nat,
            k as nat,
            rows@,
            rng_state(*old(rng)),
            (SeedStep { centroids: r.0@, gaps: r.1@, state: rng_state(*final(rng)) }),
        ),
        r.0@.len() == k * dim,
        r.1@.len() == rows@.len(),
{
    proof {
        lemma_whole_rows(rows@.len() as int, dim as int);
        lemma_row_within(k as int, dim as int, 0);
        assert(rows@.len() == rows.len());
    }
    let mut centroids = zero_vector(k * dim);
    let choice = draw_index(rng, rows.len());
    proof {
        let none = centroids@;
        assert forall|j: int| 0 <= j && (j + 1) * dim <= none.len() implies row_or_zero(
            data@,
            dim as nat,
            #[trigger] row(none, dim as nat, j),
        ) by {
            lemma_row_within(j + 1, dim as int, j);
            assert(row(none, dim as nat, j) =~= zeros(dim as nat));
        }
        lemma_rows_or_zero_kept(data@, dim as nat, none, 0, rows@[choice as int] as int);
    }
    set_row(&mut centroids, dim, 0, row_of(data, dim, rows[choice]));
    let gaps = distances(measure, row_of(centroids.as_slice(), dim, 0), pool);
    proof {
        let step = SeedStep { centroids: centroids@, gaps: gaps@, state: rng_state(*rng) };
        assert(seeding_starts(*measure, data@, dim as nat, k as nat, rows@, rng_state(*old(rng)), step));
    }
    (centroids, gaps)
}

/// Chooses the first `k` centroids.
pub fn seed_centroids<M, A, T, V>(
    data: &[Scalar],
    dim: usize,
    k: usize,
    rng: &mut StdRng,
    parallelism: usize,
    ops: &Arithmetic<M, A, T, V>,
) -> (r: Vec<Scalar>) where
    M: Fn(&[Scalar], &[Scalar]) -> Vec<Scalar>,
    A: Fn(Scalar, Scalar) -> Scalar,
    T: Fn(u32, Scalar) -> Scalar,
    V: Fn(Scalar, usize) -> Scalar,

    requires
        ops.defined(),
        dim > 0,
        data@.len() % (dim as nat) == 0,
        0 < k <= data@.len() / (dim as nat),
    ensures
        seeded_centroids(
            *ops,
            data@,
            dim as nat,
            k as nat,
            parallelism as nat,
            rng_state(*old(rng)),
            r@,
        ),
        r@.len() == k * dim,
        rows_or_zero(data@, dim as nat, r@),
{
    let n: usize = data.len() / dim;
    proof {
        crate::embeddings::lemma_rows_of(data@.len() as int, dim as int);
        lemma_row_within(n as int, dim as int, k - 1);
    }
    let ghost state0 = rng_state(*rng);
    let rows = choose_init_rows(rng, n, k);
    let ghost left = rng_state(*rng);
    proof {
        assert forall|i: int| 0 <= i < rows@.len() implies (#[trigger] rows@[i] + 1) * dim <= data@.len() by {
            lemma_row_within(n as int, dim as int, rows@[i] as int);
        }
    }
    let pool = gather(data, dim, rows.as_slice());
    let (mut centroids, mut gaps) = seed_first(data, dim, k, rows.as_slice(), pool.as_slice(), rng, &ops.measure);
    let ghost mut steps: Seq<SeedStep> = seq![
        SeedStep { centroids: centroids@, gaps: gaps@, state: rng_state(*rng) },
    ];
    let mut i: usize = 1;
    while i < k
        invariant
            ops.defined(),
            dim > 0,
            1 <= i <= k,
            centroids@.len() == k * dim,
            rows_or_zero(data@, dim as nat, centroids@),
            rows@.len() > 0,
            pool@ == gathered(data@, dim as nat, rows@),
            pool@.len() == rows@.len() * dim,
            gaps@.len() == rows@.len(),
            forall|i: int| 0 <= i < rows@.len() ==> (#[trigger] rows@[i] + 1) * dim <= data@.len(),
            steps.len() == i,
            seeding_starts(ops.measure, data@, dim as nat, k as nat, rows@, left, steps[0]),
            forall|j: int|
                0 < j < i ==> #[trigger] seeding_follows(
                    *ops,
                    data@,
                    dim as nat,
                    rows@,
                    parallelism as nat,
                    steps,
                    j,
                ),
            steps.last() == (SeedStep { centroids: centroids@, gaps: gaps@, state: rng_state(*rng) }),
        decreases k - i,
    {
        proof {
            lemma_row_within(k as int, dim as int, i as int);
        }
        seed_next(
            data,
            dim,
            rows.as_slice(),
            pool.as_slice(),
            i,
            &mut centroids,
            &mut gaps,
            rng,
            parallelism,
            ops,
        );
        proof {
            let longer = steps.push(SeedStep { centroids: centroids@, gaps: gaps@, state: rng_state(*rng) });
            assert forall|j: int| 0 < j < i + 1 implies #[trigger] seeding_follows(
                *ops,
                data@,
                dim as nat,
                rows@,
                parallelism as nat,
                longer,
                j,
            ) by {
                if j < i {
                    assert(seeding_follows(*ops, data@, dim as nat, rows@, parallelism as nat, steps, j));
                }
            }
            steps = longer;
        }
        i = i + 1;
    }
    proof {
        let drawn = init_rows(state0, data@.len() / (dim as nat), k as nat);
        assert(drawn.0 == rows@ && drawn.1 == left);
        assert(seeding_runs(*ops, data@, dim as nat, k as nat, drawn.0, parallelism as nat, drawn.1, steps));
        assert(centroids@ == steps.last().centroids);
        assert(seeded_centroids(*ops, data@, dim as nat, k as nat, parallelism as nat, state0, centroids@));
    }
    centroids
}

} // verus!
