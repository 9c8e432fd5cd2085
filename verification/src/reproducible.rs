//! Building is reproducible: with arithmetic that gives the same results for the
//! same operands, the embeddings, the configuration and the number of threads
//! determine the index.

use crate::arithmetic::{measured, running_sums, summed, Arithmetic};
use crate::builder::{clusters_rows, clusters_wanted, indexed, root_rounded_up, training_data, IvfBuildConfig};
use crate::embeddings::row;
use crate::kmeans::{
    clustered, clustering_follows, clustering_runs, mean_of, means, member_values, ClusterStep,
};
use crate::matrix::{cell, gathered, lemma_position_is_cell};
use crate::nearest::{
    assigned, assigned_by, column, law_nearest_is_unique, law_rows_go_to_their_nearest_centroid, nearest, symmetric,
};
use crate::ranges::shared_out;
use crate::rng::seeded_state;
use crate::scalar::Scalar;
use crate::seeding::{
    centroid_before, init_rows, lesser, reaches, seeded_centroids, seeding_continues, seeding_follows, seeding_runs,
    summed_in_parts, SeedStep,
};
use vstd::prelude::*;

verus! {

/// Whether distances depend on the vector and the matrix alone.
pub open spec fn measure_repeats<M: Fn(&[Scalar], &[Scalar]) -> Vec<Scalar>>(measure: M) -> bool {
    forall|v: &[Scalar], m: &[Scalar], d: Vec<Scalar>, w: &[Scalar], n: &[Scalar], e: Vec<Scalar>|
        v@ == w@ && m@ == n@ && #[trigger] call_ensures(measure, (v, m), d) && #[trigger] call_ensures(
            measure,
            (w, n),
            e,
        ) ==> d@ == e@
}

/// Whether a sum depends on its operands alone.
pub open spec fn plus_repeats<A: Fn(Scalar, Scalar) -> Scalar>(plus: A) -> bool {
    forall|a: Scalar, b: Scalar, x: Scalar, y: Scalar| #[trigger]
        call_ensures(plus, (a, b), x) && #[trigger] call_ensures(plus, (a, b), y) ==> x == y
}

/// Whether a quotient depends on its operands alone.
pub open spec fn divide_repeats<V: Fn(Scalar, usize) -> Scalar>(divide: V) -> bool {
    forall|sum: Scalar, count: usize, x: Scalar, y: Scalar| #[trigger]
        call_ensures(divide, (sum, count), x) && #[trigger] call_ensures(divide, (sum, count), y) ==> x == y
}

/// Whether a fraction depends on its bits and its whole alone.
pub open spec fn fraction_repeats<T: Fn(u32, Scalar) -> Scalar>(fraction: T) -> bool {
    forall|bits: u32, whole: Scalar, x: Scalar, y: Scalar| #[trigger]
        call_ensures(fraction, (bits, whole), x) && #[trigger] call_ensures(fraction, (bits, whole), y) ==> x == y
}

/// Whether every operation gives the same result for the same operands.
pub open spec fn repeats<M, A, T, V>(ops: Arithmetic<M, A, T, V>) -> bool where
    M: Fn(&[Scalar], &[Scalar]) -> Vec<Scalar>,
    A: Fn(Scalar, Scalar) -> Scalar,
    T: Fn(u32, Scalar) -> Scalar,
    V: Fn(Scalar, usize) -> Scalar,
 {
    &&& measure_repeats(ops.measure)
    &&& plus_repeats(ops.plus)
    &&& fraction_repeats(ops.fraction)
    &&& divide_repeats(ops.divide)
}

/// A vector and a matrix have one sequence of distances.
pub proof fn lemma_measured_once<M: Fn(&[Scalar], &[Scalar]) -> Vec<Scalar>>(
    measure: M,
    vector: Seq<Scalar>,
    matrix: Seq<Scalar>,
    a: Seq<Scalar>,
    b: Seq<Scalar>,
)
    requires
        measure_repeats(measure),
        measured(measure, vector, matrix, a),
        measured(measure, vector, matrix, b),
    ensures
        a == b,
{
}

proof fn lemma_running_sums_once<A: Fn(Scalar, Scalar) -> Scalar>(
    plus: A,
    values: Seq<Scalar>,
    longer: Seq<Scalar>,
    a: Seq<Scalar>,
    b: Seq<Scalar>,
    i: int,
)
    requires
        plus_repeats(plus),
        values.len() <= longer.len(),
        values == longer.take(values.len() as int),
        running_sums(plus, values, a),
        running_sums(plus, longer, b),
        0 <= i <= values.len(),
    ensures
        a[i] == b[i],
    decreases i,
{
    if i > 0 {
        lemma_running_sums_once(plus, values, longer, a, b, i - 1);
        assert(values[i - 1] == longer[i - 1]);
        assert(call_ensures(plus, (a[i - 1], values[i - 1]), a[i - 1 + 1]));
        assert(call_ensures(plus, (b[i - 1], longer[i - 1]), b[i - 1 + 1]));
    }
}

/// Values have one sum.
pub proof fn lemma_summed_once<A: Fn(Scalar, Scalar) -> Scalar>(plus: A, values: Seq<Scalar>, a: Scalar, b: Scalar)
    requires
        plus_repeats(plus),
        summed(plus, values, a),
        summed(plus, values, b),
    ensures
        a == b,
{
    let x = choose|sums: Seq<Scalar>| #[trigger] running_sums(plus, values, sums) && a == sums.last();
    let y = choose|sums: Seq<Scalar>| #[trigger] running_sums(plus, values, sums) && b == sums.last();
    assert(values.take(values.len() as int) =~= values);
    lemma_running_sums_once(plus, values, values, x, y, values.len() as int);
}

proof fn lemma_shared_out_once(len: nat, parallelism: nat, a: Seq<(usize, usize)>, b: Seq<(usize, usize)>)
    requires
        shared_out(a, len, parallelism),
        shared_out(b, len, parallelism),
    ensures
        a == b,
{
    assert forall|c: int| 0 <= c < a.len() implies a[c] == b[c] by {
        assert(a[c].0 == b[c].0 && a[c].1 == b[c].1);
    }
    assert(a =~= b);
}

proof fn lemma_parts_summed_once<A: Fn(Scalar, Scalar) -> Scalar>(
    plus: A,
    weights: Seq<Scalar>,
    parallelism: nat,
    a: Scalar,
    b: Scalar,
)
    requires
        plus_repeats(plus),
        summed_in_parts(plus, weights, parallelism, a),
        summed_in_parts(plus, weights, parallelism, b),
    ensures
        a == b,
{
    let (r, p) = choose|ranges: Seq<(usize, usize)>, parts: Seq<Scalar>|
        {
            &&& #[trigger] shared_out(ranges, weights.len(), parallelism)
            &&& parts.len() == ranges.len()
            &&& forall|c: int|
                0 <= c < ranges.len() ==> summed(
                    plus,
                    weights.subrange(ranges[c].0 as int, ranges[c].1 as int),
                    #[trigger] parts[c],
                )
            &&& #[trigger] summed(plus, parts, a)
        };
    let (s, q) = choose|ranges: Seq<(usize, usize)>, parts: Seq<Scalar>|
        {
            &&& #[trigger] shared_out(ranges, weights.len(), parallelism)
            &&& parts.len() == ranges.len()
            &&& forall|c: int|
                0 <= c < ranges.len() ==> summed(
                    plus,
                    weights.subrange(ranges[c].0 as int, ranges[c].1 as int),
                    #[trigger] parts[c],
                )
            &&& #[trigger] summed(plus, parts, b)
        };
    lemma_shared_out_once(weights.len(), parallelism, r, s);
    assert forall|c: int| 0 <= c < p.len() implies p[c] == q[c] by {
        lemma_summed_once(plus, weights.subrange(r[c].0 as int, r[c].1 as int), p[c], q[c]);
    }
    assert(p =~= q);
    lemma_summed_once(plus, p, a, b);
}

/// No running sum before the one at which `b` reaches `goal` can have reached it.
proof fn lemma_reached_first<A: Fn(Scalar, Scalar) -> Scalar>(
    plus: A,
    weights: Seq<Scalar>,
    goal: Scalar,
    a: usize,
    b: Option<usize>,
)
    requires
        plus_repeats(plus),
        reaches(plus, weights, goal, Some(a)),
        reaches(plus, weights, goal, b),
    ensures
        b matches Some(s) && s <= a,
{
    let x = choose|sums: Seq<Scalar>|
        {
            &&& #[trigger] running_sums(plus, weights.take(a + 1), sums)
            &&& sums[a + 1].ge(goal)
            &&& forall|i: int| 0 < i <= a ==> !(#[trigger] sums[i]).ge(goal)
        };
    match b {
        Some(s) => {
            if s > a {
                let y = choose|sums: Seq<Scalar>|
                    {
                        &&& #[trigger] running_sums(plus, weights.take(s + 1), sums)
                        &&& sums[s + 1].ge(goal)
                        &&& forall|i: int| 0 < i <= s ==> !(#[trigger] sums[i]).ge(goal)
                    };
                assert(weights.take(s + 1).take(a + 1) =~= weights.take(a + 1));
                lemma_running_sums_once(plus, weights.take(a + 1), weights.take(s + 1), x, y, a + 1);
                assert(!y[a + 1].ge(goal));
            }
        },
        None => {
            let y = choose|sums: Seq<Scalar>|
                {
                    &&& #[trigger] running_sums(plus, weights, sums)
                    &&& forall|i: int| 0 < i <= weights.len() ==> !(#[trigger] sums[i]).ge(goal)
                };
            lemma_running_sums_once(plus, weights.take(a + 1), weights, x, y, a + 1);
            assert(!y[a + 1].ge(goal));
        },
    }
}

proof fn lemma_reaches_once<A: Fn(Scalar, Scalar) -> Scalar>(
    plus: A,
    weights: Seq<Scalar>,
    goal: Scalar,
    a: Option<usize>,
    b: Option<usize>,
)
    requires
        plus_repeats(plus),
        reaches(plus, weights, goal, a),
        reaches(plus, weights, goal, b),
    ensures
        a == b,
{
    if let Some(s) = a {
        lemma_reached_first(plus, weights, goal, s, b);
    }
    if let Some(s) = b {
        lemma_reached_first(plus, weights, goal, s, a);
    }
}

proof fn lemma_seeding_continues_once<M, A, T, V>(
    ops: Arithmetic<M, A, T, V>,
    data: Seq<Scalar>,
    dim: nat,
    rows: Seq<usize>,
    parallelism: nat,
    i: int,
    step: SeedStep,
    a: SeedStep,
    b: SeedStep,
) where
    M: Fn(&[Scalar], &[Scalar]) -> Vec<Scalar>,
    A: Fn(Scalar, Scalar) -> Scalar,
    T: Fn(u32, Scalar) -> Scalar,
    V: Fn(Scalar, usize) -> Scalar,

    requires
        repeats(ops),
        seeding_continues(ops, data, dim, rows, parallelism, i, step, a),
        seeding_continues(ops, data, dim, rows, parallelism, i, step, b),
    ensures
        a == b,
{
    let before = centroid_before(step.centroids, dim, i);
    let pool = gathered(data, dim, rows);
    let x = choose|offered: Seq<Scalar>|
        {
            &&& #[trigger] measured(ops.measure, before, pool, offered)
            &&& a.gaps == lesser(step.gaps, offered)
        };
    let y = choose|offered: Seq<Scalar>|
        {
            &&& #[trigger] measured(ops.measure, before, pool, offered)
            &&& b.gaps == lesser(step.gaps, offered)
        };
    lemma_measured_once(ops.measure, before, pool, x, y);
    assert(a.gaps == b.gaps);
    let gaps = a.gaps;
    assert forall|s: Scalar, t: Scalar| #[trigger] summed_in_parts(ops.plus, gaps, parallelism, s) && #[trigger] summed_in_parts(
        ops.plus,
        gaps,
        parallelism,
        t,
    ) implies s == t by {
        lemma_parts_summed_once(ops.plus, gaps, parallelism, s, t);
    }
    assert forall|goal: Scalar, s: Option<usize>, t: Option<usize>| #[trigger] reaches(ops.plus, gaps, goal, s)
        && #[trigger] reaches(ops.plus, gaps, goal, t) implies s == t by {
        lemma_reaches_once(ops.plus, gaps, goal, s, t);
    }
}

proof fn lemma_seeding_runs_once<M, A, T, V>(
    ops: Arithmetic<M, A, T, V>,
    data: Seq<Scalar>,
    dim: nat,
    k: nat,
    rows: Seq<usize>,
    parallelism: nat,
    state: Seq<u32>,
    a: Seq<SeedStep>,
    b: Seq<SeedStep>,
    i: int,
) where
    M: Fn(&[Scalar], &[Scalar]) -> Vec<Scalar>,
    A: Fn(Scalar, Scalar) -> Scalar,
    T: Fn(u32, Scalar) -> Scalar,
    V: Fn(Scalar, usize) -> Scalar,

    requires
        repeats(ops),
        seeding_runs(ops, data, dim, k, rows, parallelism, state, a),
        seeding_runs(ops, data, dim, k, rows, parallelism, state, b),
        0 <= i < k,
    ensures
        a[i] == b[i],
    decreases i,
{
    if i == 0 {
        lemma_measured_once(
            ops.measure,
            row(a[0].centroids, dim, 0),
            gathered(data, dim, rows),
            a[0].gaps,
            b[0].gaps,
        );
    } else {
        lemma_seeding_runs_once(ops, data, dim, k, rows, parallelism, state, a, b, i - 1);
        assert(seeding_follows(ops, data, dim, rows, parallelism, a, i));
        assert(seeding_follows(ops, data, dim, rows, parallelism, b, i));
        lemma_seeding_continues_once(ops, data, dim, rows, parallelism, i, a[i - 1], a[i], b[i]);
    }
}

/// The first centroids depend on the rows, the number of clusters, the number of
/// threads and the state of the generator alone.
pub proof fn law_seeding_is_reproducible<M, A, T, V>(
    ops: Arithmetic<M, A, T, V>,
    data: Seq<Scalar>,
    dim: nat,
    k: nat,
    parallelism: nat,
    state: Seq<u32>,
    a: Seq<Scalar>,
    b: Seq<Scalar>,
) where
    M: Fn(&[Scalar], &[Scalar]) -> Vec<Scalar>,
    A: Fn(Scalar, Scalar) -> Scalar,
    T: Fn(u32, Scalar) -> Scalar,
    V: Fn(Scalar, usize) -> Scalar,

    requires
        repeats(ops),
        k > 0,
        seeded_centroids(ops, data, dim, k, parallelism, state, a),
        seeded_centroids(ops, data, dim, k, parallelism, state, b),
    ensures
        a == b,
{
    let drawn = init_rows(state, data.len() / dim, k);
    let x = choose|steps: Seq<SeedStep>| #[trigger]
        seeding_runs(ops, data, dim, k, drawn.0, parallelism, drawn.1, steps) && a == steps.last().centroids;
    let y = choose|steps: Seq<SeedStep>| #[trigger]
        seeding_runs(ops, data, dim, k, drawn.0, parallelism, drawn.1, steps) && b == steps.last().centroids;
    lemma_seeding_runs_once(ops, data, dim, k, drawn.0, parallelism, drawn.1, x, y, k - 1);
}

/// The nearest centroid of each row depends on the rows and the centroids alone.
pub proof fn law_assignment_is_reproducible<M: Fn(&[Scalar], &[Scalar]) -> Vec<Scalar>>(
    measure: M,
    data: Seq<Scalar>,
    dim: nat,
    centroids: Seq<Scalar>,
    k: nat,
    a: Seq<usize>,
    b: Seq<usize>,
)
    requires
        measure_repeats(measure),
        assigned(measure, data, dim, centroids, k, a),
        assigned(measure, data, dim, centroids, k, b),
    ensures
        a == b,
{
    let x = choose|tables: Seq<Seq<Scalar>>| #[trigger] assigned_by(measure, data, dim, centroids, k, a, tables);
    let y = choose|tables: Seq<Seq<Scalar>>| #[trigger] assigned_by(measure, data, dim, centroids, k, b, tables);
    assert forall|j: int| 0 <= j < k implies x[j] == y[j] by {
        lemma_measured_once(measure, row(centroids, dim, j), data, x[j], y[j]);
    }
    assert(x =~= y);
    assert forall|i: int| 0 <= i < a.len() implies a[i] == b[i] by {
        law_nearest_is_unique(column(x, i), a[i] as int, b[i] as int);
    }
    assert(a =~= b);
}

proof fn lemma_means_once<A, V>(
    plus: A,
    divide: V,
    data: Seq<Scalar>,
    dim: nat,
    picks: Seq<usize>,
    k: nat,
    a: Seq<Scalar>,
    b: Seq<Scalar>,
) where A: Fn(Scalar, Scalar) -> Scalar, V: Fn(Scalar, usize) -> Scalar
    requires
        plus_repeats(plus),
        divide_repeats(divide),
        dim > 0,
        means(plus, divide, data, dim, picks, k, a),
        means(plus, divide, data, dim, picks, k, b),
    ensures
        a == b,
{
    assert forall|p: int| 0 <= p < a.len() implies a[p] == b[p] by {
        let (j, d) = lemma_position_is_cell(k as int, dim, p);
        let values = member_values(data, dim, picks, j, d, picks.len() as int);
        assert(mean_of(plus, divide, values, a[cell(dim, j, d)]));
        assert(mean_of(plus, divide, values, b[cell(dim, j, d)]));
        if values.len() > 0 {
            let x = choose|sum: Scalar| #[trigger]
                summed(plus, values, sum) && call_ensures(divide, (sum, values.len() as usize), a[p]);
            let y = choose|sum: Scalar| #[trigger]
                summed(plus, values, sum) && call_ensures(divide, (sum, values.len() as usize), b[p]);
            lemma_summed_once(plus, values, x, y);
        }
    }
    assert(a =~= b);
}

/// Two runs from the same centroids agree as far as both go.
proof fn lemma_clustering_agrees_to<M, A, T, V>(
    ops: Arithmetic<M, A, T, V>,
    data: Seq<Scalar>,
    dim: nat,
    k: nat,
    iters_a: nat,
    iters_b: nat,
    seeds: Seq<Scalar>,
    a: Seq<ClusterStep>,
    b: Seq<ClusterStep>,
    s: int,
) where
    M: Fn(&[Scalar], &[Scalar]) -> Vec<Scalar>,
    A: Fn(Scalar, Scalar) -> Scalar,
    T: Fn(u32, Scalar) -> Scalar,
    V: Fn(Scalar, usize) -> Scalar,

    requires
        repeats(ops),
        dim > 0,
        clustering_runs(ops, data, dim, k, iters_a, seeds, a),
        clustering_runs(ops, data, dim, k, iters_b, seeds, b),
        0 <= s < a.len(),
        s < b.len(),
    ensures
        a[s] == b[s],
    decreases s,
{
    if s > 0 {
        lemma_clustering_agrees_to(ops, data, dim, k, iters_a, iters_b, seeds, a, b, s - 1);
        assert(clustering_follows(ops, data, dim, k, a, s));
        assert(clustering_follows(ops, data, dim, k, b, s));
        law_assignment_is_reproducible(ops.measure, data, dim, a[s - 1].centroids, k, a[s].picks, b[s].picks);
        lemma_means_once(ops.plus, ops.divide, data, dim, a[s].picks, k, a[s].centroids, b[s].centroids);
    }
}

/// No run goes on where another has settled.
pub proof fn lemma_settled_is_longest<M, A, T, V>(
    ops: Arithmetic<M, A, T, V>,
    data: Seq<Scalar>,
    dim: nat,
    k: nat,
    iters_a: nat,
    iters_b: nat,
    seeds: Seq<Scalar>,
    a: Seq<ClusterStep>,
    b: Seq<ClusterStep>,
) where
    M: Fn(&[Scalar], &[Scalar]) -> Vec<Scalar>,
    A: Fn(Scalar, Scalar) -> Scalar,
    T: Fn(u32, Scalar) -> Scalar,
    V: Fn(Scalar, usize) -> Scalar,

    requires
        repeats(ops),
        dim > 0,
        clustering_runs(ops, data, dim, k, iters_a, seeds, a),
        clustering_runs(ops, data, dim, k, iters_b, seeds, b),
        assigned(ops.measure, data, dim, a.last().centroids, k, a.last().picks),
    ensures
        a.len() >= b.len(),
{
    if a.len() < b.len() {
        let n = a.len() as int;
        lemma_clustering_agrees_to(ops, data, dim, k, iters_a, iters_b, seeds, a, b, n - 1);
        assert(clustering_follows(ops, data, dim, k, b, n));
        law_assignment_is_reproducible(ops.measure, data, dim, a[n - 1].centroids, k, a[n - 1].picks, b[n].picks);
    }
}

/// A run that may take no more steps is no longer than one that may take as many.
pub proof fn lemma_fewer_iters_is_no_longer<M, A, T, V>(
    ops: Arithmetic<M, A, T, V>,
    data: Seq<Scalar>,
    dim: nat,
    k: nat,
    fewer: nat,
    more: nat,
    seeds: Seq<Scalar>,
    a: Seq<ClusterStep>,
    b: Seq<ClusterStep>,
) where
    M: Fn(&[Scalar], &[Scalar]) -> Vec<Scalar>,
    A: Fn(Scalar, Scalar) -> Scalar,
    T: Fn(u32, Scalar) -> Scalar,
    V: Fn(Scalar, usize) -> Scalar,

    requires
        repeats(ops),
        dim > 0,
        fewer <= more,
        clustering_runs(ops, data, dim, k, fewer, seeds, a),
        clustering_runs(ops, data, dim, k, more, seeds, b),
    ensures
        a.len() <= b.len(),
        a.last() == b[a.len() - 1],
{
    if b.len() < a.len() {
        lemma_settled_is_longest(ops, data, dim, k, more, fewer, seeds, b, a);
    }
    lemma_clustering_agrees_to(ops, data, dim, k, fewer, more, seeds, a, b, a.len() - 1);
}

/// The run that ends with `centroids` and `picks`, which starts from `seeds` as
/// every other run does.
pub proof fn lemma_run_of<M, A, T, V>(
    ops: Arithmetic<M, A, T, V>,
    data: Seq<Scalar>,
    dim: nat,
    k: nat,
    max_iters: nat,
    seed: u64,
    parallelism: nat,
    seeds: Seq<Scalar>,
    centroids: Seq<Scalar>,
    picks: Seq<usize>,
) -> (steps: Seq<ClusterStep>) where
    M: Fn(&[Scalar], &[Scalar]) -> Vec<Scalar>,
    A: Fn(Scalar, Scalar) -> Scalar,
    T: Fn(u32, Scalar) -> Scalar,
    V: Fn(Scalar, usize) -> Scalar,

    requires
        repeats(ops),
        k > 0,
        seeded_centroids(ops, data, dim, k, parallelism, seeded_state(seed), seeds),
        clustered(ops, data, dim, k, max_iters, seed, parallelism, centroids, picks),
    ensures
        clustering_runs(ops, data, dim, k, max_iters, seeds, steps),
        centroids == steps.last().centroids,
        picks == steps.last().picks,
{
    let (own, steps) = choose|own: Seq<Scalar>, steps: Seq<ClusterStep>|
        {
            &&& #[trigger] seeded_centroids(ops, data, dim, k, parallelism, seeded_state(seed), own)
            &&& #[trigger] clustering_runs(ops, data, dim, k, max_iters, own, steps)
            &&& centroids == steps.last().centroids
            &&& picks == steps.last().picks
        };
    law_seeding_is_reproducible(ops, data, dim, k, parallelism, seeded_state(seed), own, seeds);
    steps
}

/// The outcome of clustering depends on the rows, the parameters and the number
/// of threads alone.
pub proof fn law_clustering_is_reproducible<M, A, T, V>(
    ops: Arithmetic<M, A, T, V>,
    data: Seq<Scalar>,
    dim: nat,
    k: nat,
    max_iters: nat,
    seed: u64,
    parallelism: nat,
    centroids_a: Seq<Scalar>,
    picks_a: Seq<usize>,
    centroids_b: Seq<Scalar>,
    picks_b: Seq<usize>,
) where
    M: Fn(&[Scalar], &[Scalar]) -> Vec<Scalar>,
    A: Fn(Scalar, Scalar) -> Scalar,
    T: Fn(u32, Scalar) -> Scalar,
    V: Fn(Scalar, usize) -> Scalar,

    requires
        repeats(ops),
        dim > 0,
        k > 0,
        clustered(ops, data, dim, k, max_iters, seed, parallelism, centroids_a, picks_a),
        clustered(ops, data, dim, k, max_iters, seed, parallelism, centroids_b, picks_b),
    ensures
        centroids_a == centroids_b,
        picks_a == picks_b,
{
    let (seeds, _steps) = choose|seeds: Seq<Scalar>, steps: Seq<ClusterStep>|
        {
            &&& #[trigger] seeded_centroids(ops, data, dim, k, parallelism, seeded_state(seed), seeds)
            &&& #[trigger] clustering_runs(ops, data, dim, k, max_iters, seeds, steps)
            &&& centroids_a == steps.last().centroids
            &&& picks_a == steps.last().picks
        };
    let a = lemma_run_of(ops, data, dim, k, max_iters, seed, parallelism, seeds, centroids_a, picks_a);
    let b = lemma_run_of(ops, data, dim, k, max_iters, seed, parallelism, seeds, centroids_b, picks_b);
    lemma_fewer_iters_is_no_longer(ops, data, dim, k, max_iters, max_iters, seeds, a, b);
    lemma_fewer_iters_is_no_longer(ops, data, dim, k, max_iters, max_iters, seeds, b, a);
}

/// One more round assigns each row to the nearest of the centroids of the round
/// before.
pub proof fn law_one_more_round_assigns_to_the_round_before<M, A, T, V>(
    ops: Arithmetic<M, A, T, V>,
    data: Seq<Scalar>,
    dim: nat,
    k: nat,
    max_iters: nat,
    seed: u64,
    parallelism: nat,
    centroids_a: Seq<Scalar>,
    picks_a: Seq<usize>,
    centroids_b: Seq<Scalar>,
    picks_b: Seq<usize>,
) where
    M: Fn(&[Scalar], &[Scalar]) -> Vec<Scalar>,
    A: Fn(Scalar, Scalar) -> Scalar,
    T: Fn(u32, Scalar) -> Scalar,
    V: Fn(Scalar, usize) -> Scalar,

    requires
        repeats(ops),
        dim > 0,
        k > 0,
        clustered(ops, data, dim, k, max_iters, seed, parallelism, centroids_a, picks_a),
        clustered(ops, data, dim, k, max_iters + 1, seed, parallelism, centroids_b, picks_b),
    ensures
        assigned(ops.measure, data, dim, centroids_a, k, picks_b),
        symmetric(ops.measure, dim) ==> forall|i: int, d: Seq<Scalar>, best: int|
            {
                &&& 0 <= i < picks_b.len()
                &&& #[trigger] measured(ops.measure, row(data, dim, i), centroids_a, d)
                &&& d.len() == k
                &&& #[trigger] nearest(d, best)
            } ==> picks_b[i] == best,
{
    let (seeds, _steps) = choose|seeds: Seq<Scalar>, steps: Seq<ClusterStep>|
        {
            &&& #[trigger] seeded_centroids(ops, data, dim, k, parallelism, seeded_state(seed), seeds)
            &&& #[trigger] clustering_runs(ops, data, dim, k, max_iters, seeds, steps)
            &&& centroids_a == steps.last().centroids
            &&& picks_a == steps.last().picks
        };
    let a = lemma_run_of(ops, data, dim, k, max_iters, seed, parallelism, seeds, centroids_a, picks_a);
    let b = lemma_run_of(ops, data, dim, k, max_iters + 1, seed, parallelism, seeds, centroids_b, picks_b);
    lemma_fewer_iters_is_no_longer(ops, data, dim, k, max_iters, max_iters + 1, seeds, a, b);
    if a.len() < b.len() {
        if a.len() <= max_iters {
            lemma_settled_is_longest(ops, data, dim, k, max_iters, max_iters + 1, seeds, a, b);
        }
        assert(clustering_follows(ops, data, dim, k, b, b.len() - 1));
    }
    if symmetric(ops.measure, dim) {
        assert forall|i: int, d: Seq<Scalar>, best: int|
            {
                &&& 0 <= i < picks_b.len()
                &&& #[trigger] measured(ops.measure, row(data, dim, i), centroids_a, d)
                &&& d.len() == k
                &&& #[trigger] nearest(d, best)
            } implies picks_b[i] == best by {
            law_rows_go_to_their_nearest_centroid(ops.measure, data, dim, centroids_a, k, picks_b, i, d, best);
        }
    }
}

/// Once a round moves no row, more rounds change nothing.
pub proof fn law_settled_clustering_is_final<M, A, T, V>(
    ops: Arithmetic<M, A, T, V>,
    data: Seq<Scalar>,
    dim: nat,
    k: nat,
    max_iters: nat,
    more_iters: nat,
    seed: u64,
    parallelism: nat,
    centroids_a: Seq<Scalar>,
    picks_a: Seq<usize>,
    centroids_b: Seq<Scalar>,
    centroids_c: Seq<Scalar>,
    picks_c: Seq<usize>,
) where
    M: Fn(&[Scalar], &[Scalar]) -> Vec<Scalar>,
    A: Fn(Scalar, Scalar) -> Scalar,
    T: Fn(u32, Scalar) -> Scalar,
    V: Fn(Scalar, usize) -> Scalar,

    requires
        repeats(ops),
        dim > 0,
        k > 0,
        more_iters >= max_iters,
        clustered(ops, data, dim, k, max_iters, seed, parallelism, centroids_a, picks_a),
        clustered(ops, data, dim, k, max_iters + 1, seed, parallelism, centroids_b, picks_a),
        clustered(ops, data, dim, k, more_iters, seed, parallelism, centroids_c, picks_c),
    ensures
        centroids_c == centroids_a,
        picks_c == picks_a,
{
    let (seeds, _steps) = choose|seeds: Seq<Scalar>, steps: Seq<ClusterStep>|
        {
            &&& #[trigger] seeded_centroids(ops, data, dim, k, parallelism, seeded_state(seed), seeds)
            &&& #[trigger] clustering_runs(ops, data, dim, k, max_iters, seeds, steps)
            &&& centroids_a == steps.last().centroids
            &&& picks_a == steps.last().picks
        };
    let a = lemma_run_of(ops, data, dim, k, max_iters, seed, parallelism, seeds, centroids_a, picks_a);
    let c = lemma_run_of(ops, data, dim, k, more_iters, seed, parallelism, seeds, centroids_c, picks_c);
    law_one_more_round_assigns_to_the_round_before(
        ops,
        data,
        dim,
        k,
        max_iters,
        seed,
        parallelism,
        centroids_a,
        picks_a,
        centroids_b,
        picks_a,
    );
    lemma_fewer_iters_is_no_longer(ops, data, dim, k, max_iters, more_iters, seeds, a, c);
    lemma_settled_is_longest(ops, data, dim, k, max_iters, more_iters, seeds, a, c);
}

proof fn lemma_root_once(n: nat, a: nat, b: nat)
    requires
        root_rounded_up(n, a),
        root_rounded_up(n, b),
    ensures
        a == b,
{
    assert(a < b ==> a * a <= (b - 1) * (b - 1)) by (nonlinear_arith);
    assert(b < a ==> b * b <= (a - 1) * (a - 1)) by (nonlinear_arith);
}

/// The same embeddings, configuration and number of threads give the same index.
pub proof fn law_building_is_reproducible<M, A, T, V>(
    ops: Arithmetic<M, A, T, V>,
    data: Seq<Scalar>,
    dim: nat,
    config: IvfBuildConfig,
    parallelism: nat,
    k_a: nat,
    centroids_a: Seq<Scalar>,
    lists_a: Seq<Seq<u32>>,
    k_b: nat,
    centroids_b: Seq<Scalar>,
    lists_b: Seq<Seq<u32>>,
) where
    M: Fn(&[Scalar], &[Scalar]) -> Vec<Scalar>,
    A: Fn(Scalar, Scalar) -> Scalar,
    T: Fn(u32, Scalar) -> Scalar,
    V: Fn(Scalar, usize) -> Scalar,

    requires
        repeats(ops),
        dim > 0,
        k_a > 0,
        k_b > 0,
        clusters_wanted(config, data.len() / dim, k_a),
        clusters_wanted(config, data.len() / dim, k_b),
        indexed(ops, data, dim, k_a, config, parallelism, centroids_a, lists_a),
        indexed(ops, data, dim, k_b, config, parallelism, centroids_b, lists_b),
    ensures
        k_a == k_b,
        centroids_a == centroids_b,
        lists_a == lists_b,
{
    if config.n_clusters is None {
        lemma_root_once(data.len() / dim, k_a, k_b);
    }
    let k = k_a;
    let training = training_data(data, dim, k, config.seed);
    let iters = config.max_iters as nat;
    let x = choose|picks: Seq<usize>| #[trigger]
        clustered(ops, training, dim, k, iters, config.seed, parallelism, centroids_a, picks);
    let y = choose|picks: Seq<usize>| #[trigger]
        clustered(ops, training, dim, k, iters, config.seed, parallelism, centroids_b, picks);
    law_clustering_is_reproducible(
        ops,
        training,
        dim,
        k,
        iters,
        config.seed,
        parallelism,
        centroids_a,
        x,
        centroids_b,
        y,
    );
    let p = choose|picks: Seq<usize>|
        {
            &&& #[trigger] assigned(ops.measure, data, dim, centroids_a, k, picks)
            &&& lists_a == clusters_rows(picks, k)
            &&& forall|i: int| 0 <= i < picks.len() ==> (#[trigger] picks[i]) < k
        };
    let q = choose|picks: Seq<usize>|
        {
            &&& #[trigger] assigned(ops.measure, data, dim, centroids_a, k, picks)
            &&& lists_b == clusters_rows(picks, k)
            &&& forall|i: int| 0 <= i < picks.len() ==> (#[trigger] picks[i]) < k
        };
    law_assignment_is_reproducible(ops.measure, data, dim, centroids_a, k, p, q);
}

} // verus!
