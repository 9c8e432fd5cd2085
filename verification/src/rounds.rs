//! What each step of seeding and each round of clustering does, in terms of what
//! the measure gave.

use crate::arithmetic::{measured, measures, Arithmetic};
use crate::builder::{
    clusters_rows, clusters_wanted, indexed, law_lists_partition_rows, training_data, IvfBuildConfig,
};
use crate::embeddings::{lemma_row_within, lemma_whole_rows, row};
use crate::kmeans::{clustered, clustering_follows, clustering_runs, means, ClusterStep};
use crate::matrix::{gathered, lemma_gathered_len, lemma_with_row, with_row, zeros};
use crate::nearest::{any_below_infinity, assigned, assigned_by, column, goes_to, nearest};
use crate::reproducible::{lemma_fewer_iters_is_no_longer, lemma_run_of, lemma_settled_is_longest, repeats};
use crate::rng::{index_draw, seeded_state};
use crate::scalar::Scalar;
use crate::seeding::{
    centroid_before, init_rows, lesser, seeded_centroids, seeding_continues, seeding_follows, seeding_runs, seeding_starts,
    SeedStep,
};
use crate::selection::ascending;
use vstd::prelude::*;

verus! {

/// Whether `measure` gave `distance` for the `i`-th row of `matrix`, asked for its
/// rows' distances from `vector`.
pub open spec fn gave<M: Fn(&[Scalar], &[Scalar]) -> Vec<Scalar>>(
    measure: M,
    vector: Seq<Scalar>,
    matrix: Seq<Scalar>,
    i: int,
    distance: Scalar,
) -> bool {
    exists|v: &[Scalar], m: &[Scalar], d: Vec<Scalar>|
        {
            &&& v@ == vector
            &&& m@ == matrix
            &&& #[trigger] call_ensures(measure, (v, m), d)
            &&& 0 <= i < d@.len()
            &&& d@[i] == distance
        }
}

/// No centroid is closer to a row than the one it is assigned to, of those that
/// are as close none comes earlier, and only where no distance is a number below
/// infinity is it assigned to the first whatever the distances. What is close goes
/// by what `measure` gave for each centroid and all the rows.
///
/// Gives the distances of row `i` from the centroids.
pub proof fn law_no_centroid_is_closer_than_the_assigned<M: Fn(&[Scalar], &[Scalar]) -> Vec<Scalar>>(
    measure: M,
    data: Seq<Scalar>,
    dim: nat,
    centroids: Seq<Scalar>,
    k: nat,
    picks: Seq<usize>,
    i: int,
) -> (distances: Seq<Scalar>)
    requires
        assigned(measure, data, dim, centroids, k, picks),
        k > 0,
        0 <= i < data.len() / dim,
    ensures
        picks.len() == data.len() / dim,
        picks[i] < k,
        distances.len() == k,
        forall|j: int|
            0 <= j < k ==> gave(
                measure,
                centroids.subrange(j * dim, (j + 1) * dim),
                data,
                i,
                #[trigger] distances[j],
            ),
        (exists|j: int| 0 <= j < k && !(#[trigger] distances[j]).nan() && distances[j].position() < 0x7f80_0000) ==> {
            &&& !distances[picks[i] as int].nan()
            &&& forall|j: int| 0 <= j < k ==> !(#[trigger] distances[j]).lt(distances[picks[i] as int])
            &&& forall|j: int|
                0 <= j < k && (#[trigger] distances[j]).same(distances[picks[i] as int]) ==> picks[i] <= j
        },
        (forall|j: int| 0 <= j < k ==> (#[trigger] distances[j]).nan() || distances[j].position() >= 0x7f80_0000)
            ==> picks[i] == 0,
{
    let tables = choose|tables: Seq<Seq<Scalar>>| #[trigger]
        assigned_by(measure, data, dim, centroids, k, picks, tables);
    let distances = column(tables, i);
    assert(nearest(column(tables, i), picks[i] as int));
    assert forall|j: int| 0 <= j < k implies gave(
        measure,
        centroids.subrange(j * dim, (j + 1) * dim),
        data,
        i,
        #[trigger] distances[j],
    ) by {
        assert(measured(measure, row(centroids, dim, j), data, tables[j]));
        let (v, m, d) = choose|v: &[Scalar], m: &[Scalar], d: Vec<Scalar>|
            v@ == row(centroids, dim, j) && m@ == data && d@ == tables[j] && #[trigger] call_ensures(measure, (v, m), d);
        assert(call_ensures(measure, (v, m), d) && d@[i] == distances[j]);
    }
    if exists|j: int| 0 <= j < k && !(#[trigger] distances[j]).nan() && distances[j].position() < 0x7f80_0000 {
        let j = choose|j: int| 0 <= j < k && !(#[trigger] distances[j]).nan() && distances[j].position() < 0x7f80_0000;
        assert(distances[j].lt(crate::scalar::infinity()));
        assert(any_below_infinity(distances));
        assert forall|j: int| 0 <= j < k && (#[trigger] distances[j]).same(distances[picks[i] as int]) implies picks[i]
            <= j by {
            if j < picks[i] {
                assert(distances[j].nan() || distances[picks[i] as int].lt(distances[j]));
            }
        }
    }
    if forall|j: int| 0 <= j < k ==> (#[trigger] distances[j]).nan() || distances[j].position() >= 0x7f80_0000 {
        assert forall|j: int| 0 <= j < distances.len() implies !(#[trigger] distances[j]).lt(
            crate::scalar::infinity(),
        ) by {}
    }
    distances
}

/// Every row of the file is listed under one cluster, once, and no other centroid
/// is closer to it than that of its cluster.
///
/// Gives the cluster of `number`, and its distances from the centroids.
pub proof fn law_every_row_is_listed_with_its_nearest_centroid<M, A, T, V>(
    ops: Arithmetic<M, A, T, V>,
    data: Seq<Scalar>,
    dim: nat,
    k: nat,
    config: IvfBuildConfig,
    parallelism: nat,
    centroids: Seq<Scalar>,
    lists: Seq<Seq<u32>>,
    number: u32,
) -> (r: (int, Seq<Scalar>)) where
    M: Fn(&[Scalar], &[Scalar]) -> Vec<Scalar>,
    A: Fn(Scalar, Scalar) -> Scalar,
    T: Fn(u32, Scalar) -> Scalar,
    V: Fn(Scalar, usize) -> Scalar,

    requires
        indexed(ops, data, dim, k, config, parallelism, centroids, lists),
        k > 0,
        data.len() / dim <= 0x1_0000_0000,
        number < data.len() / dim,
    ensures
        lists.len() == k,
        0 <= r.0 < k,
        lists[r.0].contains(number),
        forall|c: int| 0 <= c < k && c != r.0 ==> !(#[trigger] lists[c]).contains(number),
        forall|c: int, a: int, b: int|
            0 <= c < k && 0 <= a < b < lists[c].len() ==> #[trigger] lists[c][a] < #[trigger] lists[c][b],
        forall|c: int, a: int|
            0 <= c < k && 0 <= a < lists[c].len() ==> (#[trigger] lists[c][a]) < data.len() / dim,
        r.1.len() == k,
        forall|j: int|
            0 <= j < k ==> gave(
                ops.measure,
                centroids.subrange(j * dim, (j + 1) * dim),
                data,
                number as int,
                #[trigger] r.1[j],
            ),
        (exists|j: int| 0 <= j < k && !(#[trigger] r.1[j]).nan() && r.1[j].position() < 0x7f80_0000) ==> {
            &&& !r.1[r.0].nan()
            &&& forall|j: int| 0 <= j < k ==> !(#[trigger] r.1[j]).lt(r.1[r.0])
            &&& forall|j: int| 0 <= j < k && (#[trigger] r.1[j]).same(r.1[r.0]) ==> r.0 <= j
        },
{
    let picks = choose|picks: Seq<usize>|
        {
            &&& #[trigger] assigned(ops.measure, data, dim, centroids, k, picks)
            &&& lists == clusters_rows(picks, k)
            &&& forall|i: int| 0 <= i < picks.len() ==> (#[trigger] picks[i]) < k
        };
    let distances = law_no_centroid_is_closer_than_the_assigned(
        ops.measure,
        data,
        dim,
        centroids,
        k,
        picks,
        number as int,
    );
    law_lists_partition_rows(picks, k);
    let own = picks[number as int] as int;
    assert(lists[own].contains(number));
    assert forall|c: int, a: int, b: int| 0 <= c < k && 0 <= a < b < lists[c].len() implies #[trigger] lists[c][a]
        < #[trigger] lists[c][b] by {
        assert(ascending(lists[c]));
    }
    assert forall|c: int, a: int| 0 <= c < k && 0 <= a < lists[c].len() implies (#[trigger] lists[c][a]) < data.len()
        / dim by {
        assert(lists[c].contains(lists[c][a]));
    }
    (own, distances)
}

/// The centroid a vector goes to is the closest: none is closer, and of those as
/// close none comes earlier. Where no distance is a number below infinity, it is
/// the first.
///
/// Gives the distances of the centroids.
pub proof fn law_a_vector_goes_to_the_closest_centroid<M: Fn(&[Scalar], &[Scalar]) -> Vec<Scalar>>(
    measure: M,
    vector: Seq<Scalar>,
    centroids: Seq<Scalar>,
    best: int,
) -> (distances: Seq<Scalar>)
    requires
        goes_to(measure, vector, centroids, best),
    ensures
        exists|v: &[Scalar], m: &[Scalar], d: Vec<Scalar>|
            v@ == vector && m@ == centroids && d@ == distances && #[trigger] call_ensures(measure, (v, m), d),
        distances.len() == centroids.len() / vector.len(),
        (exists|j: int|
            0 <= j < distances.len() && !(#[trigger] distances[j]).nan() && distances[j].position() < 0x7f80_0000) ==> {
            &&& 0 <= best < distances.len()
            &&& !distances[best].nan()
            &&& forall|j: int| 0 <= j < distances.len() ==> !(#[trigger] distances[j]).lt(distances[best])
            &&& forall|j: int|
                0 <= j < distances.len() && (#[trigger] distances[j]).same(distances[best]) ==> best <= j
        },
        (forall|j: int|
            0 <= j < distances.len() ==> (#[trigger] distances[j]).nan() || distances[j].position() >= 0x7f80_0000)
            ==> best == 0,
{
    let d = choose|d: Seq<Scalar>| #[trigger]
        measured(measure, vector, centroids, d) && nearest(d, best) && d.len() == centroids.len() / vector.len();
    if exists|j: int| 0 <= j < d.len() && !(#[trigger] d[j]).nan() && d[j].position() < 0x7f80_0000 {
        let j = choose|j: int| 0 <= j < d.len() && !(#[trigger] d[j]).nan() && d[j].position() < 0x7f80_0000;
        assert(d[j].lt(crate::scalar::infinity()));
        assert(any_below_infinity(d));
        assert forall|j: int| 0 <= j < d.len() && (#[trigger] d[j]).same(d[best]) implies best <= j by {
            if j < best {
                assert(d[j].nan() || d[best].lt(d[j]));
            }
        }
    }
    if forall|j: int| 0 <= j < d.len() ==> (#[trigger] d[j]).nan() || d[j].position() >= 0x7f80_0000 {
        assert forall|j: int| 0 <= j < d.len() implies !(#[trigger] d[j]).lt(crate::scalar::infinity()) by {}
    }
    d
}

/// The centroids of an index come of clustering its training rows, with as many
/// rounds, the seed and the number of clusters that were asked for; where none was,
/// that is the square root of the number of rows, rounded up.
pub proof fn law_centroids_come_of_clustering_the_training_rows<M, A, T, V>(
    ops: Arithmetic<M, A, T, V>,
    data: Seq<Scalar>,
    dim: nat,
    k: nat,
    config: IvfBuildConfig,
    parallelism: nat,
    centroids: Seq<Scalar>,
    lists: Seq<Seq<u32>>,
) -> (picks: Seq<usize>) where
    M: Fn(&[Scalar], &[Scalar]) -> Vec<Scalar>,
    A: Fn(Scalar, Scalar) -> Scalar,
    T: Fn(u32, Scalar) -> Scalar,
    V: Fn(Scalar, usize) -> Scalar,

    requires
        clusters_wanted(config, data.len() / dim, k),
        indexed(ops, data, dim, k, config, parallelism, centroids, lists),
    ensures
        clustered(
            ops,
            training_data(data, dim, k, config.seed),
            dim,
            k,
            config.max_iters as nat,
            config.seed,
            parallelism,
            centroids,
            picks,
        ),
        config.n_clusters matches Some(count) ==> k == count@,
        config.n_clusters is None ==> data.len() / dim <= k * k && (k > 0 ==> (k - 1) * (k - 1) < data.len() / dim),
{
    choose|picks: Seq<usize>| #[trigger]
        clustered(
            ops,
            training_data(data, dim, k, config.seed),
            dim,
            k,
            config.max_iters as nat,
            config.seed,
            parallelism,
            centroids,
            picks,
        )
}

/// Every centroid is seeded by a step of its own: as many steps as centroids, each
/// from the one before, and the last leaves the centroids.
///
/// Gives the steps.
pub proof fn law_every_centroid_is_seeded<M, A, T, V>(
    ops: Arithmetic<M, A, T, V>,
    data: Seq<Scalar>,
    dim: nat,
    k: nat,
    parallelism: nat,
    state: Seq<u32>,
    centroids: Seq<Scalar>,
) -> (steps: Seq<SeedStep>) where
    M: Fn(&[Scalar], &[Scalar]) -> Vec<Scalar>,
    A: Fn(Scalar, Scalar) -> Scalar,
    T: Fn(u32, Scalar) -> Scalar,
    V: Fn(Scalar, usize) -> Scalar,

    requires
        seeded_centroids(ops, data, dim, k, parallelism, state, centroids),
        k > 0,
    ensures
        steps.len() == k,
        seeding_runs(
            ops,
            data,
            dim,
            k,
            init_rows(state, data.len() / dim, k).0,
            parallelism,
            init_rows(state, data.len() / dim, k).1,
            steps,
        ),
        forall|i: int|
            0 < i < k ==> seeding_continues(
                ops,
                data,
                dim,
                init_rows(state, data.len() / dim, k).0,
                parallelism,
                i,
                steps[i - 1],
                #[trigger] steps[i],
            ),
        centroids == steps[k - 1].centroids,
{
    let drawn = init_rows(state, data.len() / dim, k);
    let steps = choose|steps: Seq<SeedStep>| #[trigger]
        seeding_runs(ops, data, dim, k, drawn.0, parallelism, drawn.1, steps) && centroids == steps.last().centroids;
    assert forall|i: int| 0 < i < k implies seeding_continues(
        ops,
        data,
        dim,
        drawn.0,
        parallelism,
        i,
        steps[i - 1],
        #[trigger] steps[i],
    ) by {
        assert(seeding_follows(ops, data, dim, drawn.0, parallelism, steps, i));
    }
    steps
}

/// The first centroid is a copy of the row drawn for it, and its distances from
/// the competing rows are their first gaps.
pub proof fn law_the_first_centroid_is_the_row_drawn<M: Fn(&[Scalar], &[Scalar]) -> Vec<Scalar>>(
    measure: M,
    data: Seq<Scalar>,
    dim: nat,
    k: nat,
    rows: Seq<usize>,
    state: Seq<u32>,
    step: SeedStep,
)
    requires
        seeding_starts(measure, data, dim, k, rows, state, step),
        k > 0,
        forall|r: int| 0 <= r < rows.len() ==> (#[trigger] rows[r] + 1) * dim <= data.len(),
    ensures
        step.centroids.len() == k * dim,
        ({
            let (choice, left) = index_draw(state, rows.len() as usize, usize::BITS);
            &&& choice < rows.len()
            &&& step.centroids.subrange(0, dim as int) == data.subrange(
                rows[choice as int] * dim,
                (rows[choice as int] + 1) * dim,
            )
            &&& step.state == left
        }),
        exists|v: &[Scalar], m: &[Scalar], d: Vec<Scalar>|
            {
                &&& v@ == step.centroids.subrange(0, dim as int)
                &&& m@ == gathered(data, dim, rows)
                &&& d@ == step.gaps
                &&& #[trigger] call_ensures(measure, (v, m), d)
            },
{
    let choice = index_draw(state, rows.len() as usize, usize::BITS).0;
    let first = row(data, dim, rows[choice as int] as int);
    lemma_row_within(k as int, dim as int, 0);
    lemma_row_within(rows[choice as int] + 1, dim as int, rows[choice as int] as int);
    lemma_with_row(zeros(k * dim), dim, 0, first, 0);
    assert(0 * dim == 0 && 1 * dim == dim) by (nonlinear_arith);
}

/// Without a round of clustering, every row is in the first cluster and the
/// centroids are those it was seeded with.
pub proof fn law_without_rounds_nothing_moves<M, A, T, V>(
    ops: Arithmetic<M, A, T, V>,
    data: Seq<Scalar>,
    dim: nat,
    k: nat,
    seed: u64,
    parallelism: nat,
    centroids: Seq<Scalar>,
    picks: Seq<usize>,
) where
    M: Fn(&[Scalar], &[Scalar]) -> Vec<Scalar>,
    A: Fn(Scalar, Scalar) -> Scalar,
    T: Fn(u32, Scalar) -> Scalar,
    V: Fn(Scalar, usize) -> Scalar,

    requires
        clustered(ops, data, dim, k, 0, seed, parallelism, centroids, picks),
    ensures
        seeded_centroids(ops, data, dim, k, parallelism, seeded_state(seed), centroids),
        picks.len() == data.len() / dim,
        forall|i: int| 0 <= i < picks.len() ==> #[trigger] picks[i] == 0,
{
    let (seeds, steps) = choose|seeds: Seq<Scalar>, steps: Seq<ClusterStep>|
        {
            &&& #[trigger] seeded_centroids(ops, data, dim, k, parallelism, seeded_state(seed), seeds)
            &&& #[trigger] clustering_runs(ops, data, dim, k, 0, seeds, steps)
            &&& centroids == steps.last().centroids
            &&& picks == steps.last().picks
        };
    assert(steps.last() == steps[0]);
}

/// One more round moves the centroids to the means of the rows that it assigned to
/// them, or changes nothing where it would move no row.
pub proof fn law_one_more_round_moves_centroids_to_their_means<M, A, T, V>(
    ops: Arithmetic<M, A, T, V>,
    data: Seq<Scalar>,
    dim: nat,
    k: nat,
    max_iters: nat,
    seed: u64,
    parallelism: nat,
    centroids_a: Seq<Scalar>,
    picks_a: Seq<usize>,
    centroids_b: Seq<Scalar>,
    picks_b: Seq<usize>,
) where
    M: Fn(&[Scalar], &[Scalar]) -> Vec<Scalar>,
    A: Fn(Scalar, Scalar) -> Scalar,
    T: Fn(u32, Scalar) -> Scalar,
    V: Fn(Scalar, usize) -> Scalar,

    requires
        repeats(ops),
        dim > 0,
        k > 0,
        clustered(ops, data, dim, k, max_iters, seed, parallelism, centroids_a, picks_a),
        clustered(ops, data, dim, k, max_iters + 1, seed, parallelism, centroids_b, picks_b),
    ensures
        assigned(ops.measure, data, dim, centroids_a, k, picks_a) ==> centroids_b == centroids_a && picks_b == picks_a,
        !assigned(ops.measure, data, dim, centroids_a, k, picks_a) ==> {
            &&& assigned(ops.measure, data, dim, centroids_a, k, picks_b)
            &&& means(ops.plus, ops.divide, data, dim, picks_b, k, centroids_b)
        },
{
    let (seeds, _steps) = choose|seeds: Seq<Scalar>, steps: Seq<ClusterStep>|
        {
            &&& #[trigger] seeded_centroids(ops, data, dim, k, parallelism, seeded_state(seed), seeds)
            &&& #[trigger] clustering_runs(ops, data, dim, k, max_iters, seeds, steps)
            &&& centroids_a == steps.last().centroids
            &&& picks_a == steps.last().picks
        };
    let a = lemma_run_of(ops, data, dim, k, max_iters, seed, parallelism, seeds, centroids_a, picks_a);
    let b = lemma_run_of(ops, data, dim, k, max_iters + 1, seed, parallelism, seeds, centroids_b, picks_b);
    lemma_fewer_iters_is_no_longer(ops, data, dim, k, max_iters, max_iters + 1, seeds, a, b);
    if assigned(ops.measure, data, dim, centroids_a, k, picks_a) {
        lemma_settled_is_longest(ops, data, dim, k, max_iters, max_iters + 1, seeds, a, b);
    } else {
        assert(a.len() == max_iters + 1);
        if b.len() == a.len() {
            assert(b.last() == a.last());
        }
        assert(b.len() == a.len() + 1);
        assert(clustering_follows(ops, data, dim, k, b, b.len() - 1));
    }
}

/// Once chosen, a centroid stays as it is.
pub proof fn law_chosen_centroids_stay<M, A, T, V>(
    ops: Arithmetic<M, A, T, V>,
    data: Seq<Scalar>,
    dim: nat,
    k: nat,
    rows: Seq<usize>,
    parallelism: nat,
    state: Seq<u32>,
    steps: Seq<SeedStep>,
    s: int,
    c: int,
) where
    M: Fn(&[Scalar], &[Scalar]) -> Vec<Scalar>,
    A: Fn(Scalar, Scalar) -> Scalar,
    T: Fn(u32, Scalar) -> Scalar,
    V: Fn(Scalar, usize) -> Scalar,

    requires
        seeding_runs(ops, data, dim, k, rows, parallelism, state, steps),
        forall|r: int| 0 <= r < rows.len() ==> (#[trigger] rows[r] + 1) * dim <= data.len(),
        0 <= c <= s < k,
    ensures
        steps[s].centroids.len() == k * dim,
        row(steps[s].centroids, dim, c) == row(steps[c].centroids, dim, c),
    decreases s,
{
    lemma_row_within(k as int, dim as int, s);
    lemma_row_within(k as int, dim as int, c);
    if s > 0 {
        assert(seeding_follows(ops, data, dim, rows, parallelism, steps, s));
        if c < s {
            law_chosen_centroids_stay(ops, data, dim, k, rows, parallelism, state, steps, s - 1, c);
        } else {
            law_chosen_centroids_stay(ops, data, dim, k, rows, parallelism, state, steps, s - 1, s - 1);
        }
        let before = steps[s - 1].centroids;
        let after = steps[s].centroids;
        if after != before && c < s {
            let r = choose|r: int|
                0 <= r < rows.len() && after == with_row(before, dim, s, row(data, dim, #[trigger] rows[r] as int));
            lemma_row_within(rows[r] + 1, dim as int, rows[r] as int);
            lemma_with_row(before, dim, s, row(data, dim, rows[r] as int), c);
        }
    }
}

/// The place of the centroid from which the `c`-th distance of a row is taken: the
/// first is taken from the first centroid, and each further one from the centroid
/// before.
pub open spec fn place_before(c: int) -> int {
    if c == 0 {
        0
    } else {
        c - 1
    }
}

/// The gap of a competing row is the least of its distances from the centroids
/// chosen before: after step `s`, none of the distances from the centroids up to
/// that before the one just chosen is below it, and it is one of them.
pub proof fn law_gaps_are_least_distances<M, A, T, V>(
    ops: Arithmetic<M, A, T, V>,
    data: Seq<Scalar>,
    dim: nat,
    k: nat,
    rows: Seq<usize>,
    parallelism: nat,
    state: Seq<u32>,
    steps: Seq<SeedStep>,
    s: int,
    r: int,
) -> (distances: Seq<Scalar>) where
    M: Fn(&[Scalar], &[Scalar]) -> Vec<Scalar>,
    A: Fn(Scalar, Scalar) -> Scalar,
    T: Fn(u32, Scalar) -> Scalar,
    V: Fn(Scalar, usize) -> Scalar,

    requires
        seeding_runs(ops, data, dim, k, rows, parallelism, state, steps),
        forall|r: int| 0 <= r < rows.len() ==> (#[trigger] rows[r] + 1) * dim <= data.len(),
        measures(ops.measure),
        dim > 0,
        0 <= s < k,
        0 <= r < rows.len(),
    ensures
        steps[s].gaps.len() == rows.len(),
        distances.len() == s + 1,
        forall|c: int|
            0 <= c <= s ==> gave(
                ops.measure,
                steps[s].centroids.subrange(place_before(c) * dim, (place_before(c) + 1) * dim),
                gathered(data, dim, rows),
                r,
                #[trigger] distances[c],
            ),
        forall|c: int| 0 <= c <= s ==> !(#[trigger] distances[c]).lt(steps[s].gaps[r]),
        distances.contains(steps[s].gaps[r]),
    decreases s,
{
    let pool = gathered(data, dim, rows);
    lemma_gathered_len(data, dim, rows);
    lemma_whole_rows(rows.len() as int, dim as int);
    if s == 0 {
        let distances = seq![steps[0].gaps[r]];
        let (v, m, d) = choose|v: &[Scalar], m: &[Scalar], d: Vec<Scalar>|
            v@ == row(steps[0].centroids, dim, 0) && m@ == pool && d@ == steps[0].gaps && #[trigger] call_ensures(
                ops.measure,
                (v, m),
                d,
            );
        law_chosen_centroids_stay(ops, data, dim, k, rows, parallelism, state, steps, 0, 0);
        lemma_row_within(k as int, dim as int, 0);
        assert(call_ensures(ops.measure, (v, m), d) && d@[r] == distances[0]);
        assert(gave(ops.measure, row(steps[0].centroids, dim, place_before(0)), pool, r, distances[0]));
        assert(distances.contains(distances[0]));
        distances
    } else {
        assert(seeding_follows(ops, data, dim, rows, parallelism, steps, s));
        let offered = choose|offered: Seq<Scalar>|
            {
                &&& #[trigger] measured(ops.measure, centroid_before(steps[s - 1].centroids, dim, s), pool, offered)
                &&& steps[s].gaps == lesser(steps[s - 1].gaps, offered)
            };
        let before = law_gaps_are_least_distances(ops, data, dim, k, rows, parallelism, state, steps, s - 1, r);
        let distances = before.push(offered[r]);
        law_chosen_centroids_stay(ops, data, dim, k, rows, parallelism, state, steps, s - 1, s - 1);
        lemma_row_within(k as int, dim as int, s - 1);
        assert(gave(ops.measure, row(steps[s - 1].centroids, dim, s - 1), pool, r, offered[r])) by {
            let (v, m, d) = choose|v: &[Scalar], m: &[Scalar], d: Vec<Scalar>|
                v@ == row(steps[s - 1].centroids, dim, s - 1) && m@ == pool && d@ == offered && #[trigger] call_ensures(
                    ops.measure,
                    (v, m),
                    d,
                );
            assert(call_ensures(ops.measure, (v, m), d) && d@[r] == offered[r]);
        }
        assert forall|c: int| 0 <= c <= s implies gave(
            ops.measure,
            row(steps[s].centroids, dim, place_before(c)),
            pool,
            r,
            #[trigger] distances[c],
        ) by {
            let at = place_before(c);
            law_chosen_centroids_stay(ops, data, dim, k, rows, parallelism, state, steps, s, at);
            law_chosen_centroids_stay(ops, data, dim, k, rows, parallelism, state, steps, s - 1, at);
            if c < s {
                assert(before[c] == distances[c]);
                assert(gave(ops.measure, row(steps[s - 1].centroids, dim, at), pool, r, before[c]));
            }
        }
        assert forall|c: int| 0 <= c <= s implies !(#[trigger] distances[c]).lt(steps[s].gaps[r]) by {
            if c < s {
                assert(!before[c].lt(steps[s - 1].gaps[r]));
            }
        }
        if offered[r].lt(steps[s - 1].gaps[r]) {
            assert(distances[s] == steps[s].gaps[r]);
        } else {
            let c = choose|c: int| 0 <= c < before.len() && before[c] == steps[s - 1].gaps[r];
            assert(distances[c] == steps[s].gaps[r]);
        }
        distances
    }
}

} // verus!
