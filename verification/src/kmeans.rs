//! K-means clustering with k-means++ initialization.

use crate::arithmetic::{adds, lemma_summed_none, lemma_summed_push, summed, Arithmetic};
use crate::count::ClusterCount;
use crate::embeddings::{lemma_row_within, lemma_rows_of, row, Embeddings};
use crate::matrix::{cell, lemma_cell, lemma_cells_differ, zero_vector};
use crate::nearest::{assign_rows, assigned, assigned_by, column, nearest};
use crate::rng::{index_draw, seeded, seeded_state};
use crate::scalar::{zero, Scalar};
use crate::seeding::{init_rows, seed_centroids, seeded_centroids, seeding_runs, SeedStep};
use vstd::prelude::*;

verus! {

/// How to cluster.
#[derive(Clone, Copy, Debug)]
pub struct KMeansParams {
    pub n_clusters: ClusterCount,
    pub max_iters: usize,
    pub seed: u64,
}

/// How many of the first `upto` rows are assigned to `cluster`.
pub open spec fn members(picks: Seq<usize>, cluster: int, upto: int) -> nat
    decreases upto,
{
    if upto <= 0 {
        0
    } else {
        members(picks, cluster, upto - 1) + if picks[upto - 1] == cluster {
            1nat
        } else {
            0nat
        }
    }
}

/// The values in column `d` of those of the first `upto` rows that are assigned
/// to `cluster`, in order.
pub open spec fn member_values(
    data: Seq<Scalar>,
    dim: nat,
    picks: Seq<usize>,
    cluster: int,
    d: int,
    upto: int,
) -> Seq<Scalar>
    decreases upto,
{
    if upto <= 0 {
        Seq::empty()
    } else {
        let front = member_values(data, dim, picks, cluster, d, upto - 1);
        if picks[upto - 1] == cluster {
            front.push(data[cell(dim, upto - 1, d)])
        } else {
            front
        }
    }
}

proof fn lemma_member_values_len(data: Seq<Scalar>, dim: nat, picks: Seq<usize>, cluster: int, d: int, upto: int)
    ensures
        member_values(data, dim, picks, cluster, d, upto).len() == members(picks, cluster, upto),
    decreases upto,
{
    if upto > 0 {
        lemma_member_values_len(data, dim, picks, cluster, d, upto - 1);
    }
}

proof fn lemma_members_bound(picks: Seq<usize>, cluster: int, upto: int)
    ensures
        members(picks, cluster, upto) <= if upto < 0 {
            0
        } else {
            upto
        },
    decreases upto,
{
    if upto > 0 {
        lemma_members_bound(picks, cluster, upto - 1);
    }
}

/// Whether `mean` is the sum of `values` divided by their number, or zero where
/// there is none.
pub open spec fn mean_of<A, V>(plus: A, divide: V, values: Seq<Scalar>, mean: Scalar) -> bool where
    A: Fn(Scalar, Scalar) -> Scalar,
    V: Fn(Scalar, usize) -> Scalar,
 {
    if values.len() == 0 {
        mean == zero()
    } else {
        exists|sum: Scalar| #[trigger]
            summed(plus, values, sum) && call_ensures(divide, (sum, values.len() as usize), mean)
    }
}

/// Whether row `j` of `centroids` is the mean of the rows assigned to cluster
/// `j`, for each of `k` clusters; zero where no row is.
pub open spec fn means<A, V>(
    plus: A,
    divide: V,
    data: Seq<Scalar>,
    dim: nat,
    picks: Seq<usize>,
    k: nat,
    centroids: Seq<Scalar>,
) -> bool where A: Fn(Scalar, Scalar) -> Scalar, V: Fn(Scalar, usize) -> Scalar {
    &&& centroids.len() == k * dim
    &&& forall|j: int, d: int|
        0 <= j < k && 0 <= d < dim ==> mean_of(
            plus,
            divide,
            member_values(data, dim, picks, j, d, picks.len() as int),
            centroids[#[trigger] cell(dim, j, d)],
        )
}

/// How many rows are assigned to each of `k` clusters.
pub fn cluster_sizes(picks: &[usize], k: usize) -> (r: Vec<usize>)
    requires
        forall|i: int| 0 <= i < picks@.len() ==> (#[trigger] picks@[i]) < k,
    ensures
        r@.len() == k,
        forall|j: int| 0 <= j < k ==> #[trigger] r@[j] == members(picks@, j, picks@.len() as int),
{
    let mut sizes: Vec<usize> = Vec::with_capacity(k);
    let mut j: usize = 0;
    while j < k
        invariant
            j <= k,
            sizes@.len() == j,
            forall|c: int| 0 <= c < j ==> #[trigger] sizes@[c] == 0,
        decreases k - j,
    {
        sizes.push(0);
        j = j + 1;
    }
    let mut i: usize = 0;
    while i < picks.len()
        invariant
            i <= picks@.len(),
            sizes@.len() == k,
            forall|i: int| 0 <= i < picks@.len() ==> (#[trigger] picks@[i]) < k,
            forall|c: int| 0 <= c < k ==> #[trigger] sizes@[c] == members(picks@, c, i as int),
        decreases picks@.len() - i,
    {
        let cluster: usize = picks[i];
        proof {
            lemma_members_bound(picks@, cluster as int, i as int);
        }
        sizes.set(cluster, sizes[cluster] + 1);
        i = i + 1;
    }
    sizes
}

/// Adds row `i` of `data` to row `cluster` of `sums`.
fn add_row<A: Fn(Scalar, Scalar) -> Scalar>(
    sums: &mut Vec<Scalar>,
    data: &[Scalar],
    dim: usize,
    picks: &[usize],
    k: usize,
    i: usize,
    plus: &A,
)
    requires
        adds(*plus),
        i < picks@.len(),
        picks@[i as int] < k,
        (i + 1) * dim <= data@.len(),
        old(sums)@.len() == k * dim,
        forall|j: int, d: int|
            0 <= j < k && 0 <= d < dim ==> summed(
                *plus,
                member_values(data@, dim as nat, picks@, j, d, i as int),
                old(sums)@[#[trigger] cell(dim as nat, j, d)],
            ),
    ensures
        final(sums)@.len() == k * dim,
        forall|j: int, d: int|
            0 <= j < k && 0 <= d < dim ==> summed(
                *plus,
                member_values(data@, dim as nat, picks@, j, d, i + 1),
                final(sums)@[#[trigger] cell(dim as nat, j, d)],
            ),
{
    let cluster: usize = picks[i];
    let ghost w = dim as nat;
    let ghost before = sums@;
    let ghost after = |j: int, d: int| member_values(data@, w, picks@, j, d, i + 1);
    proof {
        lemma_row_within(k as int, dim as int, cluster as int);
        lemma_row_within(i + 1, dim as int, i as int);
        assert(data@.len() == data.len());
        assert(sums@.len() == sums.len());
    }
    let from: usize = i * dim;
    let base: usize = cluster * dim;
    let mut e: usize = 0;
    while e < dim
        invariant
            adds(*plus),
            e <= dim,
            w == dim,
            i < picks@.len(),
            cluster == picks@[i as int],
            cluster < k,
            from == i * dim,
            base == cluster * dim,
            from + dim <= data@.len(),
            base + dim <= sums@.len(),
            data@.len() <= usize::MAX,
            sums@.len() == k * dim,
            sums@.len() <= usize::MAX,
            forall|j: int, d: int|
                0 <= j < k && 0 <= d < dim ==> summed(
                    *plus,
                    member_values(data@, w, picks@, j, d, i as int),
                    before[#[trigger] cell(w, j, d)],
                ),
            forall|p: int|
                0 <= p < sums@.len() && !(base <= p < base + e) ==> #[trigger] sums@[p] == before[p],
            forall|d: int|
                0 <= d < e ==> summed(
                    *plus,
                    member_values(data@, w, picks@, cluster as int, d, i + 1),
                    sums@[#[trigger] cell(w, cluster as int, d)],
                ),
        decreases dim - e,
    {
        let value: Scalar = data[from + e];
        let sum: Scalar = sums[base + e];
        let next: Scalar = plus(sum, value);
        proof {
            let c = cluster as int;
            let at = cell(w, c, e as int);
            assert(at == base + e);
            assert(cell(w, i as int, e as int) == from + e);
            assert(summed(*plus, member_values(data@, w, picks@, c, e as int, i as int), before[at]));
            lemma_summed_push(*plus, member_values(data@, w, picks@, c, e as int, i as int), sum, value, next);
        }
        sums.set(base + e, next);
        e = e + 1;
    }
    proof {
        assert forall|j: int, d: int| 0 <= j < k && 0 <= d < dim implies summed(
            *plus,
            member_values(data@, w, picks@, j, d, i + 1),
            sums@[#[trigger] cell(w, j, d)],
        ) by {
            lemma_cell(k as int, w, j, d);
            if j != cluster {
                let p = cell(w, j, d);
                if base <= p < base + dim {
                    lemma_cells_differ(w, j, d, cluster as int, p - base);
                }
                assert(sums@[p] == before[p]);
            }
        }
    }
}

/// The mean of the rows assigned to each of `k` clusters.
pub fn update_centroids<A, V>(
    data: &[Scalar],
    dim: usize,
    picks: &[usize],
    k: usize,
    plus: &A,
    divide: &V,
) -> (r: Vec<Scalar>) where A: Fn(Scalar, Scalar) -> Scalar, V: Fn(Scalar, usize) -> Scalar
    requires
        adds(*plus),
        forall|sum: Scalar, count: usize| count > 0 ==> #[trigger] call_requires(*divide, (sum, count)),
        k * dim <= usize::MAX,
        data@.len() == picks@.len() * dim,
        forall|i: int| 0 <= i < picks@.len() ==> (#[trigger] picks@[i]) < k,
    ensures
        means(*plus, *divide, data@, dim as nat, picks@, k as nat, r@),
{
    let ghost w = dim as nat;
    let n: usize = picks.len();
    let sizes = cluster_sizes(picks, k);
    let mut sums = zero_vector(k * dim);
    proof {
        lemma_summed_none(*plus);
        assert forall|j: int, d: int| 0 <= j < k && 0 <= d < dim implies summed(
            *plus,
            member_values(data@, w, picks@, j, d, 0),
            sums@[#[trigger] cell(w, j, d)],
        ) by {
            lemma_cell(k as int, w, j, d);
        }
    }
    let mut i: usize = 0;
    while i < n
        invariant
            adds(*plus),
            n == picks@.len(),
            i <= n,
            w == dim,
            data@.len() == picks@.len() * dim,
            forall|i: int| 0 <= i < picks@.len() ==> (#[trigger] picks@[i]) < k,
            sums@.len() == k * dim,
            forall|j: int, d: int|
                0 <= j < k && 0 <= d < dim ==> summed(
                    *plus,
                    member_values(data@, w, picks@, j, d, i as int),
                    sums@[#[trigger] cell(w, j, d)],
                ),
        decreases n - i,
    {
        proof {
            lemma_row_within(n as int, dim as int, i as int);
        }
        add_row(&mut sums, data, dim, picks, k, i, plus);
        i = i + 1;
    }
    let ghost totals = sums@;
    let mut j: usize = 0;
    while j < k
        invariant
            n == picks@.len(),
            w == dim,
            j <= k,
            sizes@.len() == k,
            forall|c: int| 0 <= c < k ==> #[trigger] sizes@[c] == members(picks@, c, n as int),
            forall|sum: Scalar, count: usize| count > 0 ==> #[trigger] call_requires(*divide, (sum, count)),
            sums@.len() == k * dim,
            sums@.len() <= usize::MAX,
            totals.len() == sums@.len(),
            forall|j: int, d: int|
                0 <= j < k && 0 <= d < dim ==> summed(
                    *plus,
                    member_values(data@, w, picks@, j, d, n as int),
                    totals[#[trigger] cell(w, j, d)],
                ),
            forall|p: int| j * dim <= p < sums@.len() ==> #[trigger] sums@[p] == totals[p],
            forall|c: int, d: int|
                0 <= c < j && 0 <= d < dim ==> mean_of(
                    *plus,
                    *divide,
                    member_values(data@, w, picks@, c, d, n as int),
                    sums@[#[trigger] cell(w, c, d)],
                ),
        decreases k - j,
    {
        let size: usize = sizes[j];
        let ghost before = sums@;
        proof {
            lemma_row_within(k as int, dim as int, j as int);
        }
        let base: usize = j * dim;
        let mut e: usize = 0;
        while e < dim
            invariant
                n == picks@.len(),
                w == dim,
                j < k,
                e <= dim,
                base == j * dim,
                base + dim <= sums@.len(),
                (j + 1) * dim == base + dim,
                size == members(picks@, j as int, n as int),
                forall|sum: Scalar, count: usize| count > 0 ==> #[trigger] call_requires(*divide, (sum, count)),
                sums@.len() == k * dim,
                sums@.len() <= usize::MAX,
                totals.len() == sums@.len(),
                before.len() == sums@.len(),
                forall|j: int, d: int|
                    0 <= j < k && 0 <= d < dim ==> summed(
                        *plus,
                        member_values(data@, w, picks@, j, d, n as int),
                        totals[#[trigger] cell(w, j, d)],
                    ),
                forall|p: int| base + e <= p < sums@.len() ==> #[trigger] sums@[p] == totals[p],
                forall|p: int| 0 <= p < base ==> #[trigger] sums@[p] == before[p],
                forall|d: int|
                    0 <= d < e ==> mean_of(
                        *plus,
                        *divide,
                        member_values(data@, w, picks@, j as int, d, n as int),
                        sums@[#[trigger] cell(w, j as int, d)],
                    ),
            decreases dim - e,
        {
            let ghost values = member_values(data@, w, picks@, j as int, e as int, n as int);
            proof {
                assert(cell(w, j as int, e as int) == base + e);
                lemma_member_values_len(data@, w, picks@, j as int, e as int, n as int);
                assert(summed(*plus, values, totals[cell(w, j as int, e as int)]));
            }
            if size > 0 {
                let mean: Scalar = divide(sums[base + e], size);
                sums.set(base + e, mean);
            } else {
                proof {
                    assert(values =~= Seq::<Scalar>::empty());
                }
            }
            assert(mean_of(*plus, *divide, values, sums@[base + e]));
            e = e + 1;
        }
        proof {
            assert forall|c: int, d: int| 0 <= c < j + 1 && 0 <= d < dim implies mean_of(
                *plus,
                *divide,
                member_values(data@, w, picks@, c, d, n as int),
                sums@[#[trigger] cell(w, c, d)],
            ) by {
                if c < j {
                    lemma_cell(j as int, w, c, d);
                    assert(before[cell(w, c, d)] == sums@[cell(w, c, d)]);
                }
            }
        }
        j = j + 1;
    }
    sums
}

/// One state of clustering: the centroids, and the cluster of each row.
pub struct ClusterStep {
    pub centroids: Seq<Scalar>,
    pub picks: Seq<usize>,
}

/// Whether step `s` of `steps` follows from the one before it: each row goes to
/// the centroid nearest to it, some row to another than before, and the
/// centroids move to the means of their rows.
pub open spec fn clustering_follows<M, A, T, V>(
    ops: Arithmetic<M, A, T, V>,
    data: Seq<Scalar>,
    dim: nat,
    k: nat,
    steps: Seq<ClusterStep>,
    s: int,
) -> bool where
    M: Fn(&[Scalar], &[Scalar]) -> Vec<Scalar>,
    A: Fn(Scalar, Scalar) -> Scalar,
    T: Fn(u32, Scalar) -> Scalar,
    V: Fn(Scalar, usize) -> Scalar,
 {
    &&& assigned(ops.measure, data, dim, steps[s - 1].centroids, k, steps[s].picks)
    &&& steps[s].picks != steps[s - 1].picks
    &&& means(ops.plus, ops.divide, data, dim, steps[s].picks, k, steps[s].centroids)
}

/// Whether `steps` is a run of clustering from the centroids `seeds`: it starts
/// with every row in cluster 0, takes at most `max_iters` steps, and stops
/// earlier only where going to the nearest centroid moves no row.
pub open spec fn clustering_runs<M, A, T, V>(
    ops: Arithmetic<M, A, T, V>,
    data: Seq<Scalar>,
    dim: nat,
    k: nat,
    max_iters: nat,
    seeds: Seq<Scalar>,
    steps: Seq<ClusterStep>,
) -> bool where
    M: Fn(&[Scalar], &[Scalar]) -> Vec<Scalar>,
    A: Fn(Scalar, Scalar) -> Scalar,
    T: Fn(u32, Scalar) -> Scalar,
    V: Fn(Scalar, usize) -> Scalar,
 {
    &&& 1 <= steps.len() <= max_iters + 1
    &&& steps[0].centroids == seeds
    &&& steps[0].picks == Seq::new(data.len() / dim, |i: int| 0usize)
    &&& forall|s: int| 0 < s < steps.len() ==> #[trigger] clustering_follows(ops, data, dim, k, steps, s)
    &&& steps.len() == max_iters + 1 || assigned(
        ops.measure,
        data,
        dim,
        steps.last().centroids,
        k,
        steps.last().picks,
    )
}

/// Whether `centroids` and `picks` are an outcome of clustering the rows of
/// `data` into `k` clusters: of a run of clustering from seeded centroids.
pub open spec fn clustered<M, A, T, V>(
    ops: Arithmetic<M, A, T, V>,
    data: Seq<Scalar>,
    dim: nat,
    k: nat,
    max_iters: nat,
    seed: u64,
    parallelism: nat,
    centroids: Seq<Scalar>,
    picks: Seq<usize>,
) -> bool where
    M: Fn(&[Scalar], &[Scalar]) -> Vec<Scalar>,
    A: Fn(Scalar, Scalar) -> Scalar,
    T: Fn(u32, Scalar) -> Scalar,
    V: Fn(Scalar, usize) -> Scalar,
 {
    exists|seeds: Seq<Scalar>, steps: Seq<ClusterStep>|
        {
            &&& #[trigger] seeded_centroids(ops, data, dim, k, parallelism, seeded_state(seed), seeds)
            &&& #[trigger] clustering_runs(ops, data, dim, k, max_iters, seeds, steps)
            &&& centroids == steps.last().centroids
            &&& picks == steps.last().picks
        }
}

/// Clustering that stops before `max_iters` steps has settled: each row is in the
/// cluster of the centroid nearest to it and, but for a run without a step, each
/// centroid is the mean of its rows.
pub proof fn law_early_stop_is_a_fixed_point<M, A, T, V>(
    ops: Arithmetic<M, A, T, V>,
    data: Seq<Scalar>,
    dim: nat,
    k: nat,
    max_iters: nat,
    seeds: Seq<Scalar>,
    steps: Seq<ClusterStep>,
) where
    M: Fn(&[Scalar], &[Scalar]) -> Vec<Scalar>,
    A: Fn(Scalar, Scalar) -> Scalar,
    T: Fn(u32, Scalar) -> Scalar,
    V: Fn(Scalar, usize) -> Scalar,

    requires
        clustering_runs(ops, data, dim, k, max_iters, seeds, steps),
        steps.len() <= max_iters,
    ensures
        assigned(ops.measure, data, dim, steps.last().centroids, k, steps.last().picks),
        steps.len() > 1 ==> means(ops.plus, ops.divide, data, dim, steps.last().picks, k, steps.last().centroids),
{
    if steps.len() > 1 {
        assert(clustering_follows(ops, data, dim, k, steps, steps.len() - 1));
    }
}

/// With one cluster, every row is in it and its centroid is a copy of a row.
pub proof fn law_one_cluster_is_a_copy_of_a_row<M, A, T, V>(
    ops: Arithmetic<M, A, T, V>,
    data: Seq<Scalar>,
    dim: nat,
    max_iters: nat,
    seed: u64,
    parallelism: nat,
    centroids: Seq<Scalar>,
    picks: Seq<usize>,
) where
    M: Fn(&[Scalar], &[Scalar]) -> Vec<Scalar>,
    A: Fn(Scalar, Scalar) -> Scalar,
    T: Fn(u32, Scalar) -> Scalar,
    V: Fn(Scalar, usize) -> Scalar,

    requires
        dim > 0,
        data.len() % dim == 0,
        clustered(ops, data, dim, 1, max_iters, seed, parallelism, centroids, picks),
    ensures
        exists|r: int| 0 <= r < data.len() / dim && centroids == #[trigger] row(data, dim, r),
        picks == Seq::new(data.len() / dim, |i: int| 0usize),
{
    let n = data.len() / dim;
    let (seeds, steps) = choose|seeds: Seq<Scalar>, steps: Seq<ClusterStep>|
        {
            &&& #[trigger] seeded_centroids(ops, data, dim, 1, parallelism, seeded_state(seed), seeds)
            &&& #[trigger] clustering_runs(ops, data, dim, 1, max_iters, seeds, steps)
            &&& centroids == steps.last().centroids
            &&& picks == steps.last().picks
        };
    if steps.len() > 1 {
        assert(clustering_follows(ops, data, dim, 1, steps, 1));
        let next = steps[1].picks;
        let tables = choose|tables: Seq<Seq<Scalar>>| #[trigger]
            assigned_by(ops.measure, data, dim, steps[0].centroids, 1, next, tables);
        assert forall|i: int| 0 <= i < next.len() implies next[i] == 0 by {
            assert(nearest(column(tables, i), next[i] as int));
        }
        assert(next =~= steps[0].picks);
    }
    let drawn = init_rows(seeded_state(seed), n, 1);
    let run = choose|run: Seq<SeedStep>| #[trigger]
        seeding_runs(ops, data, dim, 1, drawn.0, parallelism, drawn.1, run) && seeds == run.last().centroids;
    let choice = index_draw(drawn.1, drawn.0.len() as usize, usize::BITS).0;
    let r = drawn.0[choice as int] as int;
    lemma_rows_of(data.len() as int, dim as int);
    lemma_row_within(n as int, dim as int, r);
    assert(seeds =~= row(data, dim, r)) by {
        assert(0 * dim == 0 && 1 * dim == dim) by (nonlinear_arith);
    }
}

/// Whether two sequences of clusters are the same.
fn same_picks(a: &[usize], b: &[usize]) -> (r: bool)
    requires
        a@.len() == b@.len(),
    ensures
        r == (a@ == b@),
{
    let mut i: usize = 0;
    while i < a.len()
        invariant
            i <= a@.len(),
            a@.len() == b@.len(),
            forall|j: int| 0 <= j < i ==> #[trigger] a@[j] == b@[j],
        decreases a@.len() - i,
    {
        if a[i] != b[i] {
            return false;
        }
        i = i + 1;
    }
    assert(a@ =~= b@);
    true
}

/// Moves rows and centroids in turn until no row moves, or `max_iters` times.
fn settle<M, A, T, V>(
    data: &[Scalar],
    dim: usize,
    k: usize,
    max_iters: usize,
    seeds: Vec<Scalar>,
    ops: &Arithmetic<M, A, T, V>,
) -> (r: (Vec<Scalar>, Vec<usize>, Ghost<Seq<ClusterStep>>)) where
    M: Fn(&[Scalar], &[Scalar]) -> Vec<Scalar>,
    A: Fn(Scalar, Scalar) -> Scalar,
    T: Fn(u32, Scalar) -> Scalar,
    V: Fn(Scalar, usize) -> Scalar,

    requires
        ops.defined(),
        dim > 0,
        k > 0,
        data@.len() % (dim as nat) == 0,
        seeds@.len() == k * dim,
    ensures
        clustering_runs(*ops, data@, dim as nat, k as nat, max_iters as nat, seeds@, r.2@),
        r.0@ == r.2@.last().centroids,
        r.1@ == r.2@.last().picks,
        r.0@.len() == k * dim,
        r.1@.len() == data@.len() / (dim as nat),
        forall|i: int| 0 <= i < r.1@.len() ==> (#[trigger] r.1@[i]) < k,
{
    let ghost w = dim as nat;
    let ghost first = seeds@;
    let n: usize = data.len() / dim;
    proof {
        lemma_rows_of(data@.len() as int, dim as int);
    }
    let mut centroids = seeds;
    let mut picks: Vec<usize> = Vec::with_capacity(n);
    let mut i: usize = 0;
    while i < n
        invariant
            i <= n,
            picks@.len() == i,
            forall|j: int| 0 <= j < i ==> #[trigger] picks@[j] == 0,
        decreases n - i,
    {
        picks.push(0);
        i = i + 1;
    }
    let ghost mut steps: Seq<ClusterStep> = seq![ClusterStep { centroids: centroids@, picks: picks@ }];
    proof {
        assert(picks@ =~= Seq::new(data@.len() / w, |i: int| 0usize));
    }
    let mut iteration: usize = 0;
    while iteration < max_iters
        invariant
            ops.defined(),
            dim > 0,
            k > 0,
            w == dim,
            n == data@.len() / w,
            data@.len() % w == 0,
            data@.len() == n * dim,
            centroids@.len() == k * dim,
            iteration <= max_iters,
            picks@.len() == n,
            forall|i: int| 0 <= i < n ==> (#[trigger] picks@[i]) < k,
            steps.len() == iteration + 1,
            first == seeds@,
            steps[0].centroids == first,
            steps[0].picks == Seq::new(data@.len() / w, |i: int| 0usize),
            steps.last().centroids == centroids@,
            steps.last().picks == picks@,
            forall|s: int|
                0 < s < steps.len() ==> #[trigger] clustering_follows(*ops, data@, w, k as nat, steps, s),
        decreases max_iters - iteration,
    {
        let next = assign_rows(data, dim, centroids.as_slice(), k, &ops.measure);
        if same_picks(next.as_slice(), picks.as_slice()) {
            assert(clustering_runs(*ops, data@, w, k as nat, max_iters as nat, first, steps));
            return (centroids, picks, Ghost(steps));
        }
        assert(centroids@.len() == centroids.len());
        let moved = update_centroids(data, dim, next.as_slice(), k, &ops.plus, &ops.divide);
        proof {
            let longer = steps.push(ClusterStep { centroids: moved@, picks: next@ });
            assert forall|s: int| 0 < s < longer.len() implies #[trigger] clustering_follows(
                *ops,
                data@,
                w,
                k as nat,
                longer,
                s,
            ) by {
                if s < steps.len() {
                    assert(clustering_follows(*ops, data@, w, k as nat, steps, s));
                }
            }
            steps = longer;
        }
        centroids = moved;
        picks = next;
        iteration = iteration + 1;
    }
    assert(clustering_runs(*ops, data@, w, k as nat, max_iters as nat, first, steps));
    (centroids, picks, Ghost(steps))
}

/// Clusters the rows of `embeddings`: the centroids, and the cluster of each row.
pub fn k_means<M, A, T, V>(
    embeddings: &Embeddings,
    params: KMeansParams,
    parallelism: usize,
    ops: &Arithmetic<M, A, T, V>,
) -> (r: (Vec<Scalar>, Vec<usize>)) where
    M: Fn(&[Scalar], &[Scalar]) -> Vec<Scalar>,
    A: Fn(Scalar, Scalar) -> Scalar,
    T: Fn(u32, Scalar) -> Scalar,
    V: Fn(Scalar, usize) -> Scalar,

    requires
        ops.defined(),
        params.n_clusters@ <= embeddings.rows(),
    ensures
        clustered(
            *ops,
            embeddings.values(),
            embeddings.width(),
            params.n_clusters@ as nat,
            params.max_iters as nat,
            params.seed,
            parallelism as nat,
            r.0@,
            r.1@,
        ),
        r.0@.len() == params.n_clusters@ * embeddings.width(),
        r.1@.len() == embeddings.rows(),
        forall|i: int| 0 <= i < r.1@.len() ==> (#[trigger] r.1@[i]) < params.n_clusters@,
{
    let dim: usize = embeddings.dim().as_usize();
    let k: usize = params.n_clusters.as_usize();
    let data = embeddings.data();
    proof {
        crate::embeddings::lemma_whole_rows(embeddings.rows() as int, dim as int);
    }
    let mut rng = seeded(params.seed);
    let seeds = seed_centroids(data, dim, k, &mut rng, parallelism, ops);
    let ghost first = seeds@;
    let (centroids, picks, steps) = settle(data, dim, k, params.max_iters, seeds, ops);
    proof {
        assert(seeded_centroids(
            *ops,
            embeddings.values(),
            embeddings.width(),
            params.n_clusters@ as nat,
            parallelism as nat,
            seeded_state(params.seed),
            first,
        ));
        assert(clustering_runs(
            *ops,
            embeddings.values(),
            embeddings.width(),
            params.n_clusters@ as nat,
            params.max_iters as nat,
            first,
            steps@,
        ));
    }
    (centroids, picks)
}

} // verus!
