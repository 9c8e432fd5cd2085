//! Building an index.

use crate::arithmetic::Arithmetic;
use crate::count::ClusterCount;
use crate::embeddings::{lemma_row_within, lemma_rows_of, lemma_whole_rows, Embeddings};
use crate::error::Error;
use crate::index::{
    contents, disjoint, law_probed_clusters_are_closest, law_probing_all_misses_no_row,
    law_rows_of_clusters_are_distinct, lemma_rows_in_contains, probed, rows_in, IvfIndex,
};
use crate::kmeans::{clustered, k_means, KMeansParams};
use crate::matrix::{gather, gathered, lemma_gathered_row};
use crate::nearest::{assign_rows, assigned};
use crate::rng::{distinct_below, draw_sample, sample_draw, seeded, seeded_state};
use crate::scalar::Scalar;
use crate::selection::ascending;
use vstd::prelude::*;

verus! {

/// At most this many rows train the centroids, unless there are more clusters.
pub const TRAINING_ROWS: usize = 100_000;

/// How to build an index.
#[derive(Clone, Copy, Debug)]
pub struct IvfBuildConfig {
    /// The number of clusters; by default the square root of the number of rows,
    /// rounded up.
    pub n_clusters: Option<ClusterCount>,
    pub max_iters: usize,
    pub seed: u64,
}

/// Whether `root` is the square root of `n`, rounded up.
pub open spec fn root_rounded_up(n: nat, root: nat) -> bool {
    n <= root * root && (root > 0 ==> (root - 1) * (root - 1) < n)
}

/// The square root of `n`, rounded up.
pub fn ceil_root(n: usize) -> (r: usize)
    ensures
        root_rounded_up(n as nat, r as nat),
        n <= r * r,
        r > 0 ==> (r - 1) * (r - 1) < n,
        n > 0 ==> 0 < r <= n,
        r > u32::MAX <==> n > u32::MAX * u32::MAX,
{
    let goal: u128 = n as u128;
    let mut low: u128 = 0;
    let mut high: u128 = 0x1_0000_0000;
    assert(0x1_0000_0000 * 0x1_0000_0000 == 0x1_0000_0000_0000_0000) by (nonlinear_arith);
    while low < high
        invariant
            goal == n,
            low <= high <= 0x1_0000_0000,
            goal <= high * high,
            low > 0 ==> (low - 1) * (low - 1) < goal,
        decreases high - low,
    {
        let mid: u128 = low + (high - low) / 2;
        assert(mid * mid <= 0x1_0000_0000 * 0x1_0000_0000) by (nonlinear_arith)
            requires
                0 <= mid <= 0x1_0000_0000,
        ;
        if mid * mid >= goal {
            high = mid;
        } else {
            low = mid + 1;
        }
    }
    proof {
        let r = low as int;
        if n > 0 {
            if r == 0 {
                assert(r * r == 0) by (nonlinear_arith)
                    requires
                        r == 0,
                ;
            }
            if r > n {
                assert((r - 1) * (r - 1) >= n) by (nonlinear_arith)
                    requires
                        r - 1 >= n,
                        n >= 1,
                ;
            }
        }
        if r > u32::MAX {
            assert((r - 1) * (r - 1) >= u32::MAX * u32::MAX) by (nonlinear_arith)
                requires
                    r - 1 >= u32::MAX,
            ;
        } else {
            assert(r * r <= u32::MAX * u32::MAX) by (nonlinear_arith)
                requires
                    0 <= r <= u32::MAX,
            ;
        }
        if n == 0 && r > 0 {
            assert((r - 1) * (r - 1) >= 0) by (nonlinear_arith);
        }
    }
    low as usize
}

/// How many of `n` rows train `k` centroids: one in twenty, but at least one, at
/// most [`TRAINING_ROWS`], at least one for each centroid, and no more than there
/// are.
pub open spec fn training_size(n: nat, k: nat) -> nat {
    let share = if n / 20 < 1 {
        1
    } else {
        n / 20
    };
    let capped = if share < TRAINING_ROWS {
        share
    } else {
        TRAINING_ROWS as nat
    };
    let enough = if capped < k {
        k
    } else {
        capped
    };
    if enough < n {
        enough
    } else {
        n
    }
}

/// How many of `n` rows train `k` centroids.
pub fn training_rows(n: usize, k: usize) -> (r: usize)
    ensures
        r == training_size(n as nat, k as nat),
{
    let share: usize = if n / 20 < 1 {
        1
    } else {
        n / 20
    };
    let capped: usize = if share < TRAINING_ROWS {
        share
    } else {
        TRAINING_ROWS
    };
    let enough: usize = if capped < k {
        k
    } else {
        capped
    };
    if enough < n {
        enough
    } else {
        n
    }
}

/// The rows that train `k` centroids: all of them, or a random sample.
pub open spec fn training_data(data: Seq<Scalar>, dim: nat, k: nat, seed: u64) -> Seq<Scalar> {
    let n = data.len() / dim;
    let size = training_size(n, k);
    if size == n {
        data
    } else {
        gathered(data, dim, sample_draw(seeded_state(seed), n as usize, size as usize).0)
    }
}

/// A random sample of the rows of `embeddings`.
pub fn sample_embeddings(embeddings: &Embeddings, sample_size: usize, seed: u64) -> (r: Embeddings)
    requires
        sample_size <= embeddings.rows(),
        sample_size < embeddings.rows() || embeddings.rows() <= u32::MAX,
    ensures
        distinct_below(
            sample_draw(seeded_state(seed), embeddings.rows() as usize, sample_size).0,
            embeddings.rows(),
            sample_size as nat,
        ),
        r.values() == gathered(
            embeddings.values(),
            embeddings.width(),
            sample_draw(seeded_state(seed), embeddings.rows() as usize, sample_size).0,
        ),
        r.width() == embeddings.width(),
        r.rows() == sample_size,
{
    let n: usize = embeddings.row_count();
    let dim = embeddings.dim();
    let width: usize = dim.as_usize();
    let mut rng = seeded(seed);
    let indices = draw_sample(&mut rng, n, sample_size);
    proof {
        assert forall|i: int| 0 <= i < indices@.len() implies (#[trigger] indices@[i] + 1) * width
            <= embeddings.values().len() by {
            lemma_row_within(n as int, width as int, indices@[i] as int);
        }
        lemma_whole_rows(sample_size as int, width as int);
    }
    let data = gather(embeddings.data(), width, indices.as_slice());
    match Embeddings::new(data, dim) {
        Ok(sample) => sample,
        Err(_) => vstd::pervasive::unreached(),
    }
}

/// Those of the first `upto` rows that are assigned to `cluster`, in order, each
/// cut to 32 bits.
pub open spec fn cluster_rows(picks: Seq<usize>, cluster: int, upto: int) -> Seq<u32>
    decreases upto,
{
    if upto <= 0 {
        Seq::empty()
    } else {
        let front = cluster_rows(picks, cluster, upto - 1);
        if picks[upto - 1] == cluster {
            front.push((upto - 1) as u32)
        } else {
            front
        }
    }
}

/// The rows of each of `k` clusters.
pub open spec fn clusters_rows(picks: Seq<usize>, k: nat) -> Seq<Seq<u32>> {
    Seq::new(k, |c: int| cluster_rows(picks, c, picks.len() as int))
}

/// Lists the rows of each of `k` clusters.
pub fn list_clusters(picks: &[usize], k: usize) -> (r: Vec<Vec<u32>>)
    requires
        forall|i: int| 0 <= i < picks@.len() ==> (#[trigger] picks@[i]) < k,
    ensures
        contents(r@) == clusters_rows(picks@, k as nat),
{
    let mut lists: Vec<Vec<u32>> = Vec::with_capacity(k);
    let mut c: usize = 0;
    while c < k
        invariant
            c <= k,
            lists@.len() == c,
            forall|b: int| 0 <= b < c ==> (#[trigger] lists@[b])@ == cluster_rows(picks@, b, 0),
        decreases k - c,
    {
        lists.push(Vec::new());
        assert(lists@[c as int]@ =~= cluster_rows(picks@, c as int, 0));
        c = c + 1;
    }
    let mut i: usize = 0;
    while i < picks.len()
        invariant
            i <= picks@.len(),
            lists@.len() == k,
            forall|i: int| 0 <= i < picks@.len() ==> (#[trigger] picks@[i]) < k,
            forall|b: int| 0 <= b < k ==> (#[trigger] lists@[b])@ == cluster_rows(picks@, b, i as int),
        decreases picks@.len() - i,
    {
        let cluster: usize = picks[i];
        lists[cluster].push(i as u32);
        i = i + 1;
    }
    assert(contents(lists@) =~= clusters_rows(picks@, k as nat));
    lists
}

proof fn lemma_cluster_rows(picks: Seq<usize>, cluster: int, upto: int)
    requires
        0 <= upto <= picks.len(),
        picks.len() <= 0x1_0000_0000,
    ensures
        ascending(cluster_rows(picks, cluster, upto)),
        forall|row: u32| #[trigger]
            cluster_rows(picks, cluster, upto).contains(row) <==> row < upto && picks[row as int] == cluster,
    decreases upto,
{
    if upto > 0 {
        lemma_cluster_rows(picks, cluster, upto - 1);
        let front = cluster_rows(picks, cluster, upto - 1);
        let rows = cluster_rows(picks, cluster, upto);
        if picks[upto - 1] == cluster {
            let last = (upto - 1) as u32;
            assert forall|i: int, j: int| 0 <= i < j < rows.len() implies #[trigger] rows[i] < #[trigger] rows[j] by {
                assert(front.contains(front[i]));
            }
            assert forall|row: u32| #[trigger] rows.contains(row) <==> row < upto && picks[row as int] == cluster by {
                if rows.contains(row) {
                    let i = choose|i: int| 0 <= i < rows.len() && rows[i] == row;
                    if i < front.len() {
                        assert(front[i] == row);
                        assert(front.contains(row));
                    }
                }
                if row < upto && picks[row as int] == cluster {
                    if row < upto - 1 {
                        assert(front.contains(row));
                        let i = choose|i: int| 0 <= i < front.len() && front[i] == row;
                        assert(rows[i] == row);
                    } else {
                        assert(rows[front.len() as int] == last);
                    }
                }
            }
        }
    }
}

/// The lists of clusters share out the rows: each row is in the list of the
/// cluster it is assigned to and in no other, and each list ascends. More rows
/// than 32 bits can number are excluded: their numbers are cut.
pub proof fn law_lists_partition_rows(picks: Seq<usize>, k: nat)
    requires
        picks.len() <= 0x1_0000_0000,
    ensures
        disjoint(clusters_rows(picks, k)),
        forall|c: int| 0 <= c < k ==> ascending(#[trigger] clusters_rows(picks, k)[c]),
        forall|c: int, row: u32|
            0 <= c < k ==> (#[trigger] clusters_rows(picks, k)[c].contains(row) <==> row < picks.len()
                && picks[row as int] == c),
{
    let lists = clusters_rows(picks, k);
    assert forall|c: int| 0 <= c < k implies ascending(#[trigger] lists[c]) && lists[c].no_duplicates() by {
        lemma_cluster_rows(picks, c, picks.len() as int);
        let list = lists[c];
        assert forall|i: int, j: int| 0 <= i < j < list.len() implies list[i] != list[j] by {
            assert(list[i] < list[j]);
        }
    }
    assert forall|c: int, row: u32| 0 <= c < k implies (#[trigger] lists[c].contains(row) <==> row < picks.len()
        && picks[row as int] == c) by {
        lemma_cluster_rows(picks, c, picks.len() as int);
    }
}

/// However many clusters are probed, no row comes up twice, and each is a row of
/// the file.
pub proof fn law_candidates_are_different_rows(picks: Seq<usize>, distances: Seq<Scalar>, nprobe: nat)
    requires
        picks.len() <= 0x1_0000_0000,
        distances.len() <= usize::MAX,
    ensures
        ({
            let rows = rows_in(clusters_rows(picks, distances.len()), probed(distances, nprobe));
            &&& rows.no_duplicates()
            &&& forall|i: int| 0 <= i < rows.len() ==> (#[trigger] rows[i]) < picks.len()
        }),
{
    let lists = clusters_rows(picks, distances.len());
    let clusters = probed(distances, nprobe);
    let rows = rows_in(lists, clusters);
    law_lists_partition_rows(picks, distances.len());
    law_probed_clusters_are_closest(distances, nprobe);
    law_rows_of_clusters_are_distinct(lists, clusters);
    assert forall|i: int| 0 <= i < rows.len() implies (#[trigger] rows[i]) < picks.len() by {
        assert(rows.contains(rows[i]));
        lemma_rows_in_contains(lists, clusters, rows[i]);
        let p = choose|p: int| 0 <= p < clusters.len() && lists[#[trigger] clusters[p] as int].contains(rows[i]);
        assert(lists[clusters[p] as int].contains(rows[i]));
    }
}

/// Probing every cluster of an index finds each of its rows exactly once.
pub proof fn law_probing_all_finds_each_row_once(picks: Seq<usize>, distances: Seq<Scalar>, nprobe: nat)
    requires
        picks.len() <= 0x1_0000_0000,
        distances.len() <= usize::MAX,
        nprobe >= distances.len(),
        forall|i: int| 0 <= i < picks.len() ==> (#[trigger] picks[i]) < distances.len(),
    ensures
        ({
            let rows = rows_in(clusters_rows(picks, distances.len()), probed(distances, nprobe));
            &&& rows.no_duplicates()
            &&& forall|row: u32| #[trigger] rows.contains(row) <==> row < picks.len()
        }),
{
    let k = distances.len();
    let lists = clusters_rows(picks, k);
    let rows = rows_in(lists, probed(distances, nprobe));
    law_lists_partition_rows(picks, k);
    law_probed_clusters_are_closest(distances, nprobe);
    law_rows_of_clusters_are_distinct(lists, probed(distances, nprobe));
    assert forall|row: u32| #[trigger] rows.contains(row) <==> row < picks.len() by {
        law_probing_all_misses_no_row(distances, lists, nprobe, row);
        if row < picks.len() {
            let c = picks[row as int] as int;
            assert(lists[c].contains(row));
        }
    }
}

/// Whether the training data is all of `n` rows, or different ones of them.
pub open spec fn trains_on_different_rows(n: nat, k: nat, seed: u64) -> bool {
    let size = training_size(n, k);
    size < n ==> distinct_below(sample_draw(seeded_state(seed), n as usize, size as usize).0, n, size)
}

/// One row in twenty trains the centroids, but no fewer than there are centroids,
/// no more than a hundred thousand if that is enough for one each, at least one,
/// and no more than there are.
pub proof fn law_one_row_in_twenty_trains(n: nat, k: nat)
    ensures
        training_size(n, k) <= n,
        k <= n ==> training_size(n, k) >= k,
        n > 0 ==> training_size(n, k) >= 1,
        20 <= n <= 2_000_019 && k <= n / 20 ==> training_size(n, k) == n / 20,
        n > 2_000_019 && k <= 100_000 ==> training_size(n, k) == 100_000,
        n < 20 && n > 0 && k <= 1 ==> training_size(n, k) == 1,
        1 <= k && n / 20 <= k <= n ==> training_size(n, k) == k,
        100_000 <= k <= n ==> training_size(n, k) == k,
        k > n ==> training_size(n, k) == n,
{
}

/// Each row that trains the centroids is a row of the file.
pub proof fn law_training_rows_are_rows_of_the_file(data: Seq<Scalar>, dim: nat, k: nat, seed: u64, i: int)
    requires
        dim > 0,
        data.len() % dim == 0,
        data.len() <= usize::MAX,
        k <= data.len() / dim,
        trains_on_different_rows(data.len() / dim, k, seed),
        0 <= i < training_size(data.len() / dim, k),
    ensures
        training_data(data, dim, k, seed).len() == training_size(data.len() / dim, k) * dim,
        exists|r: int|
            {
                &&& 0 <= r < data.len() / dim
                &&& training_data(data, dim, k, seed).subrange(i * dim, (i + 1) * dim) == #[trigger] data.subrange(
                    r * dim,
                    (r + 1) * dim,
                )
            },
{
    let n = data.len() / dim;
    let size = training_size(n, k);
    lemma_rows_of(data.len() as int, dim as int);
    if size == n {
        assert(training_data(data, dim, k, seed).subrange(i * dim, (i + 1) * dim) == data.subrange(
            i * dim,
            (i + 1) * dim,
        ));
    } else {
        let rows = sample_draw(seeded_state(seed), n as usize, size as usize).0;
        assert(size < n);
        assert forall|j: int| 0 <= j < rows.len() implies (#[trigger] rows[j] + 1) * dim <= data.len() by {
            lemma_row_within(n as int, dim as int, rows[j] as int);
        }
        lemma_gathered_row(data, dim, rows, i);
        let r = rows[i] as int;
        assert(training_data(data, dim, k, seed).subrange(i * dim, (i + 1) * dim) == data.subrange(
            r * dim,
            (r + 1) * dim,
        ));
    }
}

/// Whether `centroids` and `lists` are an index of the rows of `data`: the
/// centroids come of clustering the training data, and each row is listed with
/// the centroid nearest to it.
pub open spec fn indexed<M, A, T, V>(
    ops: Arithmetic<M, A, T, V>,
    data: Seq<Scalar>,
    dim: nat,
    k: nat,
    config: IvfBuildConfig,
    parallelism: nat,
    centroids: Seq<Scalar>,
    lists: Seq<Seq<u32>>,
) -> bool where
    M: Fn(&[Scalar], &[Scalar]) -> Vec<Scalar>,
    A: Fn(Scalar, Scalar) -> Scalar,
    T: Fn(u32, Scalar) -> Scalar,
    V: Fn(Scalar, usize) -> Scalar,
 {
    let training = training_data(data, dim, k, config.seed);
    &&& trains_on_different_rows(data.len() / dim, k, config.seed)
    &&& exists|picks: Seq<usize>| #[trigger]
        clustered(ops, training, dim, k, config.max_iters as nat, config.seed, parallelism, centroids, picks)
    &&& exists|picks: Seq<usize>|
        {
            &&& #[trigger] assigned(ops.measure, data, dim, centroids, k, picks)
            &&& lists == clusters_rows(picks, k)
            &&& forall|i: int| 0 <= i < picks.len() ==> (#[trigger] picks[i]) < k
        }
}

/// Whether `k` is the number of clusters that `config` asks for with `n` rows.
pub open spec fn clusters_wanted(config: IvfBuildConfig, n: nat, k: nat) -> bool {
    match config.n_clusters {
        Some(count) => k == count@,
        None => root_rounded_up(n, k),
    }
}

/// Builds an index of the rows of `embeddings`.
pub fn build_ivf_index<M, A, T, V>(
    embeddings: &Embeddings,
    config: IvfBuildConfig,
    parallelism: usize,
    ops: &Arithmetic<M, A, T, V>,
) -> (r: Result<IvfIndex, Error>) where
    M: Fn(&[Scalar], &[Scalar]) -> Vec<Scalar>,
    A: Fn(Scalar, Scalar) -> Scalar,
    T: Fn(u32, Scalar) -> Scalar,
    V: Fn(Scalar, usize) -> Scalar,

    requires
        ops.defined(),
    ensures
        ({
            let n = embeddings.rows();
            let too_many = config.n_clusters matches Some(count) && count@ > n;
            let too_large = config.n_clusters is None && n > u32::MAX * u32::MAX;
            &&& n == 0 ==> r == Err::<IvfIndex, Error>(Error::NoVectors)
            &&& n > 0 && too_large ==> r == Err::<IvfIndex, Error>(Error::CountOutOfRange)
            &&& n > 0 && too_many ==> r == Err::<IvfIndex, Error>(Error::TooManyClusters)
            &&& n > 0 && !too_many && !too_large ==> {
                &&& r is Ok
                &&& r->Ok_0@.well_formed()
                &&& r->Ok_0@.dim == embeddings.width()
                &&& clusters_wanted(config, n, r->Ok_0@.n_clusters as nat)
                &&& indexed(
                    *ops,
                    embeddings.values(),
                    embeddings.width(),
                    r->Ok_0@.n_clusters as nat,
                    config,
                    parallelism as nat,
                    r->Ok_0@.centroids,
                    r->Ok_0@.lists,
                )
            }
        }),
{
    let n: usize = embeddings.row_count();
    if n == 0 {
        return Err(Error::NoVectors);
    }
    let n_clusters = match config.n_clusters {
        Some(count) => count,
        None => match ClusterCount::new(ceil_root(n)) {
            Ok(count) => count,
            Err(e) => {
                return Err(e);
            },
        },
    };
    let k: usize = n_clusters.as_usize();
    if k > n {
        return Err(Error::TooManyClusters);
    }
    let size: usize = training_rows(n, k);
    let params = KMeansParams { n_clusters, max_iters: config.max_iters, seed: config.seed };
    let ghost training = training_data(embeddings.values(), embeddings.width(), k as nat, config.seed);
    let (centroids, trained) = if size == n {
        k_means(embeddings, params, parallelism, ops)
    } else {
        let sample = sample_embeddings(embeddings, size, config.seed);
        k_means(&sample, params, parallelism, ops)
    };
    let dim = embeddings.dim();
    proof {
        lemma_whole_rows(n as int, dim@ as int);
    }
    let picks = assign_rows(embeddings.data(), dim.as_usize(), centroids.as_slice(), k, &ops.measure);
    let inverted_lists = list_clusters(picks.as_slice(), k);
    proof {
        assert(clustered(
            *ops,
            training,
            embeddings.width(),
            k as nat,
            config.max_iters as nat,
            config.seed,
            parallelism as nat,
            centroids@,
            trained@,
        ));
        assert(assigned(
            ops.measure,
            embeddings.values(),
            embeddings.width(),
            centroids@,
            k as nat,
            picks@,
        ));
        assert(indexed(
            *ops,
            embeddings.values(),
            embeddings.width(),
            k as nat,
            config,
            parallelism as nat,
            centroids@,
            contents(inverted_lists@),
        ));
    }
    Ok(IvfIndex { dim, n_clusters, centroids, inverted_lists })
}

} // verus!
