use pq_vector::arithmetic::Arithmetic;
use pq_vector::builder::{build_ivf_index, ceil_root, list_clusters, sample_embeddings, training_rows, IvfBuildConfig};
use pq_vector::count::{ClusterCount, EmbeddingDim};
use pq_vector::embeddings::Embeddings;
use pq_vector::error::Error;
use pq_vector::kmeans::{cluster_sizes, k_means, update_centroids, KMeansParams};
use pq_vector::nearest::{assign_rows, nearest_centroid, nearest_index};
use pq_vector::scalar::Scalar;
use pq_vector::seeding::{lower_to, seed_centroids, slot_reaching, sum_in_parts};
use rand::rngs::mock::StepRng;
use rand::rngs::StdRng;
use rand::{Rng, SeedableRng};

fn scalar(value: f32) -> Scalar {
    Scalar { bits: value.to_bits() }
}

fn float(value: Scalar) -> f32 {
    f32::from_bits(value.bits)
}

fn scalars(values: &[f32]) -> Vec<Scalar> {
    values.iter().map(|v| scalar(*v)).collect()
}

fn floats(values: &[Scalar]) -> Vec<f32> {
    values.iter().map(|v| float(*v)).collect()
}

fn squared(a: &[f32], b: &[f32]) -> f32 {
    let mut sum = 0.0f32;
    for (x, y) in a.iter().zip(b) {
        sum += (x - y) * (x - y);
    }
    sum
}

fn measure(vector: &[Scalar], matrix: &[Scalar]) -> Vec<Scalar> {
    let vector = floats(vector);
    floats(matrix).chunks(vector.len()).map(|row| scalar(squared(&vector, row))).collect()
}

fn plus(a: Scalar, b: Scalar) -> Scalar {
    scalar(float(a) + float(b))
}

fn fraction(bits: u32, whole: Scalar) -> Scalar {
    scalar(StepRng::new(bits as u64, 0).gen_range(0.0f32..1.0) * float(whole))
}

fn divide(sum: Scalar, count: usize) -> Scalar {
    scalar(float(sum) / count as f32)
}

fn embeddings(values: &[f32], dim: usize) -> Embeddings {
    Embeddings::new(scalars(values), EmbeddingDim::new(dim).unwrap()).unwrap()
}

fn config(n_clusters: Option<usize>, seed: u64) -> IvfBuildConfig {
    IvfBuildConfig { n_clusters: n_clusters.map(|n| ClusterCount::new(n).unwrap()), max_iters: 20, seed }
}

fn noise(len: usize, seed: u64) -> Vec<f32> {
    let mut rng = StdRng::seed_from_u64(seed);
    (0..len).map(|_| rng.gen_range(-1.0f32..1.0)).collect()
}

/// K-means++ on floats, on one thread.
fn float_k_means(data: &[f32], dim: usize, k: usize, max_iters: usize, seed: u64) -> (Vec<f32>, Vec<usize>) {
    let n = data.len() / dim;
    let row = |i: usize| &data[i * dim..(i + 1) * dim];
    let mut rng = StdRng::seed_from_u64(seed);
    let mut centroids = vec![0.0f32; k * dim];
    let first = rng.gen_range(0..n);
    centroids[..dim].copy_from_slice(row(first));
    let mut gaps: Vec<f32> = (0..n).map(|i| squared(row(i), &centroids[..dim])).collect();
    for c in 1..k {
        let mut total = 0.0f32;
        for i in 0..n {
            let gap = squared(row(i), &centroids[(c - 1) * dim..c * dim]);
            if gap < gaps[i] {
                gaps[i] = gap;
            }
            total += gaps[i];
        }
        if total > 0.0 {
            let threshold = rng.gen_range(0.0f32..1.0) * total;
            let mut sum = 0.0f32;
            for i in 0..n {
                sum += gaps[i];
                if sum >= threshold {
                    centroids[c * dim..(c + 1) * dim].copy_from_slice(row(i));
                    break;
                }
            }
        } else {
            let choice = rng.gen_range(0..n);
            centroids[c * dim..(c + 1) * dim].copy_from_slice(row(choice));
        }
    }
    let mut picks = vec![0usize; n];
    for _ in 0..max_iters {
        let next: Vec<usize> = (0..n).map(|i| float_nearest(row(i), &centroids, dim)).collect();
        if next == picks {
            break;
        }
        picks = next;
        centroids = vec![0.0f32; k * dim];
        let mut sizes = vec![0usize; k];
        for i in 0..n {
            sizes[picks[i]] += 1;
            for d in 0..dim {
                centroids[picks[i] * dim + d] += row(i)[d];
            }
        }
        for c in 0..k {
            if sizes[c] > 0 {
                for d in 0..dim {
                    centroids[c * dim + d] /= sizes[c] as f32;
                }
            }
        }
    }
    (centroids, picks)
}

fn float_nearest(vector: &[f32], centroids: &[f32], dim: usize) -> usize {
    let mut best = 0;
    let mut least = f32::INFINITY;
    for (c, centroid) in centroids.chunks(dim).enumerate() {
        let distance = squared(vector, centroid);
        if distance < least {
            least = distance;
            best = c;
        }
    }
    best
}

#[test]
fn nearest_takes_the_first_of_equals() {
    assert_eq!(nearest_index(&scalars(&[3.0, 1.0, 2.0, 1.0])), 1);
    assert_eq!(nearest_index(&scalars(&[f32::NAN, 5.0, f32::INFINITY])), 1);
    assert_eq!(nearest_index(&scalars(&[f32::NAN, f32::INFINITY])), 0);
    assert_eq!(nearest_index(&[]), 0);
}

#[test]
fn a_vector_goes_to_the_nearest_centroid() {
    let centroids = scalars(&[0.0, 0.0, 4.0, 4.0, 9.0, 0.0]);
    assert_eq!(nearest_centroid(&scalars(&[3.0, 3.0]), &centroids, &measure), 1);
    assert_eq!(nearest_centroid(&scalars(&[8.0, -1.0]), &centroids, &measure), 2);
    assert_eq!(nearest_centroid(&scalars(&[2.0, 2.0]), &centroids, &measure), 0);
}

#[test]
fn rows_are_assigned_as_each_by_itself() {
    let data = noise(60, 3);
    let centroids = noise(12, 4);
    let picks = assign_rows(&scalars(&data), 3, &scalars(&centroids), 4, &measure);
    let each: Vec<usize> = data
        .chunks(3)
        .map(|row| nearest_centroid(&scalars(row), &scalars(&centroids), &measure))
        .collect();
    assert_eq!(picks, each);
}

#[test]
fn centroids_move_to_the_mean_of_their_rows() {
    let data = scalars(&[1.0, 2.0, 3.0, 4.0, 5.0, 0.0]);
    assert_eq!(cluster_sizes(&[2, 0, 2], 3), vec![1, 0, 2]);
    let centroids = update_centroids(&data, 2, &[2, 0, 2], 3, &plus, &divide);
    assert_eq!(floats(&centroids), vec![3.0, 4.0, 0.0, 0.0, 3.0, 1.0]);
}

#[test]
fn gaps_only_shrink() {
    let mut gaps = scalars(&[1.0, 5.0, f32::NAN, 2.0]);
    lower_to(&mut gaps, &scalars(&[2.0, 3.0, 1.0, f32::NAN]));
    assert_eq!(gaps[..2], scalars(&[1.0, 3.0])[..]);
    assert!(float(gaps[2]).is_nan());
    assert_eq!(gaps[3], scalar(2.0));
}

#[test]
fn sums_are_taken_in_parts() {
    let weights = scalars(&[1.0e8, 2.0, 2.0, 2.0, 2.0, 2.0, 2.0, 2.0]);
    // One thread loses each small weight; two save those of the second part.
    assert_eq!(float(sum_in_parts(&plus, &weights, 1)), 1.0e8);
    assert_eq!(float(sum_in_parts(&plus, &weights, 2)), 1.0e8 + 8.0);
    assert_ne!(1.0e8f32, 1.0e8f32 + 8.0);
    assert_eq!(float(sum_in_parts(&plus, &[], 2)), 0.0);
}

#[test]
fn a_slot_is_reached_by_the_running_sum() {
    let weights = scalars(&[1.0, 2.0, 3.0]);
    assert_eq!(slot_reaching(&plus, &weights, scalar(0.0)), Some(0));
    assert_eq!(slot_reaching(&plus, &weights, scalar(1.0)), Some(0));
    assert_eq!(slot_reaching(&plus, &weights, scalar(1.5)), Some(1));
    assert_eq!(slot_reaching(&plus, &weights, scalar(6.0)), Some(2));
    assert_eq!(slot_reaching(&plus, &weights, scalar(6.5)), None);
}

#[test]
fn the_first_seed_is_a_random_row() {
    let ops = Arithmetic { measure, plus, fraction, divide };
    let data: Vec<f32> = (0..50).map(|i| i as f32).collect();
    for seed in 0..20 {
        let mut rng = StdRng::seed_from_u64(seed);
        let centroids = seed_centroids(&scalars(&data), 1, 1, &mut rng, 4, &ops);
        let expected = StdRng::seed_from_u64(seed).gen_range(0..50usize);
        assert_eq!(floats(&centroids), vec![expected as f32]);
    }
}

#[test]
fn equal_rows_are_seeded_evenly() {
    let ops = Arithmetic { measure, plus, fraction, divide };
    let mut rng = StdRng::seed_from_u64(5);
    let centroids = seed_centroids(&scalars(&[7.0; 10]), 1, 3, &mut rng, 2, &ops);
    assert_eq!(floats(&centroids), vec![7.0; 3]);
    let mut expected = StdRng::seed_from_u64(5);
    for _ in 0..3 {
        expected.gen_range(0..10usize);
    }
    assert_eq!(rng, expected);
}

#[test]
fn a_goal_out_of_reach_leaves_a_seed_zero() {
    let beyond = |_bits: u32, _whole: Scalar| scalar(f32::INFINITY);
    let ops = Arithmetic { measure, plus, fraction: beyond, divide };
    let mut rng = StdRng::seed_from_u64(1);
    let centroids = seed_centroids(&scalars(&[3.0, 4.0, 5.0]), 1, 2, &mut rng, 1, &ops);
    assert!(centroids[0] == scalar(3.0) || centroids[0] == scalar(4.0) || centroids[0] == scalar(5.0));
    assert_eq!(centroids[1], scalar(0.0));
}

#[test]
fn more_rows_than_compete_are_sampled() {
    let ops = Arithmetic { measure, plus, fraction, divide };
    let n = 50_001;
    let data: Vec<f32> = (0..n).map(|i| i as f32).collect();
    let mut rng = StdRng::seed_from_u64(11);
    let centroids = seed_centroids(&scalars(&data), 1, 1, &mut rng, 1, &ops);
    let mut expected = StdRng::seed_from_u64(11);
    let rows = rand::seq::index::sample(&mut expected, n, 50_000).into_vec();
    let choice = expected.gen_range(0..rows.len());
    assert_eq!(floats(&centroids), vec![rows[choice] as f32]);
    assert_eq!(rng, expected);
}

#[test]
fn clustering_agrees_with_floats() {
    let ops = Arithmetic { measure, plus, fraction, divide };
    for seed in 0..8 {
        let data = noise(120, 100 + seed);
        for (dim, k) in [(1, 5), (2, 7), (3, 1), (4, 30)] {
            for max_iters in [0, 1, 25] {
                let params = KMeansParams { n_clusters: ClusterCount::new(k).unwrap(), max_iters, seed };
                let (centroids, picks) = k_means(&embeddings(&data, dim), params, 1, &ops);
                let (expected, assigned) = float_k_means(&data, dim, k, max_iters, seed);
                assert_eq!(floats(&centroids), expected);
                assert_eq!(picks, assigned);
            }
        }
    }
}

#[test]
fn clustering_that_settles_is_a_fixed_point() {
    let ops = Arithmetic { measure, plus, fraction, divide };
    let data = scalars(&[0.0, 0.1, 0.2, 9.0, 9.1, 9.2]);
    let dim = EmbeddingDim::new(1).unwrap();
    let params = KMeansParams { n_clusters: ClusterCount::new(2).unwrap(), max_iters: 100, seed: 42 };
    let (centroids, picks) = k_means(&Embeddings::new(data.clone(), dim).unwrap(), params, 3, &ops);
    assert_eq!(assign_rows(&data, 1, &centroids, 2, &measure), picks);
    assert_eq!(update_centroids(&data, 1, &picks, 2, &plus, &divide), centroids);
    assert_eq!(picks[..3], [picks[0]; 3]);
    assert_eq!(picks[3..], [1 - picks[0]; 3]);
}

#[test]
fn a_sample_takes_the_rows_that_are_drawn() {
    let data: Vec<f32> = (0..40).map(|i| i as f32).collect();
    let sample = sample_embeddings(&embeddings(&data, 2), 7, 9);
    let rows = rand::seq::index::sample(&mut StdRng::seed_from_u64(9), 20, 7).into_vec();
    let expected: Vec<f32> = rows.iter().flat_map(|r| [2.0 * *r as f32, 2.0 * *r as f32 + 1.0]).collect();
    assert_eq!(floats(sample.data()), expected);
    assert_eq!(sample.row_count(), 7);
}

#[test]
fn roots_are_rounded_up() {
    for n in 0..2000usize {
        assert_eq!(ceil_root(n), (n as f64).sqrt().ceil() as usize);
    }
    assert_eq!(ceil_root(1_000_000), 1000);
    assert_eq!(ceil_root(1_000_001), 1001);
    assert_eq!(ceil_root(usize::MAX), 1 << 32);
}

#[test]
fn training_takes_one_row_in_twenty() {
    assert_eq!(training_rows(1000, 10), 50);
    assert_eq!(training_rows(1000, 80), 80);
    assert_eq!(training_rows(10, 3), 3);
    assert_eq!(training_rows(10, 1), 1);
    assert_eq!(training_rows(5_000_000, 10), 100_000);
    assert_eq!(training_rows(1, 1), 1);
}

#[test]
fn clusters_list_their_rows_in_order() {
    assert_eq!(list_clusters(&[1, 0, 1, 3], 4), vec![vec![1], vec![0, 2], vec![], vec![3]]);
}

#[test]
fn an_index_over_nothing_is_refused() {
    let ops = Arithmetic { measure, plus, fraction, divide };
    let built = build_ivf_index(&embeddings(&[], 2), config(None, 1), 1, &ops);
    assert_eq!(built.err(), Some(Error::NoVectors));
    let built = build_ivf_index(&embeddings(&[], 2), config(Some(1), 1), 1, &ops);
    assert_eq!(built.err(), Some(Error::NoVectors));
}

#[test]
fn more_clusters_than_rows_are_refused() {
    let ops = Arithmetic { measure, plus, fraction, divide };
    let built = build_ivf_index(&embeddings(&[1.0, 2.0, 3.0], 1), config(Some(4), 1), 1, &ops);
    assert_eq!(built.err(), Some(Error::TooManyClusters));
}

#[test]
fn an_index_lists_each_row_once_with_its_nearest_centroid() {
    let ops = Arithmetic { measure, plus, fraction, divide };
    let data = noise(600, 77);
    let index = build_ivf_index(&embeddings(&data, 3), config(None, 5), 4, &ops).unwrap();
    assert_eq!(index.get_num_clusters(), 15);
    assert_eq!(index.dim(), 3);
    let centroids = floats(&index.centroids);
    let mut seen: Vec<u32> = Vec::new();
    for (c, list) in index.inverted_lists.iter().enumerate() {
        assert!(list.windows(2).all(|pair| pair[0] < pair[1]));
        for row in list {
            let start = *row as usize * 3;
            assert_eq!(float_nearest(&data[start..start + 3], &centroids, 3), c);
            seen.push(*row);
        }
    }
    seen.sort();
    assert_eq!(seen, (0..200).collect::<Vec<u32>>());
}

#[test]
fn an_index_is_trained_on_a_sample() {
    let ops = Arithmetic { measure, plus, fraction, divide };
    let data = noise(400, 8);
    let index = build_ivf_index(&embeddings(&data, 1), config(Some(4), 21), 1, &ops).unwrap();
    let rows = rand::seq::index::sample(&mut StdRng::seed_from_u64(21), 400, 20).into_vec();
    let sample: Vec<f32> = rows.iter().map(|r| data[*r]).collect();
    assert_eq!(floats(&index.centroids), float_k_means(&sample, 1, 4, 20, 21).0);
}

#[test]
fn building_twice_gives_the_same_index() {
    let ops = Arithmetic { measure, plus, fraction, divide };
    let data = embeddings(&noise(1000, 13), 2);
    let first = build_ivf_index(&data, config(None, 99), 3, &ops).unwrap();
    let second = build_ivf_index(&data, config(None, 99), 3, &ops).unwrap();
    assert_eq!(first.to_bytes(), second.to_bytes());
    let other = build_ivf_index(&data, config(None, 100), 3, &ops).unwrap();
    assert_ne!(first.to_bytes(), other.to_bytes());
}

#[test]
fn one_more_round_goes_to_the_centroids_of_the_round_before() {
    let ops = Arithmetic { measure, plus, fraction, divide };
    let data = noise(90, 31);
    for max_iters in 0..12 {
        let n_clusters = ClusterCount::new(6).unwrap();
        let before = k_means(&embeddings(&data, 3), KMeansParams { n_clusters, max_iters, seed: 4 }, 2, &ops);
        let after = k_means(&embeddings(&data, 3), KMeansParams { n_clusters, max_iters: max_iters + 1, seed: 4 }, 2, &ops);
        let each: Vec<usize> = data
            .chunks(3)
            .map(|row| nearest_centroid(&scalars(row), &before.0, &measure))
            .collect();
        assert_eq!(after.1, each);
    }
}

#[test]
fn settled_clustering_is_final() {
    let ops = Arithmetic { measure, plus, fraction, divide };
    let data = embeddings(&noise(80, 17), 2);
    let n_clusters = ClusterCount::new(4).unwrap();
    let run = |max_iters: usize| k_means(&data, KMeansParams { n_clusters, max_iters, seed: 2 }, 1, &ops);
    let settled = (0..200).find(|m| run(*m).1 == run(*m + 1).1).unwrap();
    for max_iters in [settled, settled + 1, settled + 50] {
        assert_eq!(run(max_iters), run(settled));
    }
}

#[test]
fn one_cluster_is_a_copy_of_a_row() {
    let ops = Arithmetic { measure, plus, fraction, divide };
    let data = noise(40, 6);
    for seed in 0..5 {
        let params = KMeansParams { n_clusters: ClusterCount::new(1).unwrap(), max_iters: 10, seed };
        let (centroids, picks) = k_means(&embeddings(&data, 2), params, 1, &ops);
        assert!(data.chunks(2).any(|row| row == floats(&centroids)));
        assert_eq!(picks, vec![0; 20]);
    }
}

#[test]
fn assigning_and_probing_agree() {
    let ops = Arithmetic { measure, plus, fraction, divide };
    let data = noise(300, 41);
    let index = build_ivf_index(&embeddings(&data, 3), config(Some(12), 3), 1, &ops).unwrap();
    for row in data.chunks(3) {
        let query = scalars(row);
        let all = index.find_closest_centroids(&query, 12, &measure);
        assert_eq!(nearest_centroid(&query, &index.centroids, &measure), all[0]);
        for nprobe in 0..12 {
            assert_eq!(index.find_closest_centroids(&query, nprobe, &measure), all[..nprobe]);
        }
        assert_eq!(index.find_closest_centroids(&query, 99, &measure), all);
    }
}
