use pq_vector::count::{ClusterCount, EmbeddingDim};
use pq_vector::error::Error;
use pq_vector::index::IvfIndex;
use pq_vector::scalar::Scalar;

fn scalars(values: &[f32]) -> Vec<Scalar> {
    values.iter().map(|v| Scalar { bits: v.to_bits() }).collect()
}

fn measure(vector: &[Scalar], matrix: &[Scalar]) -> Vec<Scalar> {
    matrix
        .chunks(vector.len())
        .map(|row| {
            let sum: f32 = vector
                .iter()
                .zip(row)
                .map(|(a, b)| {
                    let d = f32::from_bits(a.bits) - f32::from_bits(b.bits);
                    d * d
                })
                .sum();
            Scalar { bits: sum.to_bits() }
        })
        .collect()
}

fn index(dim: usize, centroids: &[f32], lists: Vec<Vec<u32>>) -> IvfIndex {
    IvfIndex {
        dim: EmbeddingDim::new(dim).unwrap(),
        n_clusters: ClusterCount::new(lists.len()).unwrap(),
        centroids: scalars(centroids),
        inverted_lists: lists,
    }
}

fn line() -> IvfIndex {
    index(1, &[10.0, 0.0, 5.0, -4.0], vec![vec![3, 7], vec![0, 4], vec![], vec![1, 2, 5]])
}

#[test]
fn test_index_serialization() {
    let index = index(3, &[1.0, 2.0, 3.0, 4.0, 5.0, 6.0], vec![vec![0, 2, 4], vec![1, 3]]);

    let bytes = index.to_bytes();
    let restored = IvfIndex::from_bytes(&bytes).unwrap();

    assert_eq!(restored.dim(), index.dim());
    assert_eq!(restored.n_clusters.as_usize(), index.n_clusters.as_usize());
    assert_eq!(restored.centroids, index.centroids);
    assert_eq!(restored.inverted_lists, index.inverted_lists);
}

#[test]
fn serialized_index_has_a_fixed_layout() {
    let bytes = index(1, &[1.0, -2.0], vec![vec![258], vec![]]).to_bytes();
    let mut expected: Vec<u8> = vec![1, 0, 0, 0, 2, 0, 0, 0];
    expected.extend_from_slice(&1.0f32.to_le_bytes());
    expected.extend_from_slice(&(-2.0f32).to_le_bytes());
    expected.extend_from_slice(&[1, 0, 0, 0, 2, 1, 0, 0, 0, 0, 0, 0]);
    assert_eq!(bytes, expected);
}

#[test]
fn bytes_behind_an_index_are_ignored() {
    let index = line();
    let mut bytes = index.to_bytes();
    bytes.extend_from_slice(&[9, 9, 9]);
    assert!(IvfIndex::is_complete(&bytes));
    let restored = IvfIndex::from_bytes(&bytes).unwrap();
    assert_eq!(restored.centroids, index.centroids);
    assert_eq!(restored.inverted_lists, index.inverted_lists);
}

#[test]
fn an_index_that_was_read_is_written_as_it_was() {
    let bytes = line().to_bytes();
    assert_eq!(IvfIndex::from_bytes(&bytes).unwrap().to_bytes(), bytes);
}

#[test]
fn not_a_number_survives_serialization() {
    let mut index = line();
    index.centroids[2] = Scalar { bits: 0x7fc0_1234 };
    let restored = IvfIndex::from_bytes(&index.to_bytes()).unwrap();
    assert_eq!(restored.centroids[2], Scalar { bits: 0x7fc0_1234 });
}

#[test]
fn a_short_buffer_is_refused() {
    assert_eq!(IvfIndex::from_bytes(&[1, 0, 0, 0, 1, 0, 0]).err(), Some(Error::BufferTooSmall));
}

#[test]
fn a_header_with_a_zero_is_refused() {
    assert_eq!(IvfIndex::from_bytes(&[0, 0, 0, 0, 0, 0, 0, 0]).err(), Some(Error::ZeroDimension));
    assert_eq!(IvfIndex::from_bytes(&[1, 0, 0, 0, 0, 0, 0, 0]).err(), Some(Error::ZeroClusterCount));
}

#[test]
fn a_cut_index_is_not_complete() {
    let bytes = line().to_bytes();
    assert!(IvfIndex::is_complete(&bytes));
    for len in 8..bytes.len() {
        assert!(!IvfIndex::is_complete(&bytes[..len]));
    }
    // Without a header there is nothing that could be cut.
    assert!(IvfIndex::is_complete(&bytes[..7]));
    assert!(IvfIndex::is_complete(&[0; 8]));
    // More centroids than memory could hold.
    assert!(!IvfIndex::is_complete(&[255; 64]));
}

#[test]
fn centroids_are_measured_in_order() {
    let distances = line().get_centroid_distances(&scalars(&[4.0]), &measure);
    assert_eq!(distances, scalars(&[36.0, 16.0, 1.0, 64.0]));
}

#[test]
fn closest_centroids_come_first() {
    let index = line();
    let query = scalars(&[4.0]);
    assert_eq!(index.find_closest_centroids(&query, 2, &measure), vec![2, 1]);
    assert_eq!(index.find_closest_centroids(&query, 4, &measure), vec![2, 1, 0, 3]);
    assert_eq!(index.find_closest_centroids(&query, 100, &measure), vec![2, 1, 0, 3]);
    assert_eq!(index.find_closest_centroids(&query, 0, &measure), Vec::<usize>::new());
}

#[test]
fn equally_close_centroids_keep_their_order() {
    let index = index(1, &[3.0, 1.0, 3.0, 1.0], vec![vec![], vec![], vec![], vec![]]);
    assert_eq!(index.find_closest_centroids(&scalars(&[2.0]), 4, &measure), vec![0, 1, 2, 3]);
}

#[test]
fn a_centroid_that_is_not_a_number_keeps_its_place_among_equals() {
    let index = index(1, &[f32::NAN, 1.0], vec![vec![], vec![]]);
    assert_eq!(index.find_closest_centroids(&scalars(&[0.0]), 2, &measure), vec![0, 1]);
}

#[test]
fn candidate_rows_come_cluster_by_cluster() {
    let index = line();
    let query = scalars(&[4.0]);
    assert_eq!(index.candidate_rows(&query, 1, &measure), Vec::<u32>::new());
    assert_eq!(index.candidate_rows(&query, 2, &measure), vec![0, 4]);
    assert_eq!(index.candidate_rows(&query, 3, &measure), vec![0, 4, 3, 7]);
}

#[test]
fn probing_more_clusters_only_adds_rows() {
    let index = line();
    let query = scalars(&[-1.0]);
    let mut fewer = index.candidate_rows(&query, 0, &measure);
    for nprobe in 1..6 {
        let more = index.candidate_rows(&query, nprobe, &measure);
        assert!(more.starts_with(&fewer));
        fewer = more;
    }
}

#[test]
fn probing_all_clusters_misses_no_row() {
    let mut rows = line().candidate_rows(&scalars(&[100.0]), 4, &measure);
    rows.sort();
    assert_eq!(rows, vec![0, 1, 2, 3, 4, 5, 7]);
}

#[test]
fn rows_of_one_cluster() {
    let index = line();
    assert_eq!(index.get_num_clusters(), 4);
    assert_eq!(index.get_rows_for_cluster(3), vec![1, 2, 5]);
    assert_eq!(index.rows_of(&[1, 1, 0]), vec![0, 4, 0, 4, 3, 7]);
}
