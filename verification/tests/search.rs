use pq_vector::builder::list_clusters;
use pq_vector::count::{ClusterCount, EmbeddingDim};
use pq_vector::error::Error;
use pq_vector::index::IvfIndex;
use pq_vector::request::{MultiTopkBuilder, TopkBuilder};
use pq_vector::scalar::Scalar;
use pq_vector::search::{merge_results, top_results, topk_candidates, SearchResult};

fn scalar(value: f32) -> Scalar {
    Scalar { bits: value.to_bits() }
}

fn float(value: Scalar) -> f32 {
    f32::from_bits(value.bits)
}

fn scalars(values: &[f32]) -> Vec<Scalar> {
    values.iter().map(|v| scalar(*v)).collect()
}

fn measure(vector: &[Scalar], matrix: &[Scalar]) -> Vec<Scalar> {
    matrix
        .chunks(vector.len())
        .map(|row| {
            let sum: f32 = vector
                .iter()
                .zip(row)
                .map(|(a, b)| (float(*a) - float(*b)) * (float(*a) - float(*b)))
                .sum();
            scalar(sum)
        })
        .collect()
}

fn root(square: Scalar) -> Scalar {
    scalar(float(square).sqrt())
}

fn result(row_idx: u32, distance: f32) -> SearchResult {
    SearchResult { row_idx, distance: scalar(distance) }
}

fn index() -> IvfIndex {
    IvfIndex {
        dim: EmbeddingDim::new(2).unwrap(),
        n_clusters: ClusterCount::new(2).unwrap(),
        centroids: scalars(&[0.0, 0.0, 10.0, 10.0]),
        inverted_lists: list_clusters(&[0, 1, 0, 1, 1], 2),
    }
}

#[test]
fn a_search_needs_both_counts() {
    let query = scalars(&[1.0, 2.0]);
    let builder = TopkBuilder::new("a.parquet", &query);
    assert_eq!(builder.clone().into_request().err(), Some(Error::KNotSet));
    assert_eq!(builder.clone().nprobe(3).unwrap().into_request().err(), Some(Error::KNotSet));
    assert_eq!(builder.clone().k(3).unwrap().into_request().err(), Some(Error::NprobeNotSet));
    let request = builder.k(10).unwrap().nprobe(5).unwrap().into_request().unwrap();
    assert_eq!(request.target, "a.parquet");
    assert_eq!(request.query, query);
    assert_eq!((request.k, request.nprobe), (10, 5));
}

#[test]
fn zero_counts_are_refused() {
    let builder = TopkBuilder::new("a.parquet", &[]);
    assert_eq!(builder.clone().k(0).err(), Some(Error::ZeroK));
    assert_eq!(builder.nprobe(0).err(), Some(Error::ZeroNprobe));
    let builder = MultiTopkBuilder::new(vec!["a.parquet"], &[]);
    assert_eq!(builder.clone().k(0).err(), Some(Error::ZeroK));
    assert_eq!(builder.nprobe(0).err(), Some(Error::ZeroNprobe));
}

#[test]
fn a_search_over_files_needs_both_counts() {
    let query = scalars(&[1.0]);
    let builder = MultiTopkBuilder::new(vec!["a.parquet", "b.parquet"], &query);
    assert_eq!(builder.clone().into_request().err(), Some(Error::KNotSet));
    assert_eq!(builder.clone().k(3).unwrap().into_request().err(), Some(Error::NprobeNotSet));
    let request = builder.k(1).unwrap().nprobe(2).unwrap().k(4).unwrap().into_request().unwrap();
    assert_eq!(request.target, vec!["a.parquet", "b.parquet"]);
    assert_eq!(request.query, query);
    assert_eq!((request.k, request.nprobe), (4, 2));
}

#[test]
fn a_query_of_another_dimension_is_refused() {
    let refused = topk_candidates(&index(), &scalars(&[1.0]), 1, &measure);
    assert_eq!(refused.err(), Some(Error::QueryDimension { expected: 2, got: 1 }));
    let refused = topk_candidates(&index(), &scalars(&[1.0, 2.0, 3.0]), 1, &measure);
    assert_eq!(refused.err(), Some(Error::QueryDimension { expected: 2, got: 3 }));
}

#[test]
fn candidates_are_the_rows_of_the_closest_clusters() {
    assert_eq!(topk_candidates(&index(), &scalars(&[9.0, 8.0]), 1, &measure).unwrap(), vec![1, 3, 4]);
    assert_eq!(topk_candidates(&index(), &scalars(&[9.0, 8.0]), 2, &measure).unwrap(), vec![1, 3, 4, 0, 2]);
}

#[test]
fn the_nearest_rows_are_reported_nearest_first() {
    let rows = [7, 3, 9, 1];
    let embeddings = scalars(&[3.0, 4.0, 0.0, 1.0, 6.0, 8.0, 0.0, 0.0]);
    let query = scalars(&[0.0, 0.0]);
    let results = top_results(&query, &rows, &embeddings, 3, &measure, &root);
    assert_eq!(results, vec![result(1, 0.0), result(3, 1.0), result(7, 5.0)]);
    let results = top_results(&query, &rows, &embeddings, 1, &measure, &root);
    assert_eq!(results, vec![result(1, 0.0)]);
    let results = top_results(&query, &rows, &embeddings, 100, &measure, &root);
    assert_eq!(results, vec![result(1, 0.0), result(3, 1.0), result(7, 5.0), result(9, 10.0)]);
}

#[test]
fn no_candidates_give_no_results() {
    assert_eq!(top_results(&scalars(&[1.0]), &[], &[], 3, &measure, &root), Vec::new());
    assert_eq!(top_results(&[], &[], &[], 3, &measure, &root), Vec::new());
}

#[test]
fn embeddings_beyond_the_rows_are_ignored() {
    let results = top_results(&scalars(&[0.0]), &[5], &scalars(&[2.0, 0.0]), 2, &measure, &root);
    assert_eq!(results, vec![result(5, 2.0)]);
}

#[test]
fn a_far_row_gives_way_to_nearer_ones() {
    let count = 200u32;
    let values: Vec<f32> = (0..count).map(|i| ((i * 37) % count) as f32).collect();
    let rows: Vec<u32> = (0..count).collect();
    let results = top_results(&scalars(&[0.0]), &rows, &scalars(&values), 10, &measure, &root);
    let distances: Vec<f32> = results.iter().map(|r| float(r.distance)).collect();
    assert_eq!(distances, (0..10).map(|d| d as f32).collect::<Vec<f32>>());
    for result in results {
        assert_eq!(values[result.row_idx as usize], float(result.distance));
    }
}

#[test]
fn not_a_number_does_not_displace_a_result() {
    let embeddings = scalars(&[4.0, f32::NAN, 2.0]);
    let results = top_results(&scalars(&[0.0]), &[0, 1, 2], &embeddings, 1, &measure, &root);
    assert_eq!(results, vec![result(2, 2.0)]);
}

#[test]
fn a_search_that_probes_all_clusters_is_exact() {
    let points = [[0.5, 0.5], [9.0, 9.5], [1.0, 0.0], [12.0, 10.0], [5.5, 5.5]];
    let query = scalars(&[5.0, 5.0]);
    let candidates = topk_candidates(&index(), &query, 2, &measure).unwrap();
    let embeddings: Vec<f32> = candidates.iter().flat_map(|r| points[*r as usize]).collect();
    let results = top_results(&query, &candidates, &scalars(&embeddings), 2, &measure, &root);
    let rows: Vec<u32> = results.iter().map(|r| r.row_idx).collect();
    assert_eq!(rows, vec![4, 1]);
}

#[test]
fn results_of_files_are_merged_by_distance() {
    let parts: Vec<Result<Vec<SearchResult>, &str>> = vec![
        Ok(vec![result(1, 0.5), result(2, 3.0)]),
        Err("unreadable"),
        Ok(vec![]),
        Ok(vec![result(7, 0.25), result(8, 0.5), result(9, 9.0)]),
    ];
    let merged = merge_results(&parts);
    assert_eq!(merged, vec![result(7, 0.25), result(1, 0.5), result(8, 0.5), result(2, 3.0), result(9, 9.0)]);
    assert_eq!(merge_results::<&str>(&Vec::new()), Vec::new());
}

/// Searches a column of points, by an index that lists them under its clusters.
fn search(points: &[[f32; 2]], query: &[f32], k: usize, nprobe: usize) -> Vec<SearchResult> {
    let query = scalars(query);
    let candidates = topk_candidates(&index(), &query, nprobe, &measure).unwrap();
    let embeddings: Vec<f32> = candidates.iter().flat_map(|r| points[*r as usize]).collect();
    top_results(&query, &candidates, &scalars(&embeddings), k, &measure, &root)
}

#[test]
fn fewer_results_are_the_first_of_more() {
    let points = [[0.5, 0.5], [9.0, 9.5], [1.0, 0.0], [12.0, 10.0], [0.5, 0.5]];
    let all = search(&points, &[1.0, 1.0], 5, 2);
    for k in 1..5 {
        let some = search(&points, &[1.0, 1.0], k, 2);
        assert_eq!(some.len(), k);
        for (a, b) in some.iter().zip(&all) {
            assert_eq!(a.distance, b.distance);
        }
    }
}

#[test]
fn probing_more_never_worsens_a_hit() {
    let points = [[7.0, 7.0], [9.0, 9.5], [1.0, 0.0], [12.0, 10.0], [3.0, 3.0]];
    for query in [[0.0, 0.0], [6.0, 6.0], [9.0, 9.0]] {
        let few = search(&points, &query, 3, 1);
        let more = search(&points, &query, 3, 2);
        assert!(few.len() <= more.len());
        for (a, b) in few.iter().zip(&more) {
            assert!(float(b.distance) <= float(a.distance));
        }
    }
}

#[test]
fn of_equal_candidates_the_earlier_is_kept() {
    let embeddings = scalars(&[3.0, 1.0, -1.0, 1.0]);
    let results = top_results(&scalars(&[0.0]), &[10, 11, 12, 13], &embeddings, 1, &measure, &root);
    assert_eq!(results, vec![result(11, 1.0)]);
    let results = top_results(&scalars(&[0.0]), &[10, 11, 12, 13], &embeddings, 2, &measure, &root);
    let mut rows: Vec<u32> = results.iter().map(|r| r.row_idx).collect();
    rows.sort();
    assert_eq!(rows, vec![11, 12]);
}

#[test]
fn a_nan_gets_in_only_among_the_first() {
    // Of 25, NaN and 1 the heap of two drops the 25: the NaN is not above it.
    let embeddings = scalars(&[5.0, f32::NAN, 1.0]);
    let results = top_results(&scalars(&[0.0]), &[0, 1, 2], &embeddings, 2, &measure, &root);
    let mut rows: Vec<u32> = results.iter().map(|r| r.row_idx).collect();
    rows.sort();
    assert_eq!(rows, vec![1, 2]);
    // Behind the first two, a NaN never displaces a number.
    let embeddings = scalars(&[5.0, 4.0, f32::NAN, 6.0, 1.0]);
    let results = top_results(&scalars(&[0.0]), &[0, 1, 2, 3, 4], &embeddings, 2, &measure, &root);
    assert_eq!(results, vec![result(4, 1.0), result(1, 4.0)]);
}
