use pq_vector::count::{ClusterCount, EmbeddingDim};
use pq_vector::index::IvfIndex;
use pq_vector::nonuniform::{
    group_by_file, join_parts, keep_rows_read, plan_reads, probe_budget, rows_of_clusters, select_clusters, ChunkRead,
    ClusterItem, FileDistances,
};
use pq_vector::scalar::Scalar;
use pq_vector::search::top_results;

fn scalar(value: f32) -> Scalar {
    Scalar { bits: value.to_bits() }
}

fn distances(file: usize, values: &[f32]) -> FileDistances {
    FileDistances { file, distances: values.iter().map(|v| scalar(*v)).collect() }
}

fn fields(items: &[ClusterItem]) -> Vec<(usize, u32, f32)> {
    items.iter().map(|item| (item.file, item.cluster, f32::from_bits(item.distance.bits))).collect()
}

fn item(file: usize, cluster: u32, distance: f32) -> ClusterItem {
    ClusterItem { file, cluster, distance: scalar(distance) }
}

#[test]
fn the_budget_grows_with_the_files() {
    assert_eq!(probe_budget(3, 4), Some(12));
    assert_eq!(probe_budget(3, 0), Some(0));
    assert_eq!(probe_budget(usize::MAX, 2), None);
}

#[test]
fn the_closest_clusters_over_all_files_are_selected() {
    let files = vec![distances(0, &[5.0, 1.0, 8.0]), distances(1, &[0.5, 9.0, 2.0])];
    let selected = select_clusters(&files, 4);
    assert_eq!(fields(&selected), vec![(1, 0, 0.5), (0, 1, 1.0), (1, 2, 2.0), (0, 0, 5.0)]);
    assert_eq!(select_clusters(&files, 100).len(), 6);
    assert!(select_clusters(&files, 0).is_empty());
    assert!(select_clusters(&Vec::new(), 3).is_empty());
}

#[test]
fn equally_close_clusters_keep_the_order_of_the_files() {
    let files = vec![distances(4, &[1.0, 1.0]), distances(2, &[1.0])];
    assert_eq!(fields(&select_clusters(&files, 3)), vec![(4, 0, 1.0), (4, 1, 1.0), (2, 0, 1.0)]);
}

#[test]
fn clusters_are_grouped_by_file() {
    let groups = group_by_file(&[item(7, 3, 0.0), item(2, 1, 1.0), item(7, 0, 2.0), item(2, 1, 3.0)]);
    assert_eq!(groups.len(), 2);
    assert_eq!((groups[0].file, &groups[0].clusters), (7, &vec![3, 0]));
    assert_eq!((groups[1].file, &groups[1].clusters), (2, &vec![1, 1]));
    assert!(group_by_file(&[]).is_empty());
}

#[test]
fn clusters_compare_by_distance() {
    assert!(item(1, 2, 3.0) == item(4, 5, 3.0));
    assert!(item(1, 2, 3.0) < item(1, 2, 4.0));
    assert!(item(1, 2, f32::NAN) != item(1, 2, f32::NAN));
    assert_eq!(item(1, 2, f32::NAN).cmp(&item(1, 2, 4.0)), std::cmp::Ordering::Equal);
}

#[test]
fn one_file_is_probed_as_by_itself() {
    let values = [4.0, 0.0, 2.0, 7.0];
    let groups = group_by_file(&select_clusters(&vec![distances(0, &values)], 3));
    assert_eq!(groups.len(), 1);
    assert_eq!(groups[0].clusters, vec![1, 2, 0]);
}

#[test]
fn rows_of_selected_clusters_come_in_their_order() {
    let index = IvfIndex {
        dim: EmbeddingDim::new(1).unwrap(),
        n_clusters: ClusterCount::new(3).unwrap(),
        centroids: vec![scalar(0.0); 3],
        inverted_lists: vec![vec![0, 5], vec![2], vec![1, 3]],
    };
    assert_eq!(rows_of_clusters(&index, &[2, 0]), vec![1, 3, 0, 5]);
    assert_eq!(rows_of_clusters(&index, &[]), Vec::<u32>::new());
}

#[test]
fn failed_reads_are_left_out() {
    let parts = vec![Some(vec![1u32, 2]), None, Some(vec![]), Some(vec![3])];
    assert_eq!(join_parts(&parts), vec![1, 2, 3]);
}

#[test]
fn reads_are_planned_group_by_group() {
    let rows = vec![vec![7u32], vec![], vec![50; 2500], vec![1; 1000]];
    let expected = vec![
        ChunkRead { group: 0, start: 0, end: 1 },
        ChunkRead { group: 2, start: 0, end: 1000 },
        ChunkRead { group: 2, start: 1000, end: 2000 },
        ChunkRead { group: 2, start: 2000, end: 2500 },
        ChunkRead { group: 3, start: 0, end: 1000 },
    ];
    assert_eq!(plan_reads(&rows), expected);
    assert_eq!(plan_reads(&Vec::new()), Vec::new());
}

#[test]
fn rows_of_failed_reads_are_left_out() {
    let rows = vec![vec![7u32, 8], (0..1001).collect::<Vec<u32>>()];
    let plan = plan_reads(&rows);
    assert_eq!(plan.len(), 3);
    let parts = vec![Some(vec![0u8]), None, Some(vec![1])];
    assert_eq!(keep_rows_read(&rows, &plan, &parts), vec![7, 8, 1000]);
    let parts = vec![Some(vec![0u8]), Some(vec![]), Some(vec![1])];
    let all = keep_rows_read(&rows, &plan, &parts);
    assert_eq!(all.len(), 1003);
    assert_eq!(all[2..], rows[1][..]);
}

fn float(value: Scalar) -> f32 {
    f32::from_bits(value.bits)
}

fn scalars(values: &[f32]) -> Vec<Scalar> {
    values.iter().map(|v| scalar(*v)).collect()
}

fn measure(vector: &[Scalar], matrix: &[Scalar]) -> Vec<Scalar> {
    matrix
        .chunks(vector.len())
        .map(|row| {
            let sum: f32 = vector
                .iter()
                .zip(row)
                .map(|(a, b)| (float(*a) - float(*b)) * (float(*a) - float(*b)))
                .sum();
            scalar(sum)
        })
        .collect()
}

fn root(square: Scalar) -> Scalar {
    scalar(float(square).sqrt())
}

/// A file in memory: its column, and the rows of each centroid.
fn file(column: &[f32], centroids: &[f32], lists: Vec<Vec<u32>>) -> (Vec<f32>, IvfIndex) {
    let index = IvfIndex {
        dim: EmbeddingDim::new(1).unwrap(),
        n_clusters: ClusterCount::new(lists.len()).unwrap(),
        centroids: scalars(centroids),
        inverted_lists: lists,
    };
    (column.to_vec(), index)
}

fn search(files: &[(Vec<f32>, IvfIndex)], query: f32, k: usize, nprobe: usize) -> Vec<(u32, f32)> {
    let query = scalars(&[query]);
    let tables: Vec<FileDistances> = files
        .iter()
        .enumerate()
        .map(|(file, (_, index))| FileDistances { file, distances: index.get_centroid_distances(&query, &measure) })
        .collect();
    let budget = probe_budget(nprobe, files.len()).unwrap();
    let groups = group_by_file(&select_clusters(&tables, budget));
    let rows: Vec<Vec<u32>> =
        groups.iter().map(|group| rows_of_clusters(&files[group.file].1, &group.clusters)).collect();
    let plan = plan_reads(&rows);
    let parts: Vec<Option<Vec<Scalar>>> = plan
        .iter()
        .map(|read| {
            let column = &files[groups[read.group].file].0;
            let chunk = &rows[read.group][read.start..read.end];
            Some(chunk.iter().map(|row| scalar(column[*row as usize])).collect())
        })
        .collect();
    let found = keep_rows_read(&rows, &plan, &parts);
    top_results(&query, &found, &join_parts(&parts), k, &measure, &root)
        .iter()
        .map(|result| (result.row_idx, float(result.distance)))
        .collect()
}

#[test]
fn a_row_beyond_the_clusters_is_found() {
    let files = [file(&[9.0, 9.0, 9.0, 9.0, 9.0, 9.0, 9.0, 1.0], &[1.0], vec![vec![7]])];
    assert_eq!(search(&files, 0.0, 3, 1), vec![(7, 1.0)]);
}

#[test]
fn each_row_is_measured_in_its_own_file() {
    // Both files list row 1, at different values.
    let files = [
        file(&[10.0, 2.0, 30.0], &[2.0, 20.0], vec![vec![1], vec![0, 2]]),
        file(&[5.0, 40.0], &[5.0, 40.0], vec![vec![0], vec![1]]),
    ];
    assert_eq!(search(&files, 0.0, 10, 1), vec![(1, 2.0), (0, 5.0)]);
    assert_eq!(search(&files, 0.0, 10, 2), vec![(1, 2.0), (0, 5.0), (0, 10.0), (2, 30.0), (1, 40.0)]);
    assert_eq!(search(&files, 0.0, 3, 2), vec![(1, 2.0), (0, 5.0), (0, 10.0)]);
}

#[test]
fn the_whole_budget_may_go_to_one_file() {
    let files = [
        file(&[1.0, 2.0], &[1.0, 2.0], vec![vec![0], vec![1]]),
        file(&[50.0, 60.0], &[50.0, 60.0], vec![vec![0], vec![1]]),
    ];
    assert_eq!(search(&files, 0.0, 10, 1), vec![(0, 1.0), (1, 2.0)]);
}
