use pq_vector::count::{ClusterCount, EmbeddingDim};
use pq_vector::embeddings::{EmbeddingColumn, Embeddings};
use pq_vector::error::{decimal_of, Error};
use pq_vector::heap::{DistanceHeap, HeapItem};
use pq_vector::order::stable_order;
use pq_vector::ranges::{chunk_ranges, worker_count, worker_ranges};
use pq_vector::scalar::{infinity, zero, Scalar};
use rand::rngs::StdRng;
use rand::{Rng, SeedableRng};
use std::cmp::Ordering;
use std::collections::BinaryHeap;

fn scalar(value: f32) -> Scalar {
    Scalar { bits: value.to_bits() }
}

fn scalars(values: &[f32]) -> Vec<Scalar> {
    values.iter().map(|v| scalar(*v)).collect()
}

#[test]
fn cluster_counts_are_positive() {
    assert_eq!(ClusterCount::new(7).unwrap().as_usize(), 7);
    assert_eq!(ClusterCount::new(7).unwrap().as_u32(), 7);
    assert_eq!(ClusterCount::new(0), Err(Error::ZeroClusterCount));
    assert_eq!(ClusterCount::new(u32::MAX as usize).unwrap().as_u32(), u32::MAX);
    assert_eq!(ClusterCount::new(u32::MAX as usize + 1), Err(Error::CountOutOfRange));
    assert_eq!(ClusterCount::try_from(3).unwrap().as_usize(), 3);
    assert_eq!(ClusterCount::try_from(0), Err(Error::ZeroClusterCount));
}

#[test]
fn dimensions_are_positive() {
    assert_eq!(EmbeddingDim::new(768).unwrap().as_usize(), 768);
    assert_eq!(EmbeddingDim::new(768).unwrap().as_u32(), 768);
    assert_eq!(EmbeddingDim::new(0), Err(Error::ZeroDimension));
    assert_eq!(EmbeddingDim::new(u32::MAX as usize + 1), Err(Error::CountOutOfRange));
}

#[test]
fn column_names_are_not_blank() {
    assert_eq!(EmbeddingColumn::new(" vec ".to_owned()).unwrap().as_str(), " vec ");
    assert_eq!(EmbeddingColumn::new(String::new()), Err(Error::EmptyColumnName));
    assert_eq!(EmbeddingColumn::try_from(" \t\n"), Err(Error::EmptyColumnName));
    assert_eq!(EmbeddingColumn::try_from("\u{3000}\u{85}".to_owned()), Err(Error::EmptyColumnName));
    assert_eq!(EmbeddingColumn::try_from("\u{200b}").unwrap().as_str(), "\u{200b}");
    assert_eq!(EmbeddingColumn::try_from("embedding").unwrap().clone().as_str(), "embedding");
}

#[test]
fn blank_is_what_trimming_empties() {
    for code in 0..0x11_0000u32 {
        if let Some(c) = char::from_u32(code) {
            assert_eq!(EmbeddingColumn::new(c.to_string()).is_err(), c.to_string().trim().is_empty());
        }
    }
}

#[test]
fn embeddings_are_rectangular() {
    let dim = EmbeddingDim::new(2).unwrap();
    let embeddings = Embeddings::new(scalars(&[1.0, 2.0, 3.0, 4.0, 5.0, 6.0]), dim).unwrap();
    assert_eq!(embeddings.row_count(), 3);
    assert_eq!(embeddings.dim(), dim);
    assert_eq!(embeddings.clone().data(), &scalars(&[1.0, 2.0, 3.0, 4.0, 5.0, 6.0])[..]);
    assert_eq!(Embeddings::new(Vec::new(), dim).unwrap().row_count(), 0);
    assert_eq!(Embeddings::new(scalars(&[1.0, 2.0, 3.0]), dim).err(), Some(Error::RaggedEmbeddings));
}

#[test]
fn scalars_compare_as_floats_do() {
    let values = [
        f32::NEG_INFINITY,
        f32::MIN,
        -1.5,
        -1.0e-40,
        -0.0,
        0.0,
        1.0e-40,
        1.0,
        1.5,
        f32::MAX,
        f32::INFINITY,
        f32::NAN,
        -f32::NAN,
    ];
    for a in values {
        assert_eq!(scalar(a).is_nan(), a.is_nan());
        for b in values {
            assert_eq!(scalar(a).less(scalar(b)), a < b);
            assert_eq!(scalar(a).at_least(scalar(b)), a >= b);
            assert_eq!(scalar(a).equals(scalar(b)), a == b);
            if !a.is_nan() && !b.is_nan() {
                assert_eq!(scalar(a).rank().cmp(&scalar(b).rank()), a.partial_cmp(&b).unwrap());
            }
        }
    }
    assert_eq!(zero(), scalar(0.0));
    assert_eq!(infinity(), scalar(f32::INFINITY));
}

#[test]
fn sorting_is_stable_and_puts_nan_last() {
    let keys = scalars(&[2.0, f32::NAN, -1.0, 2.0, 0.0, -0.0]);
    assert_eq!(stable_order(&keys), vec![2, 4, 5, 0, 3, 1]);
    // A NaN is neither above nor below equal numbers.
    assert_eq!(stable_order(&scalars(&[f32::NAN, 1.0])), vec![0, 1]);
    assert_eq!(stable_order(&scalars(&[2.0, f32::NAN, 2.0, f32::NAN])), vec![0, 1, 2, 3]);
    assert_eq!(stable_order(&scalars(&[f32::NAN, 0.0, -0.0])), vec![0, 1, 2]);
    assert_eq!(stable_order(&scalars(&[f32::NAN, f32::NAN])), vec![0, 1]);
    assert_eq!(stable_order(&[]), Vec::<usize>::new());
}

#[test]
fn a_heap_gives_the_greatest_first() {
    let mut heap = DistanceHeap::new();
    assert!(heap.peek().is_none());
    for (row_idx, distance) in [(0, 3.0), (1, 9.0), (2, -1.0), (3, 4.5)] {
        heap.push(HeapItem { row_idx, distance: scalar(distance) });
    }
    assert_eq!(heap.len(), 4);
    let top = heap.peek().unwrap();
    assert_eq!((top.row_idx, top.distance), (1, scalar(9.0)));
    let mut rows: Vec<u32> = Vec::new();
    while let Some(item) = heap.pop() {
        rows.push(item.row_idx);
    }
    assert_eq!(rows, vec![1, 3, 0, 2]);
    assert!(heap.pop().is_none());
    assert!(heap.into_vec().is_empty());
}

/// A float that compares as an item of the heap does.
#[derive(Clone, Copy)]
struct Reading {
    row_idx: u32,
    distance: f32,
}

impl PartialEq for Reading {
    fn eq(&self, other: &Self) -> bool {
        self.distance == other.distance
    }
}

impl Eq for Reading {}

impl PartialOrd for Reading {
    fn partial_cmp(&self, other: &Self) -> Option<Ordering> {
        Some(self.cmp(other))
    }
}

impl Ord for Reading {
    fn cmp(&self, other: &Self) -> Ordering {
        self.distance.partial_cmp(&other.distance).unwrap_or(Ordering::Equal)
    }
}

#[test]
fn the_heap_agrees_with_that_of_std() {
    let mut rng = StdRng::seed_from_u64(12);
    for round in 0..300 {
        let mut ours = DistanceHeap::new();
        let mut theirs: BinaryHeap<Reading> = BinaryHeap::new();
        for row_idx in 0..60u32 {
            if rng.gen_range(0..4) == 0 {
                let row = ours.pop().map(|item| item.row_idx);
                assert_eq!(row, theirs.pop().map(|item| item.row_idx));
            } else {
                // Many ties, and a NaN now and then.
                let distance = if round % 2 == 0 && rng.gen_range(0..9) == 0 {
                    f32::NAN
                } else {
                    rng.gen_range(0..12) as f32
                };
                ours.push(HeapItem { row_idx, distance: scalar(distance) });
                theirs.push(Reading { row_idx, distance });
            }
            assert_eq!(ours.peek().map(|item| item.row_idx), theirs.peek().map(|item| item.row_idx));
            assert_eq!(ours.len(), theirs.len());
        }
        let ours: Vec<u32> = ours.into_vec().iter().map(|item| item.row_idx).collect();
        let theirs: Vec<u32> = theirs.into_vec().iter().map(|item| item.row_idx).collect();
        assert_eq!(ours, theirs);
    }
}

#[test]
fn heap_items_compare_by_distance() {
    let item = |row_idx: u32, distance: f32| HeapItem { row_idx, distance: scalar(distance) };
    assert!(item(1, 2.0) == item(9, 2.0));
    assert!(item(1, 0.0) == item(1, -0.0));
    assert!(item(1, 2.0) != item(1, 3.0));
    assert!(item(1, f32::NAN) != item(1, f32::NAN));
    assert!(item(5, 1.0) < item(4, 2.0));
    assert_eq!(item(5, 2.0).cmp(&item(4, 1.0)), Ordering::Greater);
    assert_eq!(item(5, f32::NAN).cmp(&item(4, 1.0)), Ordering::Equal);
    assert_eq!(item(5, 1.0).partial_cmp(&item(4, f32::NAN)), Some(Ordering::Equal));
}

#[test]
fn counts_of_one_number_are_equal() {
    let count = ClusterCount::new(12).unwrap();
    assert_eq!(ClusterCount::new(count.as_usize()), Ok(count));
    let dim = EmbeddingDim::new(3).unwrap();
    assert_eq!(EmbeddingDim::new(dim.as_usize()), Ok(dim));
}

#[test]
fn ranges_cover_all_items() {
    assert_eq!(chunk_ranges(2500, 1000), vec![(0, 1000), (1000, 2000), (2000, 2500)]);
    assert_eq!(chunk_ranges(2000, 1000), vec![(0, 1000), (1000, 2000)]);
    assert_eq!(chunk_ranges(0, 1000), Vec::<(usize, usize)>::new());
}

#[test]
fn work_is_shared_out() {
    assert_eq!(worker_count(8, 3), 3);
    assert_eq!(worker_count(8, 100), 8);
    assert_eq!(worker_count(0, 100), 1);
    assert_eq!(worker_count(8, 0), 1);
    assert_eq!(worker_ranges(10, 4), vec![(0, 3), (3, 6), (6, 9), (9, 10)]);
    // Rounding the share up can leave the last worker without work.
    assert_eq!(worker_ranges(5, 4), vec![(0, 2), (2, 4), (4, 5)]);
    assert_eq!(worker_ranges(0, 4), Vec::<(usize, usize)>::new());
}

#[test]
fn numbers_are_written_in_decimal() {
    for n in [0, 7, 9, 10, 42, 99, 100, 1002, usize::MAX] {
        assert_eq!(decimal_of(n), n.to_string());
    }
}

#[test]
fn every_error_has_a_message() {
    let dimension = Error::QueryDimension { expected: 768, got: 3 };
    assert_eq!(dimension.message(), "Query dimension mismatch: expected 768, got 3");
    let column = Error::ColumnNotFound { column: "vec".to_owned() };
    assert_eq!(column.message(), "Column 'vec' not found");
    assert_eq!(Error::CountOutOfRange.message(), u32::try_from(u64::MAX).unwrap_err().to_string());
    assert_eq!(Error::ZeroClusterCount.message(), "Cluster count must be > 0");
    assert_eq!(Error::ZeroDimension.message(), "Embedding dimension must be > 0");
    assert_eq!(Error::EmptyColumnName.message(), "Embedding column name cannot be empty");
    assert_eq!(Error::RaggedEmbeddings.message(), "Embedding data length must be a multiple of dimension");
    assert_eq!(Error::NoVectors.message(), "Cannot build IVF index with zero vectors");
    assert_eq!(Error::TooManyClusters.message(), "n_clusters cannot exceed number of vectors");
    assert_eq!(Error::BufferTooSmall.message(), "IVF index buffer too small");
    assert_eq!(Error::ZeroK.message(), "k must be > 0");
    assert_eq!(Error::ZeroNprobe.message(), "nprobe must be > 0");
    assert_eq!(Error::KNotSet.message(), "k must be set");
    assert_eq!(Error::NprobeNotSet.message(), "nprobe must be set");
    assert_eq!(Error::NullRows.message(), "Embedding column contains null rows");
    assert_eq!(Error::NullValues.message(), "Embedding values contain nulls");
    assert_eq!(Error::SelectionMismatch.message(), "Selected embeddings do not match expected dimensions");
}
