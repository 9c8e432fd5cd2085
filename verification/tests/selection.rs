use parquet::arrow::arrow_reader::{RowSelection, RowSelector};
use pq_vector::count::EmbeddingDim;
use pq_vector::embeddings::EmbeddingColumn;
use pq_vector::error::Error;
use pq_vector::scalar::Scalar;
use pq_vector::selection::{check_batch, column_position, restore_order, rows_to_read, select_rows};

fn scalars(values: &[f32]) -> Vec<Scalar> {
    values.iter().map(|v| Scalar { bits: v.to_bits() }).collect()
}

fn dim(dim: usize) -> EmbeddingDim {
    EmbeddingDim::new(dim).unwrap()
}

#[test]
fn rows_are_read_in_order() {
    assert_eq!(rows_to_read(&[5, 1, 4_000_000_000, 0, 5]), Some(vec![0, 1, 5, 4_000_000_000]));
    assert_eq!(rows_to_read(&[]), None);
}

#[test]
fn rows_are_selected_one_by_one() {
    let expected = RowSelection::from(vec![
        RowSelector::skip(2),
        RowSelector::select(1),
        RowSelector::select(1),
        RowSelector::skip(3),
        RowSelector::select(1),
        RowSelector::skip(2),
    ]);
    assert_eq!(select_rows(&[2, 3, 7], 10), expected);
    assert_eq!(select_rows(&[2, 3, 7], 10).row_count(), 3);
    let selectors: Vec<RowSelector> = select_rows(&[2, 3, 7], 10).into();
    assert_eq!(
        selectors,
        vec![
            RowSelector::skip(2),
            RowSelector::select(2),
            RowSelector::skip(3),
            RowSelector::select(1),
            RowSelector::skip(2),
        ]
    );
}

#[test]
fn a_selection_may_start_at_the_first_row_and_end_at_the_last() {
    let selectors: Vec<RowSelector> = select_rows(&[0, 1, 2], 3).into();
    assert_eq!(selectors, vec![RowSelector::select(3)]);
    let selectors: Vec<RowSelector> = select_rows(&[], 3).into();
    assert_eq!(selectors, vec![RowSelector::skip(3)]);
}

#[test]
fn the_column_is_found_by_name() {
    let names: Vec<String> = vec!["id".to_owned(), "vec".to_owned(), "vec".to_owned()];
    let column = EmbeddingColumn::try_from("vec").unwrap();
    assert_eq!(column_position(&names, &column), Ok(1));
    let missing = EmbeddingColumn::try_from("Vec").unwrap();
    assert_eq!(column_position(&names, &missing), Err(Error::ColumnNotFound { column: "Vec".to_owned() }));
    assert_eq!(column_position(&[], &column), Err(Error::ColumnNotFound { column: "vec".to_owned() }));
}

#[test]
fn missing_values_are_refused() {
    assert_eq!(check_batch(0, 0), Ok(()));
    assert_eq!(check_batch(1, 0), Err(Error::NullRows));
    assert_eq!(check_batch(1, 4), Err(Error::NullRows));
    assert_eq!(check_batch(0, 4), Err(Error::NullValues));
}

#[test]
fn embeddings_return_to_the_order_asked_for() {
    let read = rows_to_read(&[9, 2, 5]).unwrap();
    let embeddings = scalars(&[2.0, 2.5, 5.0, 5.5, 9.0, 9.5]);
    let restored = restore_order(&[9, 2, 5], &read, &embeddings, dim(2));
    assert_eq!(restored, Ok(scalars(&[9.0, 9.5, 2.0, 2.5, 5.0, 5.5])));
}

#[test]
fn a_row_asked_for_twice_comes_back_twice() {
    let wanted = [5, 5];
    let read = rows_to_read(&wanted).unwrap();
    assert_eq!(read, vec![5]);
    let selectors: Vec<RowSelector> = select_rows(&read, 7).into();
    assert_eq!(selectors, vec![RowSelector::skip(5), RowSelector::select(1), RowSelector::skip(1)]);
    let restored = restore_order(&wanted, &read, &scalars(&[50.0, 51.0]), dim(2));
    assert_eq!(restored, Ok(scalars(&[50.0, 51.0, 50.0, 51.0])));
}

#[test]
fn rows_beyond_the_file_are_still_selected() {
    let selectors: Vec<RowSelector> = select_rows(&[2, 9], 4).into();
    assert_eq!(
        selectors,
        vec![RowSelector::skip(2), RowSelector::select(1), RowSelector::skip(6), RowSelector::select(1)]
    );
}

#[test]
fn embeddings_of_another_length_are_refused() {
    let refused = restore_order(&[1, 2], &[1, 2], &scalars(&[1.0, 2.0, 3.0]), dim(2));
    assert_eq!(refused, Err(Error::SelectionMismatch));
    assert_eq!(restore_order(&[], &[], &scalars(&[1.0]), dim(2)), Err(Error::SelectionMismatch));
    assert_eq!(restore_order(&[], &[], &[], dim(2)), Ok(Vec::new()));
}

#[test]
fn what_is_selected_and_restored_is_what_was_asked_for() {
    let column: Vec<f32> = (0..20).map(|i| i as f32).collect();
    let wanted = [7, 0, 9, 3];
    let read = rows_to_read(&wanted).unwrap();
    let selectors: Vec<RowSelector> = select_rows(&read, 10).into();
    let mut taken: Vec<f32> = Vec::new();
    let mut row = 0;
    for selector in selectors {
        if !selector.skip {
            taken.extend_from_slice(&column[2 * row..2 * (row + selector.row_count)]);
        }
        row += selector.row_count;
    }
    assert_eq!(row, 10);
    let restored = restore_order(&wanted, &read, &scalars(&taken), dim(2)).unwrap();
    assert_eq!(restored, scalars(&[14.0, 15.0, 0.0, 1.0, 18.0, 19.0, 6.0, 7.0]));
}
