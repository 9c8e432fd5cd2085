use pq_vector::distance::Squares;
use pq_vector::scalar::Scalar;

fn scalar(value: f32) -> Scalar {
    Scalar { bits: value.to_bits() }
}

fn float(value: Scalar) -> f32 {
    f32::from_bits(value.bits)
}

fn scalars(values: &[f32]) -> Vec<Scalar> {
    values.iter().map(|v| scalar(*v)).collect()
}

fn minus(a: Scalar, b: Scalar) -> Scalar {
    scalar(float(a) - float(b))
}

fn times(a: Scalar, b: Scalar) -> Scalar {
    scalar(float(a) * float(b))
}

fn plus(a: Scalar, b: Scalar) -> Scalar {
    scalar(float(a) + float(b))
}

fn squared_l2_distance(a: &[f32], b: &[f32]) -> f32 {
    float(Squares { minus, times, plus }.squared_l2_distance(&scalars(a), &scalars(b)))
}

#[test]
fn test_squared_l2_distance() {
    let a = vec![1.0, 2.0, 3.0];
    let b = vec![4.0, 5.0, 6.0];
    let dist = squared_l2_distance(&a, &b);
    assert!((dist - 27.0).abs() < 1e-6);
}

#[test]
fn distances_of_any_length() {
    let a: Vec<f32> = (0..13).map(|i| i as f32).collect();
    let b: Vec<f32> = (0..13).map(|i| 2.0 * i as f32).collect();
    let mut expected = 0.0;
    for len in 0..13 {
        assert_eq!(squared_l2_distance(&a[..len], &b[..len]), expected);
        expected += (len * len) as f32;
    }
}

#[test]
fn four_squares_are_added_before_the_sum() {
    // Next to 1.0e8 a four is lost, but four of them together are not.
    let zeros = [0.0; 8];
    assert_eq!(squared_l2_distance(&[1.0e4, 0.0, 0.0, 0.0, 2.0, 2.0, 2.0, 2.0], &zeros), 1.0e8 + 16.0);
    assert_eq!(squared_l2_distance(&[1.0e4, 0.0, 0.0, 0.0, 2.0, 2.0, 2.0], &zeros[..7]), 1.0e8);
    assert_ne!(1.0e8f32, 1.0e8f32 + 16.0);
}

#[test]
fn rows_are_measured_one_by_one() {
    let squares = Squares { minus, times, plus };
    let matrix = scalars(&[0.0, 0.0, 3.0, 4.0, -1.0, 1.0]);
    assert_eq!(squares.row_distances(&scalars(&[0.0, 1.0]), &matrix), scalars(&[1.0, 18.0, 1.0]));
    assert_eq!(squares.row_distances(&scalars(&[0.0, 1.0]), &[]), Vec::new());
}

#[test]
fn the_distance_is_symmetric_and_zero_to_itself() {
    let a = [0.1f32, -7.3, 1.0e-20, 3.0e18, 5.5, -0.0, 0.3];
    let b = [9.7f32, 0.2, -4.0e-19, -2.0e18, 1.25, 0.0, 1.0e-3];
    assert_eq!(squared_l2_distance(&a, &b).to_bits(), squared_l2_distance(&b, &a).to_bits());
    assert_eq!(squared_l2_distance(&a, &a).to_bits(), 0);
    assert_eq!(squared_l2_distance(&[], &[]).to_bits(), 0);
}
