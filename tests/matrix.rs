use moonalloy::linalg::array::Array;
use moonalloy::linalg::matrix::Matrix;

fn mat(rows: &[&[f64]]) -> Matrix<f64> {
    Matrix::new(rows.iter().map(|r| Array::from(r)).collect())
}

fn product(a: &Matrix<f64>, b: &Matrix<f64>) -> Matrix<f64> {
    a.mult_with(b, 0.0, |x, y| x * y, |x, y| x + y)
}

#[test]
fn matrix_index() {
    let a = Matrix::new(vec![Array::from(&[1.0, 2.0]), Array::from(&[3.0, 5.0])]);

    assert_eq!(3.0, a.row(1).get(0));
}

#[test]
#[should_panic]
fn index_out_of_bounds_rows() {
    let a = Matrix::new(vec![Array::from(&[1.0, 2.0]), Array::from(&[3.0, 5.0])]);

    a.row(2).get(1);
}

#[test]
#[should_panic]
fn index_out_of_bounds_columns() {
    let a = Matrix::new(vec![Array::from(&[1.0, 2.0]), Array::from(&[3.0, 5.0])]);

    a.row(1).get(2);
}

#[test]
fn matrix_zeros() {
    let z = Matrix::of(0.0, 2, 2);
    let r = Matrix::new(vec![Array::from(&[0.0, 0.0]), Array::from(&[0.0, 0.0])]);

    assert_eq!(r, z);
}

#[test]
fn matrix_ones() {
    let o = Matrix::of(1.0, 2, 2);
    let r = Matrix::new(vec![Array::from(&[1.0, 1.0]), Array::from(&[1.0, 1.0])]);

    assert_eq!(r, o);
}

#[test]
fn identity() {
    let i = Matrix::identity(2, 0.0, 1.0);
    let r = Matrix::new(vec![Array::from(&[1.0, 0.0]), Array::from(&[0.0, 1.0])]);

    assert_eq!(r, i);
}

#[test]
fn matrix_add() {
    let a = Matrix::new(vec![Array::from(&[1.0, 2.0]), Array::from(&[3.0, 5.0])]);
    let b = Matrix::new(vec![Array::from(&[2.0, 3.0]), Array::from(&[5.0, 8.0])]);
    let r = Matrix::new(vec![Array::from(&[3.0, 5.0]), Array::from(&[8.0, 13.0])]);
    assert_eq!(r, a.zip_with(&b, |x, y| x + y));
}

#[test]
fn matrix_sub() {
    let a = Matrix::new(vec![Array::from(&[3.0, 5.0]), Array::from(&[8.0, 13.0])]);
    let b = Matrix::new(vec![Array::from(&[2.0, 3.0]), Array::from(&[5.0, 8.0])]);
    let r = Matrix::new(vec![Array::from(&[1.0, 2.0]), Array::from(&[3.0, 5.0])]);
    assert_eq!(r, a.zip_with(&b, |x, y| x - y));
}

#[test]
fn scalar() {
    let a = Matrix::new(vec![Array::from(&[1.0, 2.0]), Array::from(&[3.0, 5.0])]);
    let r = Matrix::new(vec![Array::from(&[2.0, 4.0]), Array::from(&[6.0, 10.0])]);

    assert_eq!(r, a.map(|x| 2.0 * x));
}

#[test]
fn matrix_neg() {
    let a = Matrix::new(vec![Array::from(&[1.0, 2.0]), Array::from(&[3.0, 5.0])]);
    let r = Matrix::new(vec![Array::from(&[-1.0, -2.0]), Array::from(&[-3.0, -5.0])]);

    assert_eq!(r, a.map(|x| -1.0 * x));
}

#[test]
fn elem_mult() {
    let a = Matrix::new(vec![Array::from(&[3.0, 5.0]), Array::from(&[8.0, 13.0])]);
    let b = Matrix::new(vec![Array::from(&[2.0, 3.0]), Array::from(&[5.0, 8.0])]);
    let r = Matrix::new(vec![Array::from(&[6.0, 15.0]), Array::from(&[40.0, 104.0])]);
    assert_eq!(r, a.zip_with(&b, |x, y| x * y));
}

#[test]
fn matrix_mult() {
    let a = Matrix::new(vec![Array::from(&[1.0, 2.0]), Array::from(&[3.0, 4.0])]);
    let r = Matrix::new(vec![Array::from(&[7.0, 10.0]), Array::from(&[15.0, 22.0])]);
    assert_eq!(r, product(&a, &a));
}

#[test]
fn transpose() {
    let a = Matrix::new(vec![Array::from(&[1.0, 2.0]), Array::from(&[3.0, 4.0])]);
    let r = Matrix::new(vec![Array::from(&[1.0, 3.0]), Array::from(&[2.0, 4.0])]);
    assert_eq!(r, a.transpose());
}

#[test]
fn matrix_get() {
    let a = Matrix::new(vec![Array::from(&[1.0, 2.0]), Array::from(&[3.0, 4.0])]);
    assert_eq!(3.0, a.get(1, 0));
}

#[test]
fn matrix_set() {
    let mut a = Matrix::new(vec![Array::from(&[1.0, 2.0]), Array::from(&[3.0, 4.0])]);
    let r = Matrix::new(vec![Array::from(&[1.0, 2.0]), Array::from(&[3.0, 8.0])]);

    a.set(8.0, 1, 1);

    assert_eq!(r, a);
}

#[test]
fn matrix_iterator() {
    let a = Matrix::new(vec![Array::from(&[1.0, 2.0]), Array::from(&[3.0, 4.0])]);
    let first = Array::from(&[1.0, 2.0]);
    let second = Array::from(&[3.0, 4.0]);

    let mut it = a.as_slice().iter();

    assert_eq!(it.next(), Some(first).as_ref());
    assert_eq!(it.next(), Some(second).as_ref());
}

#[test]
fn transpose_twice_gives_back_the_matrix() {
    let a = mat(&[&[1.0, 2.0, 3.0], &[4.0, 5.0, 6.0]]);
    let t = a.transpose();

    assert_eq!((3, 2), t.dimensions());
    assert_eq!(a, t.transpose());
}

#[test]
fn transpose_of_rectangular() {
    let a = mat(&[&[1.0, 2.0, 3.0], &[4.0, 5.0, 6.0]]);
    let r = mat(&[&[1.0, 4.0], &[2.0, 5.0], &[3.0, 6.0]]);

    assert_eq!(r, a.transpose());
}

#[test]
fn identity_times_matrix_is_the_matrix() {
    let a = mat(&[&[2.0, -1.0, 0.5], &[3.0, 4.0, 1.0], &[0.0, 7.0, -2.0]]);
    let i = Matrix::identity(3, 0.0, 1.0);

    assert_eq!(a, product(&i, &a));
}

#[test]
fn identity_equals_literal() {
    assert_eq!(mat(&[&[1.0, 0.0], &[0.0, 1.0]]), Matrix::identity(2, 0.0, 1.0));
}

#[test]
fn mult_of_rectangular_shapes() {
    // 2 x 3 times 3 x 2, in this library's orientation, is the 3 x 3 product
    // of the second by the first.
    let a = mat(&[&[1.0, 2.0, 3.0], &[4.0, 5.0, 6.0]]);
    let b = mat(&[&[1.0, 0.0], &[0.0, 1.0], &[1.0, 1.0]]);
    let r = mat(&[&[1.0, 2.0, 3.0], &[4.0, 5.0, 6.0], &[5.0, 7.0, 9.0]]);

    let p = product(&a, &b);
    assert_eq!((3, 3), p.dimensions());
    assert_eq!(r, p);
}

#[test]
fn valid_slice_detects_ragged_rows() {
    let ragged = vec![Array::from(&[1.0, 2.0]), Array::from(&[3.0])];
    let even = vec![Array::from(&[1.0, 2.0]), Array::from(&[3.0, 4.0])];

    assert!(!Matrix::is_valid_slice(&ragged));
    assert!(Matrix::is_valid_slice(&even));
}

#[test]
fn splice_of_a_row() {
    let a = mat(&[&[1.0, 2.0, 3.0, 4.0], &[5.0, 6.0, 7.0, 8.0]]);

    assert_eq!(Array::from(&[6.0, 7.0]), a.splice(1, 1, 3));
}

#[test]
fn set_row_aligns_to_the_right() {
    let mut a = mat(&[&[1.0, 2.0, 3.0], &[4.0, 5.0, 6.0]]);
    a.set_row(Array::from(&[9.0, 8.0]), 0);

    assert_eq!(mat(&[&[1.0, 9.0, 8.0], &[4.0, 5.0, 6.0]]), a);

    a.set_row(Array::from(&[7.0, 7.0, 7.0]), 1);
    assert_eq!(mat(&[&[1.0, 9.0, 8.0], &[7.0, 7.0, 7.0]]), a);
}

#[test]
fn swap_rows_exchanges_rows() {
    let mut a = mat(&[&[1.0, 2.0], &[3.0, 4.0], &[5.0, 6.0]]);
    a.swap_rows(0, 2);

    assert_eq!(mat(&[&[5.0, 6.0], &[3.0, 4.0], &[1.0, 2.0]]), a);

    a.swap_rows(1, 1);
    assert_eq!(mat(&[&[5.0, 6.0], &[3.0, 4.0], &[1.0, 2.0]]), a);
}

#[test]
fn augment_appends_a_column() {
    let a = mat(&[&[3.0, 2.0], &[-6.0, 6.0]]);
    let b = Array::from(&[7.0, 6.0]);

    let m = a.augment(&b);
    assert_eq!((2, 3), m.dimensions());
    assert_eq!(mat(&[&[3.0, 2.0, 7.0], &[-6.0, 6.0, 6.0]]), m);
}

#[test]
fn dimensions_of_of() {
    assert_eq!((4, 1), Matrix::of(0.0, 4, 1).dimensions());
}
