use moonalloy::linalg::array::Array;

fn total(a: &Array<f64>) -> f64 {
    a.fold(0.0, |s, x| s + x)
}

fn dot(a: &Array<f64>, b: &Array<f64>) -> f64 {
    a.dotp_with(b, 0.0, |x, y| x * y, |x, y| x + y)
}

#[test]
fn new() {
    let n: Array<f64> = Array::new();
    let f: Array<f64> = Array::from(&[]);

    assert_eq!(n, f);
}

#[test]
fn array_index() {
    let a = Array::from(&[1.0, 2.0, 3.0]);

    assert_eq!(2.0, a.as_slice()[1]);
}

#[test]
#[should_panic]
fn index_out_of_bounds() {
    let a = Array::from(&[1.0, 2.0, 3.0]);

    a.get(3);
}

#[test]
fn sum() {
    let a = Array::from(&[1.0, 2.0, 3.0]);

    assert_eq!(6.0, total(&a));
}

#[test]
fn scalar_mult() {
    let a = Array::from(&[1.0, 2.0, 3.0]);
    let r = Array::from(&[2.0, 4.0, 6.0]);

    assert_eq!(r, a.map(|x| 2.0 * x))
}

#[test]
fn array_neg() {
    let a = Array::from(&[1.0, 2.0, 3.0]);
    let r = Array::from(&[-1.0, -2.0, -3.0]);

    assert_eq!(r, a.map(|x| -1.0 * x))
}

#[test]
fn array_add() {
    let a = Array::from(&[1.0, 2.0, 3.0]);
    let b = Array::from(&[2.0, 3.0, 5.0]);
    let r = Array::from(&[3.0, 5.0, 8.0]);

    assert_eq!(r, a.zip_with(&b, |x, y| x + y));
}

#[test]
fn array_sub() {
    let a = Array::from(&[2.0, 3.0, 5.0]);
    let b = Array::from(&[1.0, 2.0, 3.0]);
    let r = Array::from(&[1.0, 1.0, 2.0]);

    assert_eq!(r, a.zip_with(&b, |x, y| x - y));
}

#[test]
fn array_mult() {
    let a = Array::from(&[1.0, 2.0, 3.0]);
    let b = Array::from(&[2.0, 3.0, 5.0]);
    let r = Array::from(&[2.0, 6.0, 15.0]);

    assert_eq!(r, a.zip_with(&b, |x, y| x * y));
}

#[test]
fn dotp() {
    let a = Array::from(&[1.0, 2.0, 3.0]);
    let b = Array::from(&[2.0, 3.0, 5.0]);

    assert_eq!(23.0, dot(&a, &b));
}

#[test]
fn concat() {
    let a = Array::from(&[1.0, 2.0]);
    let b = Array::from(&[3.0, 5.0]);
    let r = Array::from(&[1.0, 2.0, 3.0, 5.0]);

    assert_eq!(r, a.concat(&b));
}

#[test]
fn array_zeros() {
    let a = Array::of(0.0, 3);
    let r = Array::from(&[0.0, 0.0, 0.0]);

    assert_eq!(r, a);
}

#[test]
fn array_ones() {
    let a = Array::of(1.0, 3);
    let r = Array::from(&[1.0, 1.0, 1.0]);

    assert_eq!(r, a);
}

#[test]
fn array_get() {
    let a = Array::from(&[1.0, 2.0, 3.0]);

    assert_eq!(2.0, a.get(1));
}

#[test]
fn array_set() {
    let mut a = Array::from(&[1.0, 2.0, 3.0]);
    let r = Array::from(&[5.0, 2.0, 3.0]);

    a.set(5.0, 0);

    assert_eq!(r, a);
}

#[test]
fn array_iterator() {
    let a = Array::from(&[1.0, 2.0, 3.0]);
    let mut it = a.as_slice().iter();

    assert_eq!(*it.next().unwrap(), 1.0_f64);
    assert_eq!(*it.next().unwrap(), 2.0_f64);
    assert_eq!(*it.next().unwrap(), 3.0_f64);
}

#[test]
fn splice() {
    let expected = Array::from(&[2.0, 3.0]);
    let a = Array::from(&[1.0, 2.0, 3.0, 4.0, 5.0]);

    let actual = a.splice(1, 3);
    assert_eq!(expected, actual);
}

#[test]
fn plus_then_minus_restores_exact_values() {
    let a = Array::from(&[1.5, -2.0, 0.25, 8.0]);
    let b = Array::from(&[0.5, 4.0, -0.75, 2.0]);

    let back = a.zip_with(&b, |x, y| x + y).zip_with(&b, |x, y| x - y);
    assert_eq!(a, back);
}

#[test]
fn plus_then_minus_restores_integers() {
    let a = Array::from(&[3i64, -7, 0]);
    let b = Array::from(&[10i64, 20, -30]);

    let back = a.zip_with(&b, |x, y| x + y).zip_with(&b, |x, y| x - y);
    assert_eq!(a, back);
}

#[test]
fn splice_of_whole_range_is_a_copy() {
    let a = Array::from(&[1.0, 2.0, 3.0]);

    assert_eq!(a, a.splice(0, 3));
}

#[test]
fn concat_with_empty() {
    let a = Array::from(&[4.0, 5.0]);
    let e: Array<f64> = Array::new();

    assert_eq!(a, a.concat(&e));
    assert_eq!(a, e.concat(&a));
}

#[test]
fn of_zero_length_is_empty() {
    let a = Array::of(7.0, 0);

    assert_eq!(0, a.len());
    assert_eq!(Array::new(), a);
}

#[test]
fn fold_runs_left_to_right() {
    let a = Array::from(&[1i64, 2, 3]);

    assert_eq!(((0 - 1) - 2) - 3, a.fold(0i64, |s, x| s - x));
    assert_eq!(123, a.fold(0i64, |s, x| s * 10 + x));
}

#[test]
fn norm_from_fold() {
    let a = Array::from(&[3.0, 4.0]);

    assert_eq!(5.0, a.fold(0.0, |s: f64, x| s + x * x).sqrt());
}

#[test]
fn length_is_reported() {
    assert_eq!(3, Array::from(&[1.0, 2.0, 3.0]).len());
}
