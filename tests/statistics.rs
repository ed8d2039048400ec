use moonalloy::statistics::{binomial_coefficient, dirac_delta, factorial, gamma};

#[test]
fn test_binomial_k_is_zero() {
    let expected = 1;
    let actual = binomial_coefficient(1, 0);

    assert_eq!(expected, actual);
}

#[test]
fn test_binomial() {
    let expected = 1;
    let actual = binomial_coefficient(3, 2);

    assert_eq!(expected, actual);
}

#[test]
fn test_factorial_of_zero() {
    let expected = 1;
    let actual = factorial(0);

    assert_eq!(expected, actual);
}

#[test]
fn test_factorial_of_3() {
    let expected = 6;
    let actual = factorial(3);

    assert_eq!(expected, actual);
}

#[test]
fn test_dirac_delta_of_zero() {
    let expected = 1;
    let actual = dirac_delta(0);

    assert_eq!(expected, actual);
}

#[test]
fn test_dirac_delta_of_one() {
    let expected = 0;
    let actual = dirac_delta(1);

    assert_eq!(expected, actual);
}

#[test]
fn factorial_of_twenty_fits() {
    assert_eq!(2432902008176640000, factorial(20));
}

#[test]
fn gamma_is_shifted_factorial() {
    assert_eq!(1, gamma(1));
    assert_eq!(24, gamma(5));
}

#[test]
fn binomial_ratio_vanishes_when_far_from_n() {
    assert_eq!(1, binomial_coefficient(4, 4));
    assert_eq!(1, binomial_coefficient(4, 3));
    assert_eq!(0, binomial_coefficient(4, 2));
}

#[test]
fn dirac_delta_of_large_input() {
    assert_eq!(0, dirac_delta(usize::MAX));
}
