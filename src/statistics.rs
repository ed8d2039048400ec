//! Elementary combinatorial functions on machine integers.
use vstd::prelude::*;

verus! {

/// `n!` over the natural numbers.
pub open spec fn spec_factorial(n: nat) -> nat
    decreases n,
{
    if n == 0 {
        1
    } else {
        n * spec_factorial((n - 1) as nat)
    }
}

/// Every factorial is at least one.
pub proof fn lemma_factorial_positive(n: nat)
    ensures
        spec_factorial(n) >= 1,
    decreases n,
{
    if n > 0 {
        lemma_factorial_positive((n - 1) as nat);
        assert(n * spec_factorial((n - 1) as nat) >= 1) by (nonlinear_arith)
            requires
                n >= 1,
                spec_factorial((n - 1) as nat) >= 1,
        ;
    }
}

/// The factorial never decreases: `(n - 1)! <= n!`.
pub proof fn lemma_factorial_grows(n: nat)
    requires
        n >= 1,
    ensures
        spec_factorial((n - 1) as nat) <= spec_factorial(n),
{
    lemma_factorial_positive((n - 1) as nat);
    assert(spec_factorial((n - 1) as nat) <= n * spec_factorial((n - 1) as nat)) by (nonlinear_arith)
        requires
            n >= 1,
    ;
}

/// Computes `n!`; defined whenever the result fits in a `usize`.
pub fn factorial(n: usize) -> (r: usize)
    requires
        spec_factorial(n as nat) <= usize::MAX,
    ensures
        r == spec_factorial(n as nat),
    decreases n,
{
    if n == 0 {
        1
    } else {
        proof {
            lemma_factorial_grows(n as nat);
        }
        let f = factorial(n - 1);
        n * f
    }
}

/// The ratio `n! / (n! * (n - k)!)` in integer division, for `k <= n`:
/// one when `n - k` is at most one, and zero otherwise.
pub fn binomial_coefficient(n: usize, k: usize) -> (r: usize)
    requires
        k <= n,
        spec_factorial(n as nat) * spec_factorial((n - k) as nat) <= usize::MAX,
    ensures
        r == spec_factorial(n as nat) / (spec_factorial(n as nat) * spec_factorial((n - k) as nat)),
        r == (if n - k <= 1 { 1usize } else { 0usize }),
{
    proof {
        lemma_factorial_positive(n as nat);
        lemma_factorial_positive((n - k) as nat);
        let a = spec_factorial(n as nat);
        let b = spec_factorial((n - k) as nat);
        assert(a <= a * b && b <= a * b) by (nonlinear_arith)
            requires
                a >= 1,
                b >= 1,
        ;
        if n - k <= 1 {
            assert(b == 1) by {
                reveal_with_fuel(spec_factorial, 2);
            }
            assert(a / (a * b) == 1) by (nonlinear_arith)
                requires
                    a >= 1,
                    b == 1,
            ;
        } else {
            lemma_factorial_at_least_two((n - k) as nat);
            assert(a / (a * b) == 0) by (nonlinear_arith)
                requires
                    a >= 1,
                    b >= 2,
            ;
        }
    }
    let num = factorial(n);
    let den = num * factorial(n - k);
    num / den
}

/// From two on, the factorial is at least two.
proof fn lemma_factorial_at_least_two(n: nat)
    requires
        n >= 2,
    ensures
        spec_factorial(n) >= 2,
{
    lemma_factorial_positive((n - 1) as nat);
    assert(n * spec_factorial((n - 1) as nat) >= 2) by (nonlinear_arith)
        requires
            n >= 2,
            spec_factorial((n - 1) as nat) >= 1,
    ;
}

/// The gamma function on positive integers: `gamma(n) == (n - 1)!`.
pub fn gamma(n: usize) -> (r: usize)
    requires
        n >= 1,
        spec_factorial((n - 1) as nat) <= usize::MAX,
    ensures
        r == spec_factorial((n - 1) as nat),
{
    factorial(n - 1)
}

/// The discrete Dirac delta: one at zero, zero elsewhere.
pub fn dirac_delta(x: usize) -> (r: usize)
    ensures
        r == (if x == 0 { 1usize } else { 0usize }),
{
    if x == 0 {
        1
    } else {
        0
    }
}

} // verus!
