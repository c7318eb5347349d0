//! Binomial coefficients and factorials as mathematical functions, with the
//! identities the indexer relies on.

use vstd::prelude::*;
use vstd::arithmetic::mul::*;
use vstd::arithmetic::div_mod::*;

verus! {

/// `n!`.
pub open spec fn factorial(n: nat) -> nat
    decreases n,
{
    if n == 0 {
        1
    } else {
        n * factorial((n - 1) as nat)
    }
}

/// The number of `k`-element subsets of an `n`-element set.
pub open spec fn binomial(n: nat, k: nat) -> nat
    decreases n,
{
    if k == 0 {
        1
    } else if n == 0 {
        0
    } else {
        binomial((n - 1) as nat, (k - 1) as nat) + binomial((n - 1) as nat, k)
    }
}

/// Pascal's rule: a subset either holds the last element or it does not.
pub proof fn lemma_pascal(n: nat, k: nat)
    requires
        n >= 1,
        k >= 1,
    ensures
        binomial(n, k) == binomial((n - 1) as nat, (k - 1) as nat) + binomial((n - 1) as nat, k),
{
}

/// No subset is larger than the set it is drawn from.
pub proof fn lemma_binomial_above(n: nat, k: nat)
    requires
        k > n,
    ensures
        binomial(n, k) == 0,
    decreases n,
{
    if n > 0 {
        lemma_binomial_above((n - 1) as nat, (k - 1) as nat);
        lemma_binomial_above((n - 1) as nat, k);
    }
}

/// The whole set is its only full-size subset.
pub proof fn lemma_binomial_full(n: nat)
    ensures
        binomial(n, n) == 1,
    decreases n,
{
    if n > 0 {
        lemma_binomial_full((n - 1) as nat);
        lemma_binomial_above((n - 1) as nat, n);
    }
}

/// Every subset size up to `n` can be realised.
pub proof fn lemma_binomial_positive(n: nat, k: nat)
    requires
        k <= n,
    ensures
        binomial(n, k) >= 1,
    decreases n,
{
    if k > 0 {
        lemma_binomial_positive((n - 1) as nat, (k - 1) as nat);
    }
}

/// A larger pool never offers fewer subsets of a given size.
pub proof fn lemma_binomial_grows(m: nat, n: nat, k: nat)
    requires
        m <= n,
    ensures
        binomial(m, k) <= binomial(n, k),
    decreases n,
{
    if m < n {
        lemma_binomial_grows(m, (n - 1) as nat, k);
    }
}

/// Removing `a` elements from the pool and `b <= a` of them from the draw
/// never increases the count.
pub proof fn lemma_binomial_shrinks(n: nat, k: nat, a: nat, b: nat)
    requires
        b <= a <= n,
        b <= k,
    ensures
        binomial((n - a) as nat, (k - b) as nat) <= binomial(n, k),
    decreases b,
{
    if b == 0 {
        lemma_binomial_grows((n - a) as nat, n, k);
    } else {
        lemma_binomial_shrinks((n - 1) as nat, (k - 1) as nat, (a - 1) as nat, (b - 1) as nat);
    }
}

pub proof fn lemma_factorial_positive(n: nat)
    ensures
        factorial(n) >= 1,
    decreases n,
{
    if n > 0 {
        lemma_factorial_positive((n - 1) as nat);
        lemma_mul_strictly_positive(n as int, factorial((n - 1) as nat) as int);
    }
}

/// `C(n, k) * k! * (n - k)! == n!`.
pub proof fn lemma_binomial_factorial(n: nat, k: nat)
    requires
        k <= n,
    ensures
        binomial(n, k) * (factorial(k) * factorial((n - k) as nat)) == factorial(n),
    decreases n,
{
    let fk = factorial(k) as int;
    let fnk = factorial((n - k) as nat) as int;
    if k == 0 {
        assert(1 * (1 * fnk) == fnk);
    } else if k == n {
        lemma_binomial_full(n);
        assert(factorial(0) == 1);
        assert(1 * (fk * 1) == fk) by (nonlinear_arith);
    } else {
        let a = binomial((n - 1) as nat, (k - 1) as nat) as int;
        let b = binomial((n - 1) as nat, k) as int;
        let fk1 = factorial((k - 1) as nat) as int;
        let fnk1 = factorial((n - k - 1) as nat) as int;
        let fn1 = factorial((n - 1) as nat) as int;
        lemma_binomial_factorial((n - 1) as nat, (k - 1) as nat);
        lemma_binomial_factorial((n - 1) as nat, k);
        assert(a * (fk1 * fnk) == fn1);
        assert(b * (fk * fnk1) == fn1);
        assert(fk == k * fk1);
        assert(fnk == (n - k) * fnk1);
        assert((a + b) * (fk * fnk) == n * fn1) by (nonlinear_arith)
            requires
                a * (fk1 * fnk) == fn1,
                b * (fk * fnk1) == fn1,
                fk == k * fk1,
                fnk == (n - k) * fnk1,
        ;
    }
}

/// The quotient of factorials is exact and equals the binomial coefficient.
pub proof fn lemma_factorial_quotient(n: nat, k: nat)
    requires
        k <= n,
    ensures
        factorial(k) * factorial((n - k) as nat) >= 1,
        factorial(n) / (factorial(k) * factorial((n - k) as nat)) == binomial(n, k),
{
    let d = (factorial(k) * factorial((n - k) as nat)) as int;
    lemma_factorial_positive(k);
    lemma_factorial_positive((n - k) as nat);
    lemma_mul_strictly_positive(factorial(k) as int, factorial((n - k) as nat) as int);
    lemma_binomial_factorial(n, k);
    lemma_div_by_multiple(binomial(n, k) as int, d);
}

/// Choosing the `k` elements to take is choosing the `n - k` to leave.
pub proof fn lemma_binomial_symmetric(n: nat, k: nat)
    requires
        k <= n,
    ensures
        binomial(n, k) == binomial(n, (n - k) as nat),
{
    let d = (factorial(k) * factorial((n - k) as nat)) as int;
    lemma_factorial_quotient(n, k);
    lemma_factorial_quotient(n, (n - k) as nat);
    assert((n - (n - k)) as nat == k);
    lemma_mul_is_commutative(factorial(k) as int, factorial((n - k) as nat) as int);
}

} // verus!
