//! Exact arithmetic on arbitrarily large unsigned integers, provided by
//! `num_bigint::BigUint`. The verifier does not look inside that type: what it
//! may assume about each operation is written on the functions below.

use num_bigint::BigUint;
use vstd::prelude::*;

verus! {

/// `num_bigint::BigUint`, of which the verifier knows only the name.
#[verifier::external_type_specification]
#[verifier::external_body]
pub struct ExBigUint(num_bigint::BigUint);

/// What `BigUint::to_u64_digits` returns for `b`: its digits in base 2^64,
/// least significant first.
pub uninterp spec fn digits(b: BigUint) -> Seq<u64>;

/// The number written by base-2^64 digits, least significant first.
pub open spec fn digits_value(d: Seq<u64>) -> nat
    decreases d.len(),
{
    if d.len() == 0 {
        0
    } else {
        d[0] as nat + 0x1_0000_0000_0000_0000 * digits_value(d.drop_first())
    }
}

/// The most significant digit, if there is one, is not zero.
pub open spec fn normal(d: Seq<u64>) -> bool {
    d.len() == 0 || d.last() != 0
}

/// The number a `BigUint` holds.
pub open spec fn value(b: BigUint) -> nat {
    digits_value(digits(b))
}

/// A non-empty normal digit string of length `len` is worth at least
/// `2^(64 * (len - 1))`; in particular it is not zero, and with two or more
/// digits it does not fit 64 bits.
pub proof fn lemma_normal_magnitude(d: Seq<u64>)
    requires
        normal(d),
        d.len() >= 1,
    ensures
        digits_value(d) >= 1,
        d.len() >= 2 ==> digits_value(d) >= 0x1_0000_0000_0000_0000,
    decreases d.len(),
{
    if d.len() == 1 {
        assert(digits_value(d.drop_first()) == 0);
        assert(d[0] == d.last());
    } else {
        let rest = d.drop_first();
        assert(rest.last() == d.last());
        lemma_normal_magnitude(rest);
    }
}

/// A normal digit string has exactly one digit precisely when its value is
/// between 1 and `u64::MAX`, and that digit is then the value.
pub proof fn lemma_single_digit(d: Seq<u64>)
    requires
        normal(d),
    ensures
        d.len() == 1 <==> 1 <= digits_value(d) <= u64::MAX,
        d.len() == 1 ==> digits_value(d) == d[0],
{
    if d.len() >= 1 {
        lemma_normal_magnitude(d);
    }
    if d.len() == 1 {
        assert(digits_value(d.drop_first()) == 0);
        assert(d[0] == d.last());
    }
}

/// `<BigUint as num_traits::One>::one`: the number one, whose only digit is 1.
#[verifier::external_body]
pub(crate) fn one() -> (r: BigUint)
    ensures
        digits(r) == seq![1u64],
{
    <BigUint as num_traits::One>::one()
}

/// `BigUint *= u8`: multiplies in place by a small factor. The product is
/// exact and stored without a leading zero digit.
#[verifier::external_body]
pub(crate) fn multiply_by_u8(acc: &mut BigUint, factor: u8)
    ensures
        value(*final(acc)) == value(*old(acc)) * factor,
        normal(digits(*final(acc))),
{
    *acc *= factor;
}

/// `BigUint * BigUint`: the exact product, stored without a leading zero
/// digit.
#[verifier::external_body]
pub(crate) fn multiply(a: BigUint, b: BigUint) -> (p: BigUint)
    ensures
        value(p) == value(a) * value(b),
        normal(digits(p)),
{
    a * b
}

/// `BigUint / BigUint`: the quotient rounded down, stored without a leading
/// zero digit. The outside operator panics on a zero divisor, which the
/// precondition rules out.
#[verifier::external_body]
pub(crate) fn divide(a: BigUint, b: BigUint) -> (q: BigUint)
    requires
        value(b) > 0,
    ensures
        value(q) == value(a) / value(b),
        normal(digits(q)),
{
    a / b
}

/// `BigUint::to_u64_digits`: the digits in base 2^64, least significant
/// first.
#[verifier::external_body]
pub(crate) fn to_u64_digits(b: &BigUint) -> (d: Vec<u64>)
    ensures
        d@ == digits(*b),
{
    b.to_u64_digits()
}

} // verus!
