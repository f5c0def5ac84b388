//! Arbitrary-size integers held as plain base-2^32 digits; the arithmetic on
//! them is done by `num_bigint`.

use num_bigint::{BigInt, BigUint, Sign};
use num_traits::Zero;
use std::cmp::Ordering;
use vstd::arithmetic::power::pow;
use vstd::prelude::*;

verus! {

/// The value of base-2^32 digits, least significant first.
pub open spec fn digits_value(s: Seq<u32>) -> nat
    decreases s.len(),
{
    if s.len() == 0 {
        0
    } else {
        s[0] as nat + 0x1_0000_0000 * digits_value(s.subrange(1, s.len() as int))
    }
}

/// A non-negative integer of any size.
#[derive(Clone, Debug, PartialEq, Eq)]
pub struct BigNat {
    /// Base-2^32 digits, least significant first.
    pub digits: Vec<u32>,
}

impl View for BigNat {
    type V = nat;

    open spec fn view(&self) -> nat {
        digits_value(self.digits@)
    }
}

/// An integer of any size and sign: a sign flag and a magnitude.
#[derive(Clone, Debug, PartialEq, Eq)]
pub struct SignedNat {
    pub negative: bool,
    pub magnitude: BigNat,
}

impl View for SignedNat {
    type V = int;

    open spec fn view(&self) -> int {
        if self.negative {
            -(self.magnitude@ as int)
        } else {
            self.magnitude@ as int
        }
    }
}

impl BigNat {
    pub fn from_digits(digits: Vec<u32>) -> (r: BigNat)
        ensures
            r@ == digits_value(digits@),
    {
        BigNat { digits }
    }

    pub fn zero() -> (r: BigNat)
        ensures
            r@ == 0,
    {
        BigNat { digits: Vec::new() }
    }

    pub fn from_u64(v: u64) -> (r: BigNat)
        ensures
            r@ == v,
    {
        let lo = (v % 0x1_0000_0000) as u32;
        let hi = (v / 0x1_0000_0000) as u32;
        let mut digits: Vec<u32> = Vec::new();
        if v != 0 {
            digits.push(lo);
            if hi != 0 {
                digits.push(hi);
            }
        }
        proof {
            reveal_with_fuel(digits_value, 3);
            if v != 0 {
                if hi != 0 {
                    assert(digits@.subrange(1, 2) =~= seq![hi]);
                    assert(digits@.subrange(1, 2).subrange(1, 1) =~= Seq::<u32>::empty());
                } else {
                    assert(digits@.subrange(1, 1) =~= Seq::<u32>::empty());
                }
            }
        }
        BigNat { digits }
    }

    pub fn copied(&self) -> (r: BigNat)
        ensures
            r@ == self@,
    {
        let digits = self.digits.clone();
        assert(digits@ =~= self.digits@);
        BigNat { digits }
    }

    pub fn as_signed(self) -> (r: SignedNat)
        ensures
            r@ == self@ as int,
    {
        SignedNat { negative: false, magnitude: self }
    }
}

/// Relies on `BigUint + BigUint`: the exact sum.
#[verifier::external_body]
pub(crate) fn nat_add(a: &BigNat, b: &BigNat) -> (r: BigNat)
    ensures
        r@ == a@ + b@,
{
    let s = BigUint::new(a.digits.clone()) + BigUint::new(b.digits.clone());
    BigNat { digits: s.to_u32_digits() }
}

/// Relies on `BigUint - BigUint`: the exact difference, which panics when it
/// would be negative.
#[verifier::external_body]
pub(crate) fn nat_sub(a: &BigNat, b: &BigNat) -> (r: BigNat)
    requires
        a@ >= b@,
    ensures
        r@ == a@ - b@,
{
    let s = BigUint::new(a.digits.clone()) - BigUint::new(b.digits.clone());
    BigNat { digits: s.to_u32_digits() }
}

/// Relies on `BigUint * BigUint`: the exact product.
#[verifier::external_body]
pub(crate) fn nat_mul(a: &BigNat, b: &BigNat) -> (r: BigNat)
    ensures
        r@ == a@ * b@,
{
    let s = BigUint::new(a.digits.clone()) * BigUint::new(b.digits.clone());
    BigNat { digits: s.to_u32_digits() }
}

/// Relies on `BigUint / BigUint`: the quotient rounded down; panics on a zero
/// divisor.
#[verifier::external_body]
pub(crate) fn nat_div(a: &BigNat, b: &BigNat) -> (r: BigNat)
    requires
        b@ > 0,
    ensures
        r@ == a@ / b@,
{
    let s = BigUint::new(a.digits.clone()) / BigUint::new(b.digits.clone());
    BigNat { digits: s.to_u32_digits() }
}

/// Relies on `BigUint % BigUint`: the remainder; panics on a zero divisor.
#[verifier::external_body]
pub(crate) fn nat_rem(a: &BigNat, b: &BigNat) -> (r: BigNat)
    requires
        b@ > 0,
    ensures
        r@ == a@ % b@,
{
    let s = BigUint::new(a.digits.clone()) % BigUint::new(b.digits.clone());
    BigNat { digits: s.to_u32_digits() }
}

/// Relies on `Ord::cmp` of `BigUint`: the order of the two values.
#[verifier::external_body]
pub(crate) fn nat_cmp(a: &BigNat, b: &BigNat) -> (r: Ordering)
    ensures
        r is Less <==> a@ < b@,
        r is Equal <==> a@ == b@,
        r is Greater <==> a@ > b@,
{
    BigUint::new(a.digits.clone()).cmp(&BigUint::new(b.digits.clone()))
}

/// Relies on `Zero::is_zero` of `BigUint`: whether the value is zero.
#[verifier::external_body]
pub(crate) fn nat_is_zero(a: &BigNat) -> (r: bool)
    ensures
        r == (a@ == 0),
{
    BigUint::new(a.digits.clone()).is_zero()
}

/// Relies on `BigUint::modpow`: `(base ^ exponent) % modulus`; panics on a
/// zero modulus.
#[verifier::external_body]
pub(crate) fn nat_modpow(base: &BigNat, exponent: &BigNat, modulus: &BigNat) -> (r: BigNat)
    requires
        modulus@ > 0,
    ensures
        r@ == pow(base@ as int, exponent@) % (modulus@ as int),
{
    let b = BigUint::new(base.digits.clone());
    let s = b.modpow(&BigUint::new(exponent.digits.clone()), &BigUint::new(modulus.digits.clone()));
    BigNat { digits: s.to_u32_digits() }
}

/// Relies on `BigInt - BigInt`: the exact difference.
#[verifier::external_body]
pub(crate) fn int_sub(a: &SignedNat, b: &SignedNat) -> (r: SignedNat)
    ensures
        r@ == a@ - b@,
{
    let sa = if a.negative { Sign::Minus } else { Sign::Plus };
    let sb = if b.negative { Sign::Minus } else { Sign::Plus };
    let d = BigInt::new(sa, a.magnitude.digits.clone()) - BigInt::new(sb, b.magnitude.digits.clone());
    let (sign, digits) = d.to_u32_digits();
    SignedNat { negative: sign == Sign::Minus, magnitude: BigNat { digits } }
}

/// Relies on `BigInt * BigInt`: the exact product.
#[verifier::external_body]
pub(crate) fn int_mul(a: &SignedNat, b: &SignedNat) -> (r: SignedNat)
    ensures
        r@ == a@ * b@,
{
    let sa = if a.negative { Sign::Minus } else { Sign::Plus };
    let sb = if b.negative { Sign::Minus } else { Sign::Plus };
    let d = BigInt::new(sa, a.magnitude.digits.clone()) * BigInt::new(sb, b.magnitude.digits.clone());
    let (sign, digits) = d.to_u32_digits();
    SignedNat { negative: sign == Sign::Minus, magnitude: BigNat { digits } }
}

} // verus!
