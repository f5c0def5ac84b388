//! Elements of the prime field of the curve.

use crate::bignum::{
    nat_add, nat_cmp, nat_div, nat_is_zero, nat_modpow, nat_mul, nat_rem, nat_sub, int_mul,
    int_sub, BigNat,
};
use std::cmp::Ordering;
use vstd::arithmetic::div_mod::{
    lemma_fundamental_div_mod, lemma_mod_add_multiples_vanish, lemma_mod_multiples_vanish,
    lemma_mul_mod_noop_left, lemma_mul_mod_noop_right, lemma_small_mod,
};
use vstd::arithmetic::power::pow;
use vstd::prelude::*;

verus! {

/// The field's prime modulus,
/// 21888242871839275222246405745257275088548364400416034343698204186575808495617,
/// written in base 2^32.
pub open spec fn prime() -> nat {
    4026531841 + 0x1_0000_0000 * (1138881939 + 0x1_0000_0000 * (2042196113 + 0x1_0000_0000 * (
    674490440 + 0x1_0000_0000 * (2172737629 + 0x1_0000_0000 * (3092268470 + 0x1_0000_0000 * (
    3778125865 + 0x1_0000_0000 * 811880050))))))
}

pub open spec fn fadd(a: nat, b: nat) -> nat {
    (a + b) % prime()
}

pub open spec fn fsub(a: nat, b: nat) -> nat {
    ((a - b) % (prime() as int)) as nat
}

pub open spec fn fmul(a: nat, b: nat) -> nat {
    (a * b) % prime()
}

pub open spec fn fneg(a: nat) -> nat {
    if a == 0 {
        0
    } else {
        (prime() - a) as nat
    }
}

/// `y` is the reduced multiplicative inverse of `a`.
pub open spec fn is_inverse(a: nat, y: nat) -> bool {
    y < prime() && (a * y) % prime() == 1
}

pub open spec fn has_inverse(a: nat) -> bool {
    exists|y: nat| is_inverse(a, y)
}

/// The inverse of `a`, where it has one.
pub open spec fn inv_of(a: nat) -> nat {
    choose|y: nat| is_inverse(a, y)
}

pub open spec fn abs(x: int) -> int {
    if x < 0 {
        -x
    } else {
        x
    }
}

/// The one failure of field arithmetic.
#[derive(Clone, Copy, Debug, PartialEq, Eq)]
pub enum FpError {
    /// The value has no multiplicative inverse; zero is the one such value.
    InverseOfZero,
}

/// The prime modulus as a number.
pub fn modulus() -> (r: BigNat)
    ensures
        r@ == prime(),
{
    let mut d: Vec<u32> = Vec::new();
    d.push(4026531841);
    d.push(1138881939);
    d.push(2042196113);
    d.push(674490440);
    d.push(2172737629);
    d.push(3092268470);
    d.push(3778125865);
    d.push(811880050);
    proof {
        reveal_with_fuel(crate::bignum::digits_value, 9);
    }
    BigNat::from_digits(d)
}

/// A residue modulo `prime()`, held reduced.
#[derive(Clone, Debug, PartialEq, Eq)]
pub struct Fp {
    pub n: BigNat,
}

impl View for Fp {
    type V = nat;

    open spec fn view(&self) -> nat {
        self.n@
    }
}

proof fn lemma_no_inverse_of_zero()
    ensures
        !has_inverse(0),
{
    assert forall|y: nat| !is_inverse(0, y) by {
        assert(0 * y == 0) by (nonlinear_arith);
    }
}

/// An inverse, where there is one, is unique.
pub proof fn lemma_inverse_unique(a: nat, y1: nat, y2: nat)
    requires
        is_inverse(a, y1),
        is_inverse(a, y2),
    ensures
        y1 == y2,
{
    let p = prime() as int;
    lemma_mul_mod_noop_right(y1 as int, (a * y2) as int, p);
    lemma_mul_mod_noop_left((y1 * a) as int, y2 as int, p);
    assert(y1 * (a * y2) == (y1 * a) * y2) by (nonlinear_arith);
    assert((y1 * a) == (a * y1)) by (nonlinear_arith);
    lemma_small_mod(y1, prime());
    lemma_small_mod(y2, prime());
}

/// `x == y (mod p)` stated through quotients.
pub proof fn lemma_congruent(x: int, y: int, p: int)
    requires
        p > 0,
        x % p == y % p,
    ensures
        x - y == p * (x / p - y / p),
{
    lemma_fundamental_div_mod(x, p);
    lemma_fundamental_div_mod(y, p);
    assert(p * (x / p - y / p) == p * (x / p) - p * (y / p)) by (nonlinear_arith);
}

/// One step of the extended Euclidean algorithm keeps the coefficient of the
/// new remainder in step.
proof fn lemma_step_congruence(a0: int, x0: int, x1: int, a: int, m: int, q: int, r: int)
    requires
        (x1 * a0) % (prime() as int) == a % (prime() as int),
        (x0 * a0) % (prime() as int) == m % (prime() as int),
        a == q * m + r,
    ensures
        ((x1 - q * x0) * a0) % (prime() as int) == r % (prime() as int),
{
    let p = prime() as int;
    lemma_congruent(x1 * a0, a, p);
    lemma_congruent(x0 * a0, m, p);
    let k1 = (x1 * a0) / p - a / p;
    let k2 = (x0 * a0) / p - m / p;
    assert((x1 - q * x0) * a0 == x1 * a0 - q * (x0 * a0)) by (nonlinear_arith);
    assert(q * (m + p * k2) == q * m + p * (q * k2)) by (nonlinear_arith);
    assert((x1 - q * x0) * a0 == p * (k1 - q * k2) + r) by (nonlinear_arith)
        requires
            (x1 - q * x0) * a0 == x1 * a0 - q * (x0 * a0),
            x1 * a0 == a + p * k1,
            x0 * a0 == m + p * k2,
            a == q * m + r,
            q * (m + p * k2) == q * m + p * (q * k2);
    lemma_mod_multiples_vanish(k1 - q * k2, r, p);
}

/// One step of the extended Euclidean algorithm keeps the coefficients'
/// magnitudes bound by the modulus.
proof fn lemma_step_bound(x0: int, x1: int, a: int, m: int, q: int, r: int)
    requires
        x0 * x1 <= 0,
        abs(x1) * m + abs(x0) * a == prime(),
        a == q * m + r,
        q >= 0,
        m > 0,
        r >= 0,
    ensures
        x0 * (x1 - q * x0) <= 0,
        abs(x0) * r + abs(x1 - q * x0) * m == prime(),
        abs(x1 - q * x0) <= prime(),
{
    let n = x1 - q * x0;
    assert(abs(n) == abs(x1) + q * abs(x0)) by (nonlinear_arith)
        requires
            x0 * x1 <= 0,
            q >= 0,
            n == x1 - q * x0,
    {
        if x0 >= 0 && x1 <= 0 {
            assert(q * x0 >= 0);
        } else if x0 <= 0 && x1 >= 0 {
            assert(q * x0 <= 0);
        }
    }
    assert(x0 * n <= 0) by (nonlinear_arith)
        requires
            x0 * x1 <= 0,
            q >= 0,
            n == x1 - q * x0,
    {
        assert(x0 * n == x0 * x1 - q * (x0 * x0));
        assert(x0 * x0 >= 0);
        assert(q * (x0 * x0) >= 0);
    }
    assert(abs(x0) * r + abs(n) * m == abs(x1) * m + abs(x0) * a) by (nonlinear_arith)
        requires
            abs(n) == abs(x1) + q * abs(x0),
            a == q * m + r,
    ;
    assert(abs(n) <= abs(n) * m) by (nonlinear_arith)
        requires
            m > 0,
            abs(n) >= 0,
    ;
    assert(abs(x0) * r >= 0) by (nonlinear_arith)
        requires
            r >= 0,
    ;
}

/// Where the remainder reaches zero before the other term reaches one, the
/// start value has no inverse.
proof fn lemma_stuck_without_inverse(a0: nat, x0: int, a: int)
    requires
        (x0 * a0) % (prime() as int) == 0,
        abs(x0) * a == prime(),
        abs(x0) <= prime(),
        a != 1,
    ensures
        !has_inverse(a0),
{
    let p = prime() as int;
    if has_inverse(a0) {
        let y = choose|y: nat| is_inverse(a0, y);
        lemma_mul_mod_noop_right(x0, (a0 * y) as int, p);
        lemma_mul_mod_noop_left(x0 * a0, y as int, p);
        assert(x0 * (a0 * y) == (x0 * a0) * y) by (nonlinear_arith);
        assert(x0 % p == 0);
        lemma_fundamental_div_mod(x0, p);
        let k = x0 / p;
        assert(x0 == p * k);
        assert(k == 1 || k == -1) by (nonlinear_arith)
            requires
                x0 == p * k,
                abs(x0) <= p,
                abs(x0) * a == p,
                p > 0,
        {
            if k == 0 {
                assert(x0 == 0);
            } else if k > 1 {
                assert(p * k > p);
            } else if k < -1 {
                assert(p * k < -p);
            }
        }
        assert(abs(x0) == p);
        assert(p * a == p);
        assert(a == 1) by (nonlinear_arith)
            requires
                p * a == p,
                p > 0,
        ;
    }
}

/// Adding an element's negation gives zero.
pub proof fn lemma_add_negate(a: nat)
    requires
        a < prime(),
    ensures
        fadd(a, fneg(a)) == 0,
{
    vstd::arithmetic::div_mod::lemma_mod_self_0(prime() as int);
    if a == 0 {
        assert(fadd(0, 0) == 0nat % prime());
    } else {
        assert(a + fneg(a) == prime());
    }
}

/// Multiplying by one leaves an element unchanged.
pub proof fn lemma_mul_one(a: nat)
    requires
        a < prime(),
    ensures
        fmul(a, 1) == a,
{
    lemma_small_mod(a, prime());
}

/// An element with an inverse, times that inverse, is one.
pub proof fn lemma_mul_inverse(a: nat)
    requires
        a < prime(),
        has_inverse(a),
    ensures
        fmul(a, inv_of(a)) == 1,
{
}

/// One is its own inverse.
pub proof fn lemma_inverse_of_one()
    ensures
        has_inverse(1),
        inv_of(1) == 1,
{
    lemma_small_mod(1, prime());
    assert(is_inverse(1, 1));
    lemma_inverse_unique(1, 1, inv_of(1));
}

/// `a` and `b` are congruent modulo the prime.
pub open spec fn cong(a: int, b: int) -> bool {
    a % (prime() as int) == b % (prime() as int)
}

proof fn lemma_cong_from_multiple(a: int, b: int, k: int)
    requires
        a == b + (prime() as int) * k,
    ensures
        cong(a, b),
{
    lemma_mod_multiples_vanish(k, b, prime() as int);
}

/// Congruence is kept by `+`, `-` and `*`.
pub proof fn lemma_cong_ops(a: int, b: int, c: int, d: int)
    requires
        cong(a, b),
        cong(c, d),
    ensures
        cong(a + c, b + d),
        cong(a - c, b - d),
        cong(a * c, b * d),
{
    let m = prime() as int;
    lemma_congruent(a, b, m);
    lemma_congruent(c, d, m);
    let k1 = a / m - b / m;
    let k2 = c / m - d / m;
    assert(m * (k1 + k2) == m * k1 + m * k2 && m * (k1 - k2) == m * k1 - m * k2)
        by (nonlinear_arith);
    lemma_cong_from_multiple(a + c, b + d, k1 + k2);
    lemma_cong_from_multiple(a - c, b - d, k1 - k2);
    assert(a * c == b * d + m * (k1 * d + b * k2 + m * k1 * k2)) by (nonlinear_arith)
        requires
            a == b + m * k1,
            c == d + m * k2,
    ;
    lemma_cong_from_multiple(a * c, b * d, k1 * d + b * k2 + m * k1 * k2);
}

/// Each field operation is congruent to the integer operation on any values
/// congruent to its arguments.
pub proof fn lemma_field_ops_cong(a: nat, b: nat, x: int, y: int)
    requires
        cong(a as int, x),
        cong(b as int, y),
    ensures
        cong(fadd(a, b) as int, x + y),
        cong(fsub(a, b) as int, x - y),
        cong(fmul(a, b) as int, x * y),
{
    let m = prime() as int;
    lemma_cong_ops(a as int, x, b as int, y);
    vstd::arithmetic::div_mod::lemma_mod_twice(a + b as int, m);
    vstd::arithmetic::div_mod::lemma_mod_twice(a as int - b as int, m);
    vstd::arithmetic::div_mod::lemma_mod_twice((a * b) as int, m);
}

/// Reduced values that are congruent are equal.
pub proof fn lemma_cong_reduced(a: nat, b: nat)
    requires
        a < prime(),
        b < prime(),
        cong(a as int, b as int),
    ensures
        a == b,
{
    lemma_small_mod(a, prime());
    lemma_small_mod(b, prime());
}

/// The negation of a reduced value is congruent to its integer negation.
pub proof fn lemma_fneg_cong(a: nat)
    requires
        a < prime(),
    ensures
        cong(fneg(a) as int, -(a as int)),
        fneg(a) < prime(),
        fneg(fneg(a)) == a,
{
    if a != 0 {
        lemma_cong_from_multiple(fneg(a) as int, -(a as int), 1);
    }
}

/// The negation of an invertible value is invertible, with the negated
/// inverse.
pub proof fn lemma_inverse_of_negation(a: nat)
    requires
        a < prime(),
        has_inverse(a),
    ensures
        has_inverse(fneg(a)),
        inv_of(fneg(a)) == fneg(inv_of(a)),
{
    let w = inv_of(a);
    lemma_fneg_cong(a);
    lemma_fneg_cong(w);
    lemma_cong_ops(fneg(a) as int, -(a as int), fneg(w) as int, -(w as int));
    assert(-(a as int) * -(w as int) == (a * w) as int) by (nonlinear_arith);
    lemma_small_mod(1, prime());
    assert(((fneg(a) * fneg(w)) as int) % (prime() as int) == 1);
    assert(is_inverse(fneg(a), fneg(w)));
    lemma_inverse_unique(fneg(a), fneg(w), inv_of(fneg(a)));
}

impl Fp {
    /// The value lies in `[0, prime())`.
    pub open spec fn wf(&self) -> bool {
        self@ < prime()
    }

    /// `n` reduced modulo the prime.
    pub fn new(n: BigNat) -> (r: Fp)
        ensures
            r.wf(),
            r@ == n@ % prime(),
    {
        let p = modulus();
        Fp { n: nat_rem(&n, &p) }
    }

    pub fn zero() -> (r: Fp)
        ensures
            r.wf(),
            r@ == 0,
    {
        Fp { n: BigNat::zero() }
    }

    pub fn one() -> (r: Fp)
        ensures
            r.wf(),
            r@ == 1,
    {
        Fp { n: BigNat::from_u64(1) }
    }

    /// A copy of the value.
    pub fn copied(&self) -> (r: Fp)
        ensures
            r@ == self@,
    {
        Fp { n: self.n.copied() }
    }

    /// Whether the two elements are equal.
    pub fn equals(&self, other: &Fp) -> (r: bool)
        ensures
            r == (self@ == other@),
    {
        match nat_cmp(&self.n, &other.n) {
            Ordering::Equal => true,
            _ => false,
        }
    }

    pub fn is_zero(&self) -> (r: bool)
        ensures
            r == (self@ == 0),
    {
        nat_is_zero(&self.n)
    }

    pub fn add(&self, rhs: &Fp) -> (r: Fp)
        ensures
            r.wf(),
            r@ == fadd(self@, rhs@),
    {
        Fp::new(nat_add(&self.n, &rhs.n))
    }

    /// The difference; where the left value is the smaller, the modulus is
    /// added to it first, so that no intermediate goes below zero.
    pub fn sub(&self, rhs: &Fp) -> (r: Fp)
        requires
            self.wf(),
            rhs.wf(),
        ensures
            r.wf(),
            r@ == fsub(self@, rhs@),
    {
        let res = match nat_cmp(&self.n, &rhs.n) {
            Ordering::Less => {
                let p = modulus();
                let t = nat_add(&self.n, &p);
                nat_sub(&t, &rhs.n)
            },
            _ => nat_sub(&self.n, &rhs.n),
        };
        proof {
            let d = self@ as int - rhs@ as int;
            if self@ < rhs@ {
                lemma_mod_add_multiples_vanish(d, prime() as int);
            }
        }
        Fp::new(res)
    }

    pub fn mul(&self, rhs: &Fp) -> (r: Fp)
        ensures
            r.wf(),
            r@ == fmul(self@, rhs@),
    {
        Fp::new(nat_mul(&self.n, &rhs.n))
    }

    pub fn neg(&self) -> (r: Fp)
        requires
            self.wf(),
        ensures
            r.wf(),
            r@ == fneg(self@),
    {
        if nat_is_zero(&self.n) {
            Fp::zero()
        } else {
            let p = modulus();
            let d = nat_sub(&p, &self.n);
            proof {
                lemma_small_mod(d@, prime());
            }
            Fp::new(d)
        }
    }

    /// The multiplicative inverse, by the extended Euclidean algorithm run on
    /// the value and the modulus. Zero has none.
    pub fn inv(&self) -> (r: Result<Fp, FpError>)
        requires
            self.wf(),
        ensures
            self@ == 0 ==> r is Err,
            match r {
                Ok(v) => has_inverse(self@) && v.wf() && v@ == inv_of(self@),
                Err(e) => !has_inverse(self@) && e == FpError::InverseOfZero,
            },
    {
        if nat_is_zero(&self.n) {
            proof {
                lemma_no_inverse_of_zero();
            }
            return Err(FpError::InverseOfZero);
        }
        let ghost a0: int = self@ as int;
        let ghost p: int = prime() as int;
        let one = BigNat::from_u64(1);
        let mut a = self.n.copied();
        let mut m = modulus();
        let mut x0 = BigNat::zero().as_signed();
        let mut x1 = BigNat::from_u64(1).as_signed();
        proof {
            vstd::arithmetic::div_mod::lemma_mod_self_0(p);
            assert(abs(x1@) == 1 && abs(x0@) == 0);
            assert(abs(x1@) * m@ + abs(x0@) * a@ == prime());
        }
        loop
            invariant
                p == prime() as int,
                a0 == self@ as int,
                one@ == 1,
                a@ > 0,
                (x1@ * a0) % p == (a@ as int) % p,
                (x0@ * a0) % p == (m@ as int) % p,
                x0@ * x1@ <= 0,
                abs(x1@) * m@ + abs(x0@) * a@ == prime(),
                abs(x0@) <= prime(),
                abs(x1@) <= prime(),
            ensures
                a@ == 1,
            decreases m@,
        {
            match nat_cmp(&a, &one) {
                Ordering::Equal => break,
                _ => {},
            }
            if nat_is_zero(&m) {
                proof {
                    assert(0int % p == 0);
                    lemma_stuck_without_inverse(self@, x0@, a@ as int);
                }
                return Err(FpError::InverseOfZero);
            }
            let q = nat_div(&a, &m);
            let r = nat_rem(&a, &m);
            let ghost qv: int = q@ as int;
            let qx0 = int_mul(&q.as_signed(), &x0);
            let t = int_sub(&x1, &qx0);
            proof {
                lemma_fundamental_div_mod(a@ as int, m@ as int);
                lemma_step_congruence(a0, x0@, x1@, a@ as int, m@ as int, qv, r@ as int);
                lemma_step_bound(x0@, x1@, a@ as int, m@ as int, qv, r@ as int);
            }
            a = m;
            m = r;
            x1 = x0;
            x0 = t;
        }
        let ghost c: int = if x1.negative { 1 } else { 0 };
        let ghost x: int = x1@;
        let val = if x1.negative {
            let pm = modulus();
            nat_sub(&pm, &x1.magnitude)
        } else {
            x1.magnitude
        };
        let res = Fp::new(val);
        proof {
            assert(val@ == x + p * c);
            lemma_mul_mod_noop_right(a0, val@ as int, p);
            assert(a0 * (x + p * c) == p * (a0 * c) + a0 * x) by (nonlinear_arith);
            lemma_mod_multiples_vanish(a0 * c, a0 * x, p);
            assert(a0 * x == x * a0) by (nonlinear_arith);
            lemma_small_mod(1, prime());
            assert((a0 * x) % p == 1);
            assert((a0 * (val@ as int)) % p == 1);
            assert((a0 * ((val@ as int) % p)) % p == 1);
            assert(res@ as int == (val@ as int) % p);
            assert(is_inverse(self@, res@));
            let y = choose|y: nat| is_inverse(self@, y);
            lemma_inverse_unique(self@, res@, y);
        }
        Ok(res)
    }

    /// `self` raised to `exp`, by repeated squaring modulo the prime.
    pub fn pow(&self, exp: &BigNat) -> (r: Fp)
        ensures
            r.wf(),
            r@ as int == pow(self@ as int, exp@) % (prime() as int),
    {
        let p = modulus();
        let v = nat_modpow(&self.n, exp, &p);
        proof {
            lemma_small_mod(v@, prime());
        }
        Fp::new(v)
    }
}

} // verus!
