use bn_curve::bignum::BigNat;
use bn_curve::fp::{modulus, Fp, FpError};
use num_bigint::BigUint;
use rand::Rng;

fn fp(n: u64) -> Fp {
    Fp::new(BigNat::from_u64(n))
}

fn modulus_minus(k: u32) -> BigNat {
    let p = BigUint::new(modulus().digits);
    BigNat::from_digits((p - BigUint::from(k)).to_u32_digits())
}

#[test]
fn test_inverse() {
    let mut rng = rand::thread_rng();
    for _ in 0..10 {
        let n: u64 = rng.gen_range(1..1000);
        let a = fp(n);
        let inv = a.inv().unwrap();
        let one = a.mul(&inv);
        assert_eq!(one, Fp::one());
    }
}

#[test]
fn test_fermat_little_theorem() {
    let mut rng = rand::thread_rng();
    for _ in 0..10 {
        let n: u64 = rng.gen_range(1..1000);
        let a = fp(n);
        let exp = modulus_minus(1);
        let res = a.pow(&exp);
        assert_eq!(res, Fp::one());
    }
}

#[test]
fn test_basic_add_sub_mul_neg() {
    let a = fp(10);
    let b = fp(15);

    assert_eq!(a.add(&b), fp(25));
    assert_eq!(b.sub(&a), fp(5));
    assert_eq!(a.mul(&b), fp(150));
    assert_eq!(a.neg(), Fp::new(modulus_minus(10)));
}

#[test]
fn inverse_of_zero_fails() {
    assert_eq!(Fp::zero().inv(), Err(FpError::InverseOfZero));
    assert_eq!(Fp::new(modulus()).inv(), Err(FpError::InverseOfZero));
}

#[test]
fn inverse_of_two_is_half_of_p_plus_one() {
    let p = BigUint::new(modulus().digits);
    let half = (p + BigUint::from(1u32)) / BigUint::from(2u32);
    let expected = Fp::new(BigNat::from_digits(half.to_u32_digits()));
    assert_eq!(fp(2).inv(), Ok(expected));
    assert_eq!(Fp::one().inv(), Ok(Fp::one()));
}

#[test]
fn new_reduces_modulo_the_prime() {
    let p = BigUint::new(modulus().digits);
    let big = BigNat::from_digits((p + BigUint::from(7u32)).to_u32_digits());
    assert_eq!(Fp::new(big), fp(7));
    assert_eq!(Fp::new(modulus()), Fp::zero());
}

#[test]
fn sub_wraps_below_zero() {
    assert_eq!(fp(10).sub(&fp(15)), Fp::new(modulus_minus(5)));
    assert_eq!(fp(7).sub(&fp(7)), Fp::zero());
}

#[test]
fn add_and_mul_wrap_around() {
    let last = Fp::new(modulus_minus(1));
    assert_eq!(last.add(&fp(3)), fp(2));
    assert_eq!(last.mul(&last), Fp::one());
}

#[test]
fn negate_zero_is_zero() {
    assert_eq!(Fp::zero().neg(), Fp::zero());
    assert_eq!(fp(10).add(&fp(10).neg()), Fp::zero());
}

#[test]
fn mul_by_one_keeps_value() {
    assert_eq!(fp(123456789).mul(&Fp::one()), fp(123456789));
}

#[test]
fn power_values() {
    assert_eq!(fp(2).pow(&BigNat::from_u64(10)), fp(1024));
    assert_eq!(fp(3).pow(&BigNat::from_u64(0)), Fp::one());
    assert_eq!(Fp::zero().pow(&BigNat::from_u64(0)), Fp::one());
    assert_eq!(Fp::zero().pow(&BigNat::from_u64(5)), Fp::zero());
}

#[test]
fn from_u64_digits() {
    assert_eq!(BigNat::from_u64(0).digits, Vec::<u32>::new());
    assert_eq!(BigNat::from_u64(4294967296).digits, vec![0, 1]);
    assert_eq!(BigNat::from_u64(7).digits, vec![7]);
}
