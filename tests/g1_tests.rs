use bn_curve::bignum::BigNat;
use bn_curve::fp::Fp;
use bn_curve::g1::G1;

fn fp(n: u64) -> Fp {
    Fp::new(BigNat::from_u64(n))
}

fn point(x: u64, y: u64, z: u64) -> G1 {
    G1 { x: fp(x), y: fp(y), z: fp(z) }
}

#[test]
fn test_infinity() {
    let inf = G1::infinity();
    assert!(inf.is_infinity());
    assert_eq!(inf.to_affine(), (Fp::zero(), Fp::zero()));
}

#[test]
fn test_affine_conversion() {
    let p = G1 { x: fp(3), y: fp(6), z: Fp::one() };
    let (x_aff, y_aff) = p.to_affine();
    assert_eq!(x_aff, fp(3));
    assert_eq!(y_aff, fp(6));
}

#[test]
fn test_on_curve_known_point() {
    let p = G1 { x: fp(1), y: fp(2), z: Fp::one() };
    assert!(p.is_on_curve());
}

#[test]
fn test_double_vs_add() {
    let p = G1 { x: fp(3), y: fp(6), z: Fp::one() };
    let double = p.double();
    let add = p.add(&p);
    assert_eq!(double.to_affine(), add.to_affine());
}

#[test]
fn test_addition_commutative() {
    let p1 = G1 { x: fp(3), y: fp(6), z: Fp::one() };
    let p2 = G1 { x: fp(5), y: fp(1), z: Fp::one() };
    let sum1 = p1.add(&p2);
    let sum2 = p2.add(&p1);
    assert_eq!(sum1.to_affine(), sum2.to_affine());
}

#[test]
fn test_scalar_mul_u128() {
    let p = G1 { x: fp(3), y: fp(6), z: Fp::one() };
    let res0 = p.mul_u128(0);
    assert!(res0.is_infinity());

    let res1 = p.mul_u128(1);
    assert_eq!(res1.to_affine(), p.to_affine());

    let res2 = p.mul_u128(2);
    assert_eq!(res2.to_affine(), p.add(&p).to_affine());

    let res3 = p.mul_u128(3);
    assert_eq!(res3.to_affine(), p.add(&p).add(&p).to_affine());
}

#[test]
fn affine_divides_by_z_powers() {
    // (12, 48, 2) stands for (12 / 4, 48 / 8) = (3, 6).
    let p = point(12, 48, 2);
    assert_eq!(p.to_affine(), (fp(3), fp(6)));
}

#[test]
fn point_off_the_curve_is_rejected() {
    assert!(!point(1, 3, 1).is_on_curve());
    assert!(G1::infinity().is_on_curve());
    assert!(point(4, 16, 2).is_on_curve());
}

#[test]
fn doubling_a_finite_point_is_finite() {
    let p = point(1, 2, 1);
    let d = p.double();
    assert!(!d.is_infinity());
    assert_eq!(p.add(&p), d);
}

#[test]
fn adding_the_negation_gives_infinity() {
    let p = point(1, 2, 1);
    let q = G1 { x: p.x.clone(), y: p.y.neg(), z: p.z.clone() };
    assert!(p.add(&q).is_infinity());
    let flat = point(5, 0, 3);
    let flat_neg = G1 { x: flat.x.clone(), y: flat.y.neg(), z: flat.z.clone() };
    assert!(flat.add(&flat_neg).is_infinity());
}

#[test]
fn infinity_is_neutral() {
    let p = point(1, 2, 1);
    assert_eq!(G1::infinity().add(&p), p);
    assert_eq!(p.add(&G1::infinity()), p);
    assert_eq!(G1::infinity().double(), G1::infinity());
}

#[test]
fn double_keeps_four_fold_yyyy_term() {
    // X1 = 1, Y1 = 2, Z1 = 1: XX = 1, YY = 4, YYYY = 16, S = 2 * (25 - 1 - 16) = 16,
    // M = 3, X3 = 9 - 32, Y3 = 3 * (16 - X3) - 64, Z3 = 4.
    let d = point(1, 2, 1).double();
    let x3 = fp(9).sub(&fp(32));
    let y3 = fp(3).mul(&fp(16).sub(&x3)).sub(&fp(64));
    assert_eq!(d, G1 { x: x3, y: y3, z: fp(4) });
}

#[test]
fn scalar_mul_on_curve_point() {
    let p = point(1, 2, 1);
    assert_eq!(p.mul_u128(1), p);
    assert_eq!(p.mul_u128(2), p.double());
    assert_eq!(p.mul_u128(4).to_affine(), p.double().double().to_affine());
    assert_eq!(p.mul_u128(5).to_affine(), p.double().double().add(&p).to_affine());
    assert!(!p.mul_u128(u128::MAX).is_infinity());
}
