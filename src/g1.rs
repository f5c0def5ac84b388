//! Points of the curve y^2 = x^3 + 3 in Jacobian coordinates.

use crate::fp::{
    fadd, fmul, fneg, fsub, has_inverse, inv_of, is_inverse, lemma_cong_ops, lemma_cong_reduced,
    lemma_congruent, lemma_field_ops_cong, lemma_fneg_cong, lemma_inverse_of_negation,
    lemma_inverse_of_one, prime, Fp,
};
use vstd::arithmetic::div_mod::{
    lemma_mod_multiples_vanish, lemma_mul_mod_noop_left, lemma_mul_mod_noop_right, lemma_small_mod,
};
use vstd::prelude::*;

verus! {

/// A point as its three coordinates `(X, Y, Z)`.
pub type Jacobian = (nat, nat, nat);

pub open spec fn infinity_spec() -> Jacobian {
    (0, 1, 0)
}

/// Jacobian doubling; a point with `Z == 0` doubles to itself.
pub open spec fn double_spec(p: Jacobian) -> Jacobian {
    if p.2 == 0 {
        p
    } else {
        let (x1, y1, z1) = p;
        let xx = fmul(x1, x1);
        let yy = fmul(y1, y1);
        let yyyy = fmul(yy, yy);
        let t = fadd(x1, yy);
        let h = fsub(fsub(fmul(t, t), xx), yyyy);
        let s = fadd(h, h);
        let m = fadd(fadd(xx, xx), xx);
        let x3 = fsub(fsub(fmul(m, m), s), s);
        let y3 = fsub(fsub(fsub(fsub(fmul(m, fsub(s, x3)), yyyy), yyyy), yyyy), yyyy);
        let yz = fmul(y1, z1);
        (x3, y3, fadd(yz, yz))
    }
}

/// Jacobian addition, with the identity, equal-point and opposite-point
/// cases first.
pub open spec fn add_spec(p: Jacobian, q: Jacobian) -> Jacobian {
    if p.2 == 0 {
        q
    } else if q.2 == 0 {
        p
    } else {
        let (x1, y1, z1) = p;
        let (x2, y2, z2) = q;
        let z1z1 = fmul(z1, z1);
        let z2z2 = fmul(z2, z2);
        let u1 = fmul(x1, z2z2);
        let u2 = fmul(x2, z1z1);
        let s1 = fmul(fmul(y1, z2z2), z2);
        let s2 = fmul(fmul(y2, z1z1), z1);
        if u1 == u2 {
            if s1 == s2 {
                double_spec(p)
            } else {
                infinity_spec()
            }
        } else {
            let h = fsub(u2, u1);
            let h2 = fadd(h, h);
            let i = fmul(h2, h2);
            let j = fmul(h, i);
            let r = fadd(fsub(s2, s1), fsub(s2, s1));
            let v = fmul(u1, i);
            let x3 = fsub(fsub(fsub(fmul(r, r), j), v), v);
            let y3 = fsub(fsub(fmul(r, fsub(v, x3)), fmul(s1, j)), fmul(s1, j));
            let zs = fadd(z1, z2);
            let z3 = fmul(fsub(fsub(fmul(zs, zs), z1z1), z2z2), h);
            (x3, y3, z3)
        }
    }
}

/// The affine coordinates `(X / Z^2, Y / Z^3)`; `(0, 0)` stands for the
/// point at infinity, and for a `Z` without inverse.
pub open spec fn to_affine_spec(p: Jacobian) -> (nat, nat) {
    if p.2 != 0 && has_inverse(p.2) {
        let zi = inv_of(p.2);
        let z2 = fmul(zi, zi);
        let z3 = fmul(z2, zi);
        (fmul(p.0, z2), fmul(p.1, z3))
    } else {
        (0, 0)
    }
}

/// The point at infinity counts as on the curve; any other point is on it
/// when its affine coordinates satisfy `y^2 == x^3 + 3`.
pub open spec fn on_curve_spec(p: Jacobian) -> bool {
    p.2 == 0 || {
        let (x, y) = to_affine_spec(p);
        fmul(y, y) == fadd(fmul(fmul(x, x), x), 3)
    }
}

/// Double-and-add from the least significant bit of `k`: `base` is added
/// into `acc` for each set bit, and doubled after each bit.
pub open spec fn ladder(acc: Jacobian, base: Jacobian, k: nat) -> Jacobian
    decreases k,
{
    if k == 0 {
        acc
    } else {
        let next = if k % 2 == 1 {
            add_spec(acc, base)
        } else {
            acc
        };
        ladder(next, double_spec(base), k / 2)
    }
}

pub open spec fn scalar_mul_spec(p: Jacobian, k: nat) -> Jacobian {
    ladder(infinity_spec(), p, k)
}

/// A point with `Z == 1` has its own `X` and `Y` as affine coordinates.
pub proof fn lemma_affine_of_unit_z(x: nat, y: nat)
    requires
        x < prime(),
        y < prime(),
    ensures
        to_affine_spec((x, y, 1)) == (x, y),
{
    lemma_inverse_of_one();
    vstd::arithmetic::div_mod::lemma_small_mod(1, prime());
    vstd::arithmetic::div_mod::lemma_small_mod(x, prime());
    vstd::arithmetic::div_mod::lemma_small_mod(y, prime());
}

/// Adding a point to itself is doubling it, so both give the same affine
/// point.
pub proof fn lemma_self_add_is_double(p: Jacobian)
    ensures
        add_spec(p, p) == double_spec(p),
        to_affine_spec(double_spec(p)) == to_affine_spec(add_spec(p, p)),
{
}

/// Multiplying by 0 gives the point at infinity, by 1 the point itself, and
/// by 2 the point added to itself.
pub proof fn lemma_scalar_mul_small(p: Jacobian)
    ensures
        scalar_mul_spec(p, 0) == infinity_spec(),
        scalar_mul_spec(p, 1) == p,
        scalar_mul_spec(p, 2) == add_spec(p, p),
{
    reveal_with_fuel(ladder, 3);
    lemma_self_add_is_double(p);
}

/// `((a mod p) * (b mod p) * c) mod p` is `(a * b * c) mod p`.
proof fn lemma_mod_product3(a: int, b: int, c: int)
    ensures
        ((((a % (prime() as int)) * (b % (prime() as int))) % (prime() as int)) * c) % (prime() as int)
            == (a * b * c) % (prime() as int),
{
    let p = prime() as int;
    lemma_mul_mod_noop_left(a, b % p, p);
    lemma_mul_mod_noop_right(a, b, p);
    lemma_mul_mod_noop_left(a * b, c, p);
}

/// Adding a point to the point with the same `X` and `Z` and the negated `Y`
/// gives the point at infinity.
pub proof fn lemma_add_negation(p: Jacobian)
    requires
        p.0 < prime(),
        p.1 < prime(),
        p.2 < prime(),
        p.2 == 0 || has_inverse(p.2),
    ensures
        add_spec(p, (p.0, fneg(p.1), p.2)).2 == 0,
{
    let (x, y, z) = p;
    let m = prime() as int;
    if z != 0 && y != 0 {
        let zz = fmul(z, z);
        let s1 = fmul(fmul(y, zz), z);
        let s2 = fmul(fmul(fneg(y), zz), z);
        if s1 == s2 {
            let yi = y as int;
            let zi = z as int;
            let zzz = zi * zi * zi;
            lemma_small_mod(y, prime());
            lemma_small_mod(fneg(y), prime());
            lemma_mod_product3(yi, zi * zi, zi);
            lemma_mod_product3(fneg(y) as int, zi * zi, zi);
            assert(yi * (zi * zi) * zi == yi * zzz) by (nonlinear_arith)
                requires
                    zzz == zi * zi * zi,
            ;
            assert((m - yi) * (zi * zi) * zi == m * zzz + (-(yi * zzz))) by (nonlinear_arith)
                requires
                    zzz == zi * zi * zi,
            ;
            lemma_mod_multiples_vanish(zzz, -(yi * zzz), m);
            assert((yi * zzz) % m == (-(yi * zzz)) % m);
            lemma_congruent(yi * zzz, -(yi * zzz), m);
            let k = (yi * zzz) / m - (-(yi * zzz)) / m;
            assert(2 * (yi * zzz) == m * k);
            let w = choose|w: nat| is_inverse(z, w);
            let wi = w as int;
            let zw = zi * wi;
            assert(2 * (yi * zi) * (zw * zw) == m * (k * wi * wi)) by (nonlinear_arith)
                requires
                    2 * (yi * zzz) == m * k,
                    zzz == zi * zi * zi,
                    zw == zi * wi,
            ;
            lemma_mod_multiples_vanish(k * wi * wi, 0, m);
            lemma_mul_mod_noop_right(zw, zw, m);
            lemma_mul_mod_noop_left(zw, zw % m, m);
            assert(zw % m == 1);
            lemma_small_mod(1, prime());
            assert((zw % m) * (zw % m) == 1) by (nonlinear_arith)
                requires
                    zw % m == 1,
            ;
            assert(((zw % m) * (zw % m)) % m == 1);
            assert((zw * zw) % m == 1);
            lemma_mul_mod_noop_right(2 * (yi * zi), zw * zw, m);
            assert((2 * (yi * zi)) % m == 0);
            vstd::arithmetic::div_mod::lemma_add_mod_noop(yi * zi, yi * zi, m);
            assert(fadd(fmul(y, z), fmul(y, z)) == 0);
        }
    } else if z != 0 {
        lemma_small_mod(0, prime());
        assert(fneg(y) == 0);
        assert(y * z == 0) by (nonlinear_arith)
            requires
                y == 0,
        ;
        assert(fmul(y, z) == 0);
    }
}

/// Each coordinate is a reduced field value.
pub open spec fn valid(p: Jacobian) -> bool {
    p.0 < prime() && p.1 < prime() && p.2 < prime()
}

/// `p` and `q` are finite and stand for the same affine point.
pub open spec fn same_point(p: Jacobian, q: Jacobian) -> bool {
    &&& p.2 != 0
    &&& q.2 != 0
    &&& fmul(p.0, fmul(q.2, q.2)) == fmul(q.0, fmul(p.2, p.2))
    &&& fmul(fmul(p.1, fmul(q.2, q.2)), q.2) == fmul(fmul(q.1, fmul(p.2, p.2)), p.2)
}

/// Negating both `Y` and `Z` keeps the affine point.
pub proof fn lemma_affine_negated_yz(x: nat, y: nat, z: nat)
    requires
        valid((x, y, z)),
    ensures
        to_affine_spec((x, fneg(y), fneg(z))) == to_affine_spec((x, y, z)),
{
    if z != 0 {
        lemma_fneg_cong(z);
        lemma_fneg_cong(y);
        if has_inverse(z) {
            lemma_inverse_of_negation(z);
            let w = inv_of(z);
            let nw = fneg(w);
            lemma_fneg_cong(w);
            let wi = w as int;
            lemma_field_ops_cong(nw, nw, -wi, -wi);
            lemma_field_ops_cong(w, w, wi, wi);
            assert((-wi) * (-wi) == wi * wi) by (nonlinear_arith);
            let w2 = fmul(w, w);
            lemma_cong_reduced(fmul(nw, nw), w2);
            lemma_field_ops_cong(w2, nw, w2 as int, -wi);
            lemma_field_ops_cong(w2, w, w2 as int, wi);
            lemma_field_ops_cong(fneg(y), fmul(w2, nw), -(y as int), (w2 as int) * (-wi));
            lemma_field_ops_cong(y, fmul(w2, w), y as int, (w2 as int) * wi);
            assert((-(y as int)) * ((w2 as int) * (-wi)) == (y as int) * ((w2 as int) * wi))
                by (nonlinear_arith);
            lemma_cong_reduced(fmul(fneg(y), fmul(w2, nw)), fmul(y, fmul(w2, w)));
        } else if has_inverse(fneg(z)) {
            lemma_inverse_of_negation(fneg(z));
        }
    }
}

/// The order of the operands of an addition does not change the affine
/// result, for points that do not stand for the same affine point.
pub proof fn lemma_add_commutes(p: Jacobian, q: Jacobian)
    requires
        valid(p),
        valid(q),
        !same_point(p, q),
    ensures
        to_affine_spec(add_spec(p, q)) == to_affine_spec(add_spec(q, p)),
{
    let (x1, y1, z1) = p;
    let (x2, y2, z2) = q;
    let z1z1 = fmul(z1, z1);
    let z2z2 = fmul(z2, z2);
    let u1 = fmul(x1, z2z2);
    let u2 = fmul(x2, z1z1);
    let s1 = fmul(fmul(y1, z2z2), z2);
    let s2 = fmul(fmul(y2, z1z1), z1);
    if z1 != 0 && z2 != 0 && u1 != u2 {
        let h = fsub(u2, u1);
        let h2 = fadd(h, h);
        let i = fmul(h2, h2);
        let j = fmul(h, i);
        let ds = fsub(s2, s1);
        let r = fadd(ds, ds);
        let v = fmul(u1, i);
        let rr = fmul(r, r);
        let x3 = fsub(fsub(fsub(rr, j), v), v);
        let vx = fsub(v, x3);
        let s1j = fmul(s1, j);
        let y3 = fsub(fsub(fmul(r, vx), s1j), s1j);
        let zs = fadd(z1, z2);
        let w = fsub(fsub(fmul(zs, zs), z1z1), z2z2);
        let z3 = fmul(w, h);

        let hb = fsub(u1, u2);
        let h2b = fadd(hb, hb);
        let ib = fmul(h2b, h2b);
        let jb = fmul(hb, ib);
        let dsb = fsub(s1, s2);
        let rb = fadd(dsb, dsb);
        let vb = fmul(u2, ib);
        let rrb = fmul(rb, rb);
        let x3b = fsub(fsub(fsub(rrb, jb), vb), vb);
        let vxb = fsub(vb, x3b);
        let s2j = fmul(s2, jb);
        let y3b = fsub(fsub(fmul(rb, vxb), s2j), s2j);
        let zsb = fadd(z2, z1);
        let wb = fsub(fsub(fmul(zsb, zsb), z2z2), z1z1);
        let z3b = fmul(wb, hb);

        assert(add_spec(p, q) == (x3, y3, z3));
        assert(add_spec(q, p) == (x3b, y3b, z3b));

        let cu1 = u1 as int;
        let cu2 = u2 as int;
        let cs1 = s1 as int;
        let cs2 = s2 as int;
        let ca = z1z1 as int;
        let cb = z2z2 as int;
        let cz1 = z1 as int;
        let cz2 = z2 as int;

        let eh = cu2 - cu1;
        let ei = (eh + eh) * (eh + eh);
        let ej = eh * ei;
        let er = (cs2 - cs1) + (cs2 - cs1);
        let ev = cu1 * ei;
        let ex3 = er * er - ej - ev - ev;
        let ey3 = er * (ev - ex3) - cs1 * ej - cs1 * ej;
        let ew = (cz1 + cz2) * (cz1 + cz2) - ca - cb;
        let ez3 = ew * eh;

        let ehb = cu1 - cu2;
        let eib = (ehb + ehb) * (ehb + ehb);
        let ejb = ehb * eib;
        let erb = (cs1 - cs2) + (cs1 - cs2);
        let evb = cu2 * eib;
        let ex3b = erb * erb - ejb - evb - evb;
        let ey3b = erb * (evb - ex3b) - cs2 * ejb - cs2 * ejb;
        let ewb = (cz2 + cz1) * (cz2 + cz1) - cb - ca;
        let ez3b = ewb * ehb;

        lemma_field_ops_cong(u2, u1, cu2, cu1);
        lemma_field_ops_cong(h, h, eh, eh);
        lemma_field_ops_cong(h2, h2, eh + eh, eh + eh);
        lemma_field_ops_cong(h, i, eh, ei);
        lemma_field_ops_cong(s2, s1, cs2, cs1);
        lemma_field_ops_cong(ds, ds, cs2 - cs1, cs2 - cs1);
        lemma_field_ops_cong(u1, i, cu1, ei);
        lemma_field_ops_cong(r, r, er, er);
        lemma_field_ops_cong(rr, j, er * er, ej);
        lemma_field_ops_cong(fsub(rr, j), v, er * er - ej, ev);
        lemma_field_ops_cong(fsub(fsub(rr, j), v), v, er * er - ej - ev, ev);
        lemma_field_ops_cong(v, x3, ev, ex3);
        lemma_field_ops_cong(r, vx, er, ev - ex3);
        lemma_field_ops_cong(s1, j, cs1, ej);
        lemma_field_ops_cong(fmul(r, vx), s1j, er * (ev - ex3), cs1 * ej);
        lemma_field_ops_cong(fsub(fmul(r, vx), s1j), s1j, er * (ev - ex3) - cs1 * ej, cs1 * ej);
        lemma_field_ops_cong(z1, z2, cz1, cz2);
        lemma_field_ops_cong(zs, zs, cz1 + cz2, cz1 + cz2);
        lemma_field_ops_cong(fmul(zs, zs), z1z1, (cz1 + cz2) * (cz1 + cz2), ca);
        lemma_field_ops_cong(fsub(fmul(zs, zs), z1z1), z2z2, (cz1 + cz2) * (cz1 + cz2) - ca, cb);
        lemma_field_ops_cong(w, h, ew, eh);

        lemma_field_ops_cong(u1, u2, cu1, cu2);
        lemma_field_ops_cong(hb, hb, ehb, ehb);
        lemma_field_ops_cong(h2b, h2b, ehb + ehb, ehb + ehb);
        lemma_field_ops_cong(hb, ib, ehb, eib);
        lemma_field_ops_cong(s1, s2, cs1, cs2);
        lemma_field_ops_cong(dsb, dsb, cs1 - cs2, cs1 - cs2);
        lemma_field_ops_cong(u2, ib, cu2, eib);
        lemma_field_ops_cong(rb, rb, erb, erb);
        lemma_field_ops_cong(rrb, jb, erb * erb, ejb);
        lemma_field_ops_cong(fsub(rrb, jb), vb, erb * erb - ejb, evb);
        lemma_field_ops_cong(fsub(fsub(rrb, jb), vb), vb, erb * erb - ejb - evb, evb);
        lemma_field_ops_cong(vb, x3b, evb, ex3b);
        lemma_field_ops_cong(rb, vxb, erb, evb - ex3b);
        lemma_field_ops_cong(s2, jb, cs2, ejb);
        lemma_field_ops_cong(fmul(rb, vxb), s2j, erb * (evb - ex3b), cs2 * ejb);
        lemma_field_ops_cong(fsub(fmul(rb, vxb), s2j), s2j, erb * (evb - ex3b) - cs2 * ejb, cs2 * ejb);
        lemma_field_ops_cong(z2, z1, cz2, cz1);
        lemma_field_ops_cong(zsb, zsb, cz2 + cz1, cz2 + cz1);
        lemma_field_ops_cong(fmul(zsb, zsb), z2z2, (cz2 + cz1) * (cz2 + cz1), cb);
        lemma_field_ops_cong(fsub(fmul(zsb, zsb), z2z2), z1z1, (cz2 + cz1) * (cz2 + cz1) - cb, ca);
        lemma_field_ops_cong(wb, hb, ewb, ehb);

        assert(ehb == -eh && erb == -er);
        assert(eib == ei) by (nonlinear_arith)
            requires
                ehb == -eh,
                ei == (eh + eh) * (eh + eh),
                eib == (ehb + ehb) * (ehb + ehb),
        ;
        assert(ejb == -ej) by (nonlinear_arith)
            requires
                ehb == -eh,
                eib == ei,
                ej == eh * ei,
                ejb == ehb * eib,
        ;
        assert(erb * erb == er * er) by (nonlinear_arith)
            requires
                erb == -er,
        ;
        assert(evb == ev + ej) by (nonlinear_arith)
            requires
                ev == cu1 * ei,
                evb == cu2 * ei,
                ej == eh * ei,
                eh == cu2 - cu1,
        ;
        assert(ex3b == ex3);
        assert(erb * (evb - ex3) == -(er * (ev - ex3)) - er * ej) by (nonlinear_arith)
            requires
                erb == -er,
                evb == ev + ej,
        ;
        assert(cs2 * ejb == -(cs2 * ej)) by (nonlinear_arith)
            requires
                ejb == -ej,
        ;
        assert(er * ej == cs2 * ej + cs2 * ej - cs1 * ej - cs1 * ej) by (nonlinear_arith)
            requires
                er == (cs2 - cs1) + (cs2 - cs1),
        ;
        assert(ey3b == -ey3);
        assert(ewb == ew) by (nonlinear_arith)
            requires
                ew == (cz1 + cz2) * (cz1 + cz2) - ca - cb,
                ewb == (cz2 + cz1) * (cz2 + cz1) - cb - ca,
        ;
        assert(ez3b == -ez3) by (nonlinear_arith)
            requires
                ewb == ew,
                ehb == -eh,
                ez3 == ew * eh,
                ez3b == ewb * ehb,
        ;

        lemma_cong_reduced(x3b, x3);
        lemma_fneg_cong(y3);
        lemma_fneg_cong(z3);
        lemma_cong_ops(0, 0, y3 as int, ey3);
        lemma_cong_ops(0, 0, z3 as int, ez3);
        lemma_cong_reduced(y3b, fneg(y3));
        lemma_cong_reduced(z3b, fneg(z3));
        lemma_affine_negated_yz(x3, y3, z3);
    }
}

/// Doubling a valid point gives a valid point.
pub proof fn lemma_double_valid(p: Jacobian)
    requires
        valid(p),
    ensures
        valid(double_spec(p)),
{
}

/// Multiplying by 3 gives, in affine terms, the point added to itself and then
/// to itself once more, where the point and its double do not stand for the
/// same affine point.
pub proof fn lemma_scalar_mul_three(p: Jacobian)
    requires
        valid(p),
        !same_point(p, double_spec(p)),
    ensures
        to_affine_spec(scalar_mul_spec(p, 3)) == to_affine_spec(add_spec(add_spec(p, p), p)),
{
    reveal_with_fuel(ladder, 3);
    lemma_self_add_is_double(p);
    lemma_double_valid(p);
    assert(scalar_mul_spec(p, 3) == add_spec(p, double_spec(p)));
    lemma_add_commutes(p, double_spec(p));
}

/// A curve point in Jacobian coordinates.
#[derive(Clone, Debug, PartialEq, Eq)]
pub struct G1 {
    pub x: Fp,
    pub y: Fp,
    pub z: Fp,
}

impl View for G1 {
    type V = Jacobian;

    open spec fn view(&self) -> Jacobian {
        (self.x@, self.y@, self.z@)
    }
}

impl G1 {
    /// Each coordinate is a reduced field element.
    pub open spec fn wf(&self) -> bool {
        self.x.wf() && self.y.wf() && self.z.wf()
    }

    /// A copy of the point.
    pub fn copied(&self) -> (r: G1)
        ensures
            r@ == self@,
    {
        G1 { x: self.x.copied(), y: self.y.copied(), z: self.z.copied() }
    }

    /// The identity `(0, 1, 0)`.
    pub fn infinity() -> (r: G1)
        ensures
            r.wf(),
            r@ == infinity_spec(),
    {
        G1 { x: Fp::zero(), y: Fp::one(), z: Fp::zero() }
    }

    pub fn is_infinity(&self) -> (r: bool)
        ensures
            r == (self@.2 == 0),
    {
        self.z.is_zero()
    }

    /// The affine coordinates; `(0, 0)` for the point at infinity.
    pub fn to_affine(&self) -> (r: (Fp, Fp))
        requires
            self.wf(),
        ensures
            r.0.wf(),
            r.1.wf(),
            (r.0@, r.1@) == to_affine_spec(self@),
    {
        if self.is_infinity() {
            return (Fp::zero(), Fp::zero());
        }
        match self.z.inv() {
            Ok(z_inv) => {
                let z2 = z_inv.mul(&z_inv);
                let z3 = z2.mul(&z_inv);
                (self.x.mul(&z2), self.y.mul(&z3))
            },
            Err(_) => (Fp::zero(), Fp::zero()),
        }
    }

    pub fn is_on_curve(&self) -> (r: bool)
        requires
            self.wf(),
        ensures
            r == on_curve_spec(self@),
    {
        if self.is_infinity() {
            return true;
        }
        let (x, y) = self.to_affine();
        let three = Fp::new(crate::bignum::BigNat::from_u64(3));
        proof {
            vstd::arithmetic::div_mod::lemma_small_mod(3, crate::fp::prime());
        }
        y.mul(&y).equals(&x.mul(&x).mul(&x).add(&three))
    }

    /// Doubling in Jacobian coordinates.
    pub fn double(&self) -> (r: G1)
        requires
            self.wf(),
        ensures
            r.wf(),
            r@ == double_spec(self@),
    {
        if self.is_infinity() {
            return self.copied();
        }
        let xx = self.x.mul(&self.x);
        let yy = self.y.mul(&self.y);
        let yyyy = yy.mul(&yy);
        let t = self.x.add(&yy);
        let h = t.mul(&t).sub(&xx).sub(&yyyy);
        let s = h.add(&h);
        let m = xx.add(&xx).add(&xx);
        let x3 = m.mul(&m).sub(&s).sub(&s);
        let y3 = m.mul(&s.sub(&x3)).sub(&yyyy).sub(&yyyy).sub(&yyyy).sub(&yyyy);
        let yz = self.y.mul(&self.z);
        let z3 = yz.add(&yz);
        G1 { x: x3, y: y3, z: z3 }
    }

    /// Addition in Jacobian coordinates.
    pub fn add(&self, other: &G1) -> (r: G1)
        requires
            self.wf(),
            other.wf(),
        ensures
            r.wf(),
            r@ == add_spec(self@, other@),
    {
        if self.is_infinity() {
            return other.copied();
        }
        if other.is_infinity() {
            return self.copied();
        }
        let z1z1 = self.z.mul(&self.z);
        let z2z2 = other.z.mul(&other.z);
        let u1 = self.x.mul(&z2z2);
        let u2 = other.x.mul(&z1z1);
        let s1 = self.y.mul(&z2z2).mul(&other.z);
        let s2 = other.y.mul(&z1z1).mul(&self.z);
        if u1.equals(&u2) {
            if s1.equals(&s2) {
                return self.double();
            } else {
                return G1::infinity();
            }
        }
        let h = u2.sub(&u1);
        let h2 = h.add(&h);
        let i = h2.mul(&h2);
        let j = h.mul(&i);
        let ds = s2.sub(&s1);
        let r = ds.add(&ds);
        let v = u1.mul(&i);
        let x3 = r.mul(&r).sub(&j).sub(&v).sub(&v);
        let s1j = s1.mul(&j);
        let y3 = r.mul(&v.sub(&x3)).sub(&s1j).sub(&s1j);
        let zs = self.z.add(&other.z);
        let z3 = zs.mul(&zs).sub(&z1z1).sub(&z2z2).mul(&h);
        G1 { x: x3, y: y3, z: z3 }
    }

    /// Scalar multiplication by double-and-add from the least significant bit.
    pub fn mul_u128(&self, scalar: u128) -> (r: G1)
        requires
            self.wf(),
        ensures
            r.wf(),
            r@ == scalar_mul_spec(self@, scalar as nat),
    {
        let mut res = G1::infinity();
        let mut base = self.copied();
        let mut k: u128 = scalar;
        while k > 0
            invariant
                res.wf(),
                base.wf(),
                ladder(res@, base@, k as nat) == scalar_mul_spec(self@, scalar as nat),
            decreases k,
        {
            proof {
                assert((k & 1 == 1) == (k % 2 == 1)) by (bit_vector);
                assert(k >> 1 == k / 2) by (bit_vector);
            }
            if k & 1 == 1 {
                res = res.add(&base);
            }
            base = base.double();
            k = k >> 1;
        }
        res
    }
}

} // verus!
