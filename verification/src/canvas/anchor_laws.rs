//! How closely a zoom keeps what is under the pointer under it.

use vstd::prelude::*;

use crate::canvas::layer::LayerState;
use crate::geometry::{Affine, Point};
use crate::number::scalar::Scalar;

verus! {

/// A result off by a part `u` of itself and by `t`, times another factor.
proof fn lemma_scaled_off(c: real, got: real, exact: real, u: real, t: real)
    requires
        crate::number::error::size(got - exact) <= u * crate::number::error::size(exact) + t,
        0real <= u,
        0real <= t,
    ensures
        crate::number::error::size(c * got - c * exact)
            <= u * crate::number::error::size(c * exact) + t * crate::number::error::size(c),
{
    crate::number::error::lemma_size_times(c, got - exact);
    crate::number::error::lemma_size_times(c, exact);
    assert(c * (got - exact) == c * got - c * exact) by (nonlinear_arith);
    let s = crate::number::error::size(c);
    let d = crate::number::error::size(got - exact);
    let x = crate::number::error::size(exact);
    assert(s * d <= u * (s * x) + t * s) by (nonlinear_arith)
        requires
            d <= u * x + t,
            s >= 0real,
    ;
}

proof fn lemma_unscale(k: real, det: real, ad: real, u: real)
    requires
        0real < u,
        u <= 1real / 100real,
        crate::number::error::size(k * det - 1real) <= 2real * u,
        crate::number::error::size(det - ad) <= 2real * u * crate::number::error::size(ad),
    ensures
        crate::number::error::size(k * ad - 1real) <= 6real * u,
{
    assert(crate::number::error::size(k * ad - 1real) <= 6real * u) by (nonlinear_arith)
        requires
            0real < u,
            u <= 1real / 100real,
            crate::number::error::size(k * det - 1real) <= 2real * u,
            crate::number::error::size(det - ad) <= 2real * u * crate::number::error::size(ad),
            crate::number::error::size(k * det - 1real) == (if k * det - 1real < 0real {
                -(k * det - 1real)
            } else {
                k * det - 1real
            }),
            crate::number::error::size(k * ad - 1real) == (if k * ad - 1real < 0real {
                -(k * ad - 1real)
            } else {
                k * ad - 1real
            }),
            crate::number::error::size(det - ad) == (if det - ad < 0real {
                -(det - ad)
            } else {
                det - ad
            }),
            crate::number::error::size(ad) == (if ad < 0real {
                -ad
            } else {
                ad
            }),
    ;
}

/// Whether a scale is moderate: no more than two to the power 18, nor less than its inverse.
pub open spec fn steady(x: real) -> bool {
    1real <= 262144real * crate::number::error::size(x) && crate::number::error::size(x)
        <= 262144real
}

/// Whether `u` and `t` are small enough for what follows.
spec fn fine(u: real, t: real) -> bool {
    &&& 0real < t
    &&& t * 1208925819614629174706176real <= u
    &&& u <= 1real / 1000real
}

/// The inverse of the determinant of a straight view with scales `a` and `d`.
proof fn lemma_scale_real(a: real, d: real, det: real, k: real, u: real, t: real)
    requires
        fine(u, t),
        steady(a),
        steady(d),
        crate::number::error::size(det - a * d) <= u * crate::number::error::size(a * d) + t,
        crate::number::error::size(k * det - 1real) <= u + t * crate::number::error::size(det),
    ensures
        crate::number::error::size(k * (a * d) - 1real) <= 6real * u,
        t <= u * crate::number::error::size(k * d),
        crate::number::error::size(k * d) <= 524288real,
        crate::number::error::size(a * k) <= 524288real,
        crate::number::error::size(k) <= 137438953472real,
{
    let s = 262144real;
    let ad = a * d;
    crate::number::error::lemma_size_times(a, d);
    assert(crate::number::error::size(a) * crate::number::error::size(d) <= s * s && 1real
        <= s * s * (crate::number::error::size(a) * crate::number::error::size(d)))
        by (nonlinear_arith)
        requires
            1real <= s * crate::number::error::size(a),
            crate::number::error::size(a) <= s,
            1real <= s * crate::number::error::size(d),
            crate::number::error::size(d) <= s,
            s == 262144real,
    ;
    assert(s * s == 68719476736real) by (nonlinear_arith)
        requires
            s == 262144real,
    ;
    // The determinant, and its inverse.
    assert(t <= u * crate::number::error::size(ad)) by (nonlinear_arith)
        requires
            t * 1208925819614629174706176real <= u,
            1real <= 68719476736real * crate::number::error::size(ad),
            0real < t,
    ;
    assert(crate::number::error::size(det - ad)
        <= 2real * u * crate::number::error::size(ad)) by (nonlinear_arith)
        requires
            crate::number::error::size(det - ad) <= u * crate::number::error::size(ad) + t,
            t <= u * crate::number::error::size(ad),
    ;
    assert(crate::number::error::size(det) <= 2real * crate::number::error::size(ad))
        by (nonlinear_arith)
        requires
            crate::number::error::size(det)
                <= crate::number::error::size(ad) + crate::number::error::size(det - ad),
            crate::number::error::size(det - ad) <= 2real * u * crate::number::error::size(ad),
            u <= 1real / 1000real,
            crate::number::error::size(ad) >= 0real,
    ;
    assert(t * crate::number::error::size(det) <= u) by (nonlinear_arith)
        requires
            t * 1208925819614629174706176real <= u,
            crate::number::error::size(det) <= 2real * 68719476736real,
            crate::number::error::size(det) >= 0real,
            0real < t,
    ;
    lemma_unscale(k, det, ad, u);
    let kappa = k * ad;
    assert(1real / 2real <= crate::number::error::size(kappa) <= 2real);
    // The scale of the inverse.
    let kd = k * d;
    assert(a * kd == kappa) by (nonlinear_arith)
        requires
            kappa == k * ad,
            ad == a * d,
            kd == k * d,
    ;
    crate::number::error::lemma_size_times(a, kd);
    assert(t <= u * crate::number::error::size(kd) && crate::number::error::size(kd)
        <= 2real * s) by (nonlinear_arith)
        requires
            crate::number::error::size(a) * crate::number::error::size(kd)
                == crate::number::error::size(kappa),
            1real / 2real <= crate::number::error::size(kappa),
            crate::number::error::size(kappa) <= 2real,
            crate::number::error::size(a) <= s,
            1real <= s * crate::number::error::size(a),
            s == 262144real,
            t * 1208925819614629174706176real <= u,
            0real < t,
            crate::number::error::size(kd) >= 0real,
    ;
    let ak = a * k;
    assert(ak * d == kappa) by (nonlinear_arith)
        requires
            kappa == k * ad,
            ad == a * d,
            ak == a * k,
    ;
    crate::number::error::lemma_size_times(ak, d);
    assert(crate::number::error::size(ak) <= 2real * s) by (nonlinear_arith)
        requires
            crate::number::error::size(ak) * crate::number::error::size(d) <= 2real,
            1real <= s * crate::number::error::size(d),
            s == 262144real,
            crate::number::error::size(ak) >= 0real,
    ;
    crate::number::error::lemma_size_times(a, k);
    assert(crate::number::error::size(k) <= 137438953472real) by (nonlinear_arith)
        requires
            crate::number::error::size(a) * crate::number::error::size(k) <= 2real * s,
            1real <= s * crate::number::error::size(a),
            s == 262144real,
            crate::number::error::size(k) >= 0real,
    ;
}

/// How far from exactly under the pointer the point is that a straight view's inverse gives.
///
/// Along one axis: `a` and `d` are the scales of the view, along this axis and the other,
/// `e` its displacement and `o` the pointer's coordinate. `det` is `a * d`, `k` its inverse,
/// `ia` is `k * d`, `g` is `d * e`, `ie` is `-(k * g)`, `m` is `ia * o`, `p` is `m + ie`,
/// each off by a part `u` of itself and by `t`.
proof fn lemma_inverse_real(
    a: real,
    d: real,
    e: real,
    o: real,
    det: real,
    k: real,
    ia: real,
    g: real,
    ie: real,
    m: real,
    p: real,
    u: real,
    t: real,
)
    requires
        fine(u, t),
        steady(a),
        steady(d),
        crate::number::error::size(det - a * d) <= u * crate::number::error::size(a * d) + t,
        crate::number::error::size(k * det - 1real) <= u + t * crate::number::error::size(det),
        crate::number::error::size(ia - k * d) <= u * crate::number::error::size(k * d) + t,
        crate::number::error::size(g - d * e) <= u * crate::number::error::size(d * e) + t,
        crate::number::error::size(ie + k * g) <= u * crate::number::error::size(k * g) + t,
        crate::number::error::size(m - ia * o) <= u * crate::number::error::size(ia * o) + t,
        crate::number::error::size(p - (m + ie)) <= u * crate::number::error::size(m + ie) + t,
    ensures
        crate::number::error::size(a * p + e - o)
            <= 14real * (u * (crate::number::error::size(o) + crate::number::error::size(e)))
            + 10000000real * t,
{
    let s = 262144real;
    let ue = u * crate::number::error::size(e);
    let uo = u * crate::number::error::size(o);
    let so = crate::number::error::size(o) + crate::number::error::size(e);
    let us = u * so;
    assert(us == uo + ue) by (nonlinear_arith)
        requires
            us == u * so,
            uo == u * crate::number::error::size(o),
            ue == u * crate::number::error::size(e),
            so == crate::number::error::size(o) + crate::number::error::size(e),
    ;

    let ad = a * d;
    lemma_scale_real(a, d, det, k, u, t);
    let kappa = k * ad;
    assert(1real / 2real <= crate::number::error::size(kappa) <= 2real);
    // The scale of the inverse.
    let kd = k * d;
    assert(a * kd == kappa) by (nonlinear_arith)
        requires
            kappa == k * ad,
            ad == a * d,
            kd == k * d,
    ;
    lemma_scaled_off(a, ia, kd, u, t);
    let alpha = a * ia;
    assert(t * crate::number::error::size(a) <= u) by (nonlinear_arith)
        requires
            t * 1208925819614629174706176real <= u,
            crate::number::error::size(a) <= 262144real,
            crate::number::error::size(a) >= 0real,
            0real < t,
    ;
    assert(u * crate::number::error::size(kappa) <= 2real * u) by (nonlinear_arith)
        requires
            crate::number::error::size(kappa) <= 2real,
            0real < u,
    ;
    assert(crate::number::error::size(alpha - 1real) <= 9real * u);
    assert(crate::number::error::size(alpha) <= 2real);
    let ak = a * k;
    assert(ak * d == kappa) by (nonlinear_arith)
        requires
            kappa == k * ad,
            ad == a * d,
            ak == a * k,
    ;
    // The displacement of the inverse.
    let de = d * e;
    let ke = kappa * e;
    assert(ak * de == ke) by (nonlinear_arith)
        requires
            ak * d == kappa,
            de == d * e,
            ke == kappa * e,
    ;
    lemma_scaled_off(ak, g, de, u, t);
    crate::number::error::lemma_size_times(kappa, e);
    assert(crate::number::error::size(ke) <= 2real * crate::number::error::size(e))
        by (nonlinear_arith)
        requires
            crate::number::error::size(ke) == crate::number::error::size(kappa)
                * crate::number::error::size(e),
            crate::number::error::size(kappa) <= 2real,
            crate::number::error::size(e) >= 0real,
    ;
    assert(crate::number::error::size(ke - e) <= 6real * ue) by {
        assert(ke - e == (kappa - 1real) * e) by (nonlinear_arith)
            requires
            ue == u * crate::number::error::size(e),
                ke == kappa * e,
        ;
        crate::number::error::lemma_size_times(kappa - 1real, e);
        assert(crate::number::error::size(kappa - 1real) * crate::number::error::size(e)
            <= 6real * ue) by (nonlinear_arith)
            requires
            ue == u * crate::number::error::size(e),
                crate::number::error::size(kappa - 1real) <= 6real * u,
                crate::number::error::size(e) >= 0real,
        ;
    }
    let kg = k * g;
    assert(ak * g == a * kg) by (nonlinear_arith)
        requires
            ak == a * k,
            kg == k * g,
    ;
    let akg = a * kg;
    assert(t * crate::number::error::size(ak) <= 524288real * t) by (nonlinear_arith)
        requires
            crate::number::error::size(ak) <= 524288real,
            0real < t,
    ;
    assert(u * crate::number::error::size(ke) <= 2real * ue) by (nonlinear_arith)
        requires
            ue == u * crate::number::error::size(e),
            crate::number::error::size(ke) <= 2real * crate::number::error::size(e),
            0real < u,
    ;
    assert(crate::number::error::size(akg - ke) <= 2real * ue + 524288real * t);
    assert(crate::number::error::size(ie - (-kg)) <= u * crate::number::error::size(-kg) + t);
    lemma_scaled_off(a, ie, -kg, u, t);
    assert(a * (-kg) == -akg) by (nonlinear_arith)
        requires
            akg == a * kg,
    ;
    let aie = a * ie;
    assert(2real * ue <= crate::number::error::size(e)) by (nonlinear_arith)
        requires
            ue == u * crate::number::error::size(e),
            u <= 1real / 1000real,
            crate::number::error::size(e) >= 0real,
    ;
    assert(crate::number::error::size(akg)
        <= 3real * crate::number::error::size(e) + 524288real * t);
    assert(t * crate::number::error::size(a) <= 262144real * t) by (nonlinear_arith)
        requires
            crate::number::error::size(a) <= 262144real,
            0real < t,
    ;
    assert(u * crate::number::error::size(akg) <= 3real * ue + 524288real * t) by (nonlinear_arith)
        requires
            ue == u * crate::number::error::size(e),
            crate::number::error::size(akg)
                <= 3real * crate::number::error::size(e) + 524288real * t,
            0real < u,
            u <= 1real / 1000real,
            0real < t,
    ;
    assert(crate::number::error::size(aie + e) <= 11real * ue + 2000000real * t);
    // The point.
    lemma_scaled_off(a, m, ia * o, u, t);
    let am = a * m;
    let ao = alpha * o;
    assert(a * (ia * o) == ao) by (nonlinear_arith)
        requires
            alpha == a * ia,
            ao == alpha * o,
    ;
    crate::number::error::lemma_size_times(alpha, o);
    assert(u * crate::number::error::size(ao) <= 2real * uo) by (nonlinear_arith)
        requires
            uo == u * crate::number::error::size(o),
            crate::number::error::size(ao) == crate::number::error::size(alpha)
                * crate::number::error::size(o),
            crate::number::error::size(alpha) <= 2real,
            0real < u,
            crate::number::error::size(o) >= 0real,
    ;
    assert(crate::number::error::size(ao - o) <= 9real * uo) by {
        assert(ao - o == (alpha - 1real) * o) by (nonlinear_arith)
            requires
            uo == u * crate::number::error::size(o),
                ao == alpha * o,
        ;
        crate::number::error::lemma_size_times(alpha - 1real, o);
        assert(crate::number::error::size(alpha - 1real) * crate::number::error::size(o)
            <= 9real * uo) by (nonlinear_arith)
            requires
            uo == u * crate::number::error::size(o),
                crate::number::error::size(alpha - 1real) <= 9real * u,
                crate::number::error::size(o) >= 0real,
        ;
    }
    assert(crate::number::error::size(am - o) <= 11real * uo + 262144real * t);
    lemma_scaled_off(a, p, m + ie, u, t);
    assert(a * (m + ie) == am + aie) by (nonlinear_arith)
        requires
            am == a * m,
            aie == a * ie,
    ;
    assert(11real * uo <= crate::number::error::size(o) && 11real * ue
        <= crate::number::error::size(e)) by (nonlinear_arith)
        requires
            ue == u * crate::number::error::size(e),
            uo == u * crate::number::error::size(o),
            u <= 1real / 1000real,
            crate::number::error::size(e) >= 0real,
            crate::number::error::size(o) >= 0real,
    ;
    assert(crate::number::error::size(am + aie) <= 2real * so + 3000000real * t);
    assert(u * crate::number::error::size(am + aie) <= 2real * us + 3000real * t)
        by (nonlinear_arith)
        requires
            us == u * so,
            crate::number::error::size(am + aie) <= 2real * so + 3000000real * t,
            0real < u,
            u <= 1real / 1000real,
            0real < t,
    ;
    assert(0real <= uo && 0real <= ue) by (nonlinear_arith)
        requires
            ue == u * crate::number::error::size(e),
            uo == u * crate::number::error::size(o),
            0real < u,
            crate::number::error::size(e) >= 0real,
            crate::number::error::size(o) >= 0real,
    ;
}

/// How far from zero coordinates are looked at: two to the power 40 pixels.
pub open spec fn horizon() -> real {
    1099511627776real
}

/// Where a zoom by `f` about `o` puts a coordinate `p` that a straight view of scale `a` and
/// displacement `e` shows close to `o`.
///
/// `r1` is `f * a`, `r2` is `r1 * p`, `r3` is `f * e`, `r4` is `f * o`, `s` is `o - r4`, `w`
/// is `r3 + s` and `r` is `r2 + w`, each off by a part `u` of itself and by `t`.
proof fn lemma_zoom_real(
    f: real,
    a: real,
    e: real,
    p: real,
    o: real,
    r1: real,
    r2: real,
    r3: real,
    r4: real,
    s: real,
    w: real,
    r: real,
    u: real,
    t: real,
)
    requires
        fine(u, t),
        u * 4503599627370496real == 1real,
        crate::number::error::size(f * o) <= horizon(),
        crate::number::error::size(f * e) <= horizon(),
        crate::number::error::size(o) <= horizon(),
        crate::number::error::size(f * (a * p)) <= 3real * horizon(),
        crate::number::error::size(p) <= 4611686018427387904real,
        crate::number::error::size(r1 - f * a) <= u * crate::number::error::size(f * a) + t,
        crate::number::error::size(r2 - r1 * p) <= u * crate::number::error::size(r1 * p) + t,
        crate::number::error::size(r3 - f * e) <= u * crate::number::error::size(f * e) + t,
        crate::number::error::size(r4 - f * o) <= u * crate::number::error::size(f * o) + t,
        crate::number::error::size(s - (o - r4)) <= u * crate::number::error::size(o - r4) + t,
        crate::number::error::size(w - (r3 + s)) <= u * crate::number::error::size(r3 + s) + t,
        crate::number::error::size(r - (r2 + w)) <= u * crate::number::error::size(r2 + w) + t,
    ensures
        4096real * crate::number::error::size(r - o - f * (a * p + e - o)) <= 32real,
{
    let big = horizon();
    assert(4096real * (u * big) == 1real) by (nonlinear_arith)
        requires
            u * 4503599627370496real == 1real,
            big == 1099511627776real,
    ;
    let q = u * big;
    assert(t <= q / 1000000000000real) by (nonlinear_arith)
        requires
            t * 1208925819614629174706176real <= u,
            q == u * 1099511627776real,
            0real < t,
    ;
    // The scale.
    let fap = f * (a * p);
    assert(p * (f * a) == fap) by (nonlinear_arith)
        requires
            fap == f * (a * p),
    ;
    lemma_scaled_off(p, r1, f * a, u, t);
    let g = r1 * p;
    assert(p * r1 == g) by (nonlinear_arith)
        requires
            g == r1 * p,
    ;
    assert(t * crate::number::error::size(p) <= q) by (nonlinear_arith)
        requires
            t * 1208925819614629174706176real <= u,
            q == u * 1099511627776real,
            crate::number::error::size(p) <= 4611686018427387904real,
            crate::number::error::size(p) >= 0real,
            0real < t,
    ;
    assert(u * crate::number::error::size(fap) <= 3real * q) by (nonlinear_arith)
        requires
            crate::number::error::size(fap) <= 3real * big,
            q == u * big,
            0real < u,
    ;
    assert(crate::number::error::size(g - fap) <= 4real * q);
    assert(q <= 1real && big >= 1000real);
    assert(u * crate::number::error::size(g) <= 4real * q) by (nonlinear_arith)
        requires
            crate::number::error::size(g) <= 4real * big,
            q == u * big,
            0real < u,
    ;
    assert(crate::number::error::size(r2 - fap) <= 9real * q);
    // The displacements.
    assert(u * crate::number::error::size(f * e) <= q && u * crate::number::error::size(f * o)
        <= q) by (nonlinear_arith)
        requires
            crate::number::error::size(f * e) <= big,
            crate::number::error::size(f * o) <= big,
            q == u * big,
            0real < u,
    ;
    assert(crate::number::error::size(r3 - f * e) <= 2real * q);
    assert(u * crate::number::error::size(o - r4) <= 3real * q) by (nonlinear_arith)
        requires
            crate::number::error::size(o - r4) <= 3real * big,
            q == u * big,
            0real < u,
    ;
    assert(u * crate::number::error::size(r3 + s) <= 4real * q) by (nonlinear_arith)
        requires
            crate::number::error::size(r3 + s) <= 4real * big,
            q == u * big,
            0real < u,
    ;
    assert(u * crate::number::error::size(r2 + w) <= 8real * q) by (nonlinear_arith)
        requires
            crate::number::error::size(r2 + w) <= 8real * big,
            q == u * big,
            0real < u,
    ;
    let around = f * (a * p + e - o);
    assert(around == fap + f * e - f * o) by (nonlinear_arith)
        requires
            around == f * (a * p + e - o),
            fap == f * (a * p),
    ;
    assert(r - o - around == (r - (r2 + w)) + (w - (r3 + s)) + (s - (o - r4)) + (r2 - fap) + (r3
        - f * e) - (r4 - f * o));
}

/// Whether a coordinate `o` and a displacement `e`, and both once multiplied by `f`, stay
/// within the horizon.
pub open spec fn in_sight(f: Scalar, e: Scalar, o: Scalar) -> bool {
    &&& crate::number::error::size(crate::number::error::real_of(o)) <= horizon()
    &&& crate::number::error::size(crate::number::error::real_of(e)) <= horizon()
    &&& crate::number::error::size(crate::number::error::real_of(f)
        * crate::number::error::real_of(o)) <= horizon()
    &&& crate::number::error::size(crate::number::error::real_of(f)
        * crate::number::error::real_of(e)) <= horizon()
}

/// What a straight view's inverse is made of, along one axis.
proof fn lemma_inverse_parts(a: Scalar, d: Scalar, e: Scalar, o: Scalar, det: Scalar)
    requires
        a.finite(),
        d.finite(),
        e.finite(),
        o.finite(),
        det.finite(),
        steady(crate::number::error::real_of(a)),
        steady(crate::number::error::real_of(d)),
        crate::number::error::size(crate::number::error::real_of(o)) <= horizon(),
        crate::number::error::size(crate::number::error::real_of(e)) <= horizon(),
        crate::number::error::size(crate::number::error::real_of(det)
            - crate::number::error::real_of(a) * crate::number::error::real_of(d))
            <= crate::number::error::grain() * crate::number::error::size(
            crate::number::error::real_of(a) * crate::number::error::real_of(d),
        ) + crate::number::error::dust(),
    ensures
        ({
            let k = Scalar::from_whole(1).over(det);
            &&& k.finite()
            &&& crate::number::error::size(crate::number::error::real_of(k)
                * crate::number::error::real_of(det) - 1real)
                <= crate::number::error::grain()
                + crate::number::error::dust()
                * crate::number::error::size(crate::number::error::real_of(det))
            &&& crate::number::error::size(crate::number::error::real_of(k)) <= 137438953472real
            &&& k.times(d).finite()
            &&& crate::number::error::size(crate::number::error::real_of(k.times(d))) <= 1048576real
            &&& crate::number::error::size(crate::number::error::real_of(k.times(d))
                - crate::number::error::real_of(k) * crate::number::error::real_of(d))
                <= crate::number::error::grain() * crate::number::error::size(
                crate::number::error::real_of(k) * crate::number::error::real_of(d),
            ) + crate::number::error::dust()
            &&& d.times(e).finite()
            &&& crate::number::error::size(crate::number::error::real_of(d.times(e)))
                <= 576460752303423488real
            &&& crate::number::error::size(crate::number::error::real_of(d.times(e))
                - crate::number::error::real_of(d) * crate::number::error::real_of(e))
                <= crate::number::error::grain() * crate::number::error::size(
                crate::number::error::real_of(d) * crate::number::error::real_of(e),
            ) + crate::number::error::dust()
            &&& k.times(d).times(o).finite()
            &&& crate::number::error::size(crate::number::error::real_of(k.times(d).times(o))
                - crate::number::error::real_of(k.times(d))
                * crate::number::error::real_of(o)) <= crate::number::error::grain()
                * crate::number::error::size(crate::number::error::real_of(k.times(d))
                    * crate::number::error::real_of(o)) + crate::number::error::dust()
            &&& crate::number::error::size(crate::number::error::real_of(k.times(d).times(o)))
                <= 4611686018427387904real
        }),
{
    crate::number::error::lemma_grain();
    let u = crate::number::error::grain();
    let t = crate::number::error::dust();
    let ra = crate::number::error::real_of(a);
    let rd = crate::number::error::real_of(d);
    let rdet = crate::number::error::real_of(det);
    assert(fine(u, t));
    crate::number::error::lemma_size_times(ra, rd);
    assert(1real <= 68719476736real * (crate::number::error::size(ra)
        * crate::number::error::size(rd))) by (nonlinear_arith)
        requires
            1real <= 262144real * crate::number::error::size(ra),
            1real <= 262144real * crate::number::error::size(rd),
    ;
    let ad = crate::number::error::size(ra * rd);
    assert(u * ad + t <= ad / 2real) by (nonlinear_arith)
        requires
            1real <= 68719476736real * ad,
            t * 1208925819614629174706176real <= u,
            u <= 1real / 1000real,
            0real < t,
    ;
    assert(crate::number::error::size(rdet) >= ad / 2real);
    crate::number::error::lemma_real_of(det);
    let one = Scalar::from_whole(1);
    lemma_real_one();
    assert(1real <= crate::number::error::wide() * crate::number::error::size(rdet))
        by (nonlinear_arith)
        requires
            crate::number::error::size(rdet) >= ad / 2real,
            1real <= 68719476736real * ad,
            crate::number::error::wide() == 1267650600228229401496703205376real,
    ;
    crate::number::error::lemma_real_quotient(one, det);
    let k = one.over(det);
    let rk = crate::number::error::real_of(k);
    assert(u * 1real == u);
    lemma_scale_real(ra, rd, rdet, rk, u, t);
    crate::number::error::lemma_real_product(k, d);
    let ia = k.times(d);
    assert(crate::number::error::size(crate::number::error::real_of(ia)) <= 1048576real) by {
        let x = crate::number::error::size(rk * rd);
        assert(u * x <= 524288real / 1000real) by (nonlinear_arith)
            requires
                x <= 524288real,
                u <= 1real / 1000real,
                0real < u,
                x >= 0real,
        ;
    }
    let re = crate::number::error::real_of(e);
    let ro = crate::number::error::real_of(o);
    crate::number::error::lemma_size_times(rd, re);
    assert(crate::number::error::size(rd) * crate::number::error::size(re)
        <= 288230376151711744real) by (nonlinear_arith)
        requires
            crate::number::error::size(rd) <= 262144real,
            crate::number::error::size(re) <= 1099511627776real,
            crate::number::error::size(rd) >= 0real,
            crate::number::error::size(re) >= 0real,
    ;
    crate::number::error::lemma_real_product(d, e);
    assert(u * crate::number::error::size(rd * re)
        <= crate::number::error::size(rd * re) / 1000real) by (nonlinear_arith)
        requires
            u <= 1real / 1000real,
            crate::number::error::size(rd * re) >= 0real,
    ;
    crate::number::error::lemma_size_times(crate::number::error::real_of(ia), ro);
    assert(crate::number::error::size(crate::number::error::real_of(ia))
        * crate::number::error::size(ro) <= 1152921504606846976real) by (nonlinear_arith)
        requires
            crate::number::error::size(crate::number::error::real_of(ia)) <= 1048576real,
            crate::number::error::size(ro) <= 1099511627776real,
            crate::number::error::size(crate::number::error::real_of(ia)) >= 0real,
            crate::number::error::size(ro) >= 0real,
    ;
    crate::number::error::lemma_real_product(ia, o);
    let y = crate::number::error::size(crate::number::error::real_of(ia) * ro);
    assert(u * y <= y / 1000real) by (nonlinear_arith)
        requires
            u <= 1real / 1000real,
            y >= 0real,
    ;
}

/// One is one pixel.
proof fn lemma_real_one()
    ensures
        Scalar::from_whole(1).finite(),
        crate::number::error::real_of(Scalar::from_whole(1)) == 1real,
{
    crate::number::exact::lemma_from_whole(1);
    crate::number::error::lemma_grain();
    let o = crate::number::rounding::one_in_units() as real;
    assert(1 * crate::number::rounding::one_in_units() == crate::number::rounding::one_in_units());
    assert(o / o == 1real) by (nonlinear_arith)
        requires
            o >= 1real,
    ;
}

/// The coordinate that a straight view's inverse gives for the pointer.
proof fn lemma_inverse_point(
    a: Scalar,
    d: Scalar,
    e: Scalar,
    o: Scalar,
    det: Scalar,
    back: Scalar,
    lead: Scalar,
)
    requires
        a.finite(),
        d.finite(),
        e.finite(),
        o.finite(),
        det.finite(),
        steady(crate::number::error::real_of(a)),
        steady(crate::number::error::real_of(d)),
        crate::number::error::size(crate::number::error::real_of(o)) <= horizon(),
        crate::number::error::size(crate::number::error::real_of(e)) <= horizon(),
        crate::number::error::size(crate::number::error::real_of(det)
            - crate::number::error::real_of(a) * crate::number::error::real_of(d))
            <= crate::number::error::grain() * crate::number::error::size(
            crate::number::error::real_of(a) * crate::number::error::real_of(d),
        ) + crate::number::error::dust(),
        back.finite(),
        back.value() == -d.times(e).value(),
        lead.finite(),
        lead.value() == Scalar::from_whole(1).over(det).times(d).times(o).value(),
    ensures
        ({
            let ie = Scalar::from_whole(1).over(det).times(back);
            let p = lead.plus(ie);
            &&& ie.finite()
            &&& p.finite()
            &&& crate::number::error::size(crate::number::error::real_of(a)
                * crate::number::error::real_of(p)
                + crate::number::error::real_of(e) - crate::number::error::real_of(o))
                <= 14real * (crate::number::error::grain() * (
            crate::number::error::size(crate::number::error::real_of(o))
                + crate::number::error::size(crate::number::error::real_of(e))))
                + 10000000real * crate::number::error::dust()
        }),
{
    crate::number::error::lemma_grain();
    lemma_inverse_parts(a, d, e, o, det);
    let u = crate::number::error::grain();
    let k = Scalar::from_whole(1).over(det);
    let ia = k.times(d);
    let g = d.times(e);
    let m = ia.times(o);
    let rk = crate::number::error::real_of(k);
    let rg = crate::number::error::real_of(g);
    crate::number::error::lemma_real_of(back);
    crate::number::error::lemma_real_of(g);
    let one = crate::number::rounding::one_in_units() as real;
    assert(crate::number::error::real_of(back) == -rg) by (nonlinear_arith)
        requires
            crate::number::error::real_of(back) * one == back.value() as real,
            rg * one == g.value() as real,
            back.value() as real == -(g.value() as real),
            one >= 1real,
    ;
    crate::number::error::lemma_size_times(rk, crate::number::error::real_of(back));
    assert(crate::number::error::size(rk)
        * crate::number::error::size(crate::number::error::real_of(back))
        <= crate::number::error::wide() / 4real) by (nonlinear_arith)
        requires
            crate::number::error::size(rk) <= 137438953472real,
            crate::number::error::size(crate::number::error::real_of(back))
                <= 576460752303423488real,
            crate::number::error::size(rk) >= 0real,
            crate::number::error::size(crate::number::error::real_of(back)) >= 0real,
            crate::number::error::wide() == 1267650600228229401496703205376real,
    ;
    crate::number::error::lemma_real_product(k, back);
    let ie = k.times(back);
    assert(rk * crate::number::error::real_of(back) == -(rk * rg)) by (nonlinear_arith)
        requires
            crate::number::error::real_of(back) == -rg,
    ;
    let x = crate::number::error::size(rk * rg);
    assert(u * x <= x / 1000real) by (nonlinear_arith)
        requires
            u <= 1real / 1000real,
            x >= 0real,
    ;
    assert(crate::number::error::real_of(lead) == crate::number::error::real_of(m));
    crate::number::error::lemma_real_sum(lead, ie);
    let p = lead.plus(ie);
    lemma_inverse_real(
        crate::number::error::real_of(a),
        crate::number::error::real_of(d),
        crate::number::error::real_of(e),
        crate::number::error::real_of(o),
        crate::number::error::real_of(det),
        rk,
        crate::number::error::real_of(ia),
        rg,
        crate::number::error::real_of(ie),
        crate::number::error::real_of(m),
        crate::number::error::real_of(p),
        u,
        crate::number::error::dust(),
    );
}

/// Whether a view of scale `a` and displacement `e` shows the coordinate `p` close to `o`.
spec fn shown_close(a: Scalar, e: Scalar, p: Scalar, o: Scalar) -> bool {
    crate::number::error::size(crate::number::error::real_of(a)
        * crate::number::error::real_of(p)
        + crate::number::error::real_of(e) - crate::number::error::real_of(o))
        <= 14real * (crate::number::error::grain() * (crate::number::error::size(
        crate::number::error::real_of(o),
    ) + crate::number::error::size(crate::number::error::real_of(e))))
        + 10000000real * crate::number::error::dust()
}

/// How far off that is after a zoom by `f`, and how large things get.
proof fn lemma_close_enough(f: real, a: real, e: real, p: real, o: real, u: real, t: real)
    requires
        fine(u, t),
        u * 4503599627370496real == 1real,
        crate::number::error::size(f) <= 262144real,
        steady(a),
        crate::number::error::size(o) <= horizon(),
        crate::number::error::size(e) <= horizon(),
        crate::number::error::size(f * o) <= horizon(),
        crate::number::error::size(f * e) <= horizon(),
        crate::number::error::size(a * p + e - o)
            <= 14real * (u * (crate::number::error::size(o) + crate::number::error::size(e)))
            + 10000000real * t,
    ensures
        4096real * crate::number::error::size(f * (a * p + e - o)) <= 29real,
        crate::number::error::size(f * (a * p)) <= 3real * horizon(),
        crate::number::error::size(p) <= 1152921504606846976real,
{
    let big = horizon();
    let off = a * p + e - o;
    let q = u * big;
    assert(4096real * q == 1real) by (nonlinear_arith)
        requires
            u * 4503599627370496real == 1real,
            q == u * big,
            big == 1099511627776real,
    ;
    assert(t <= q / 1000000000000000000real) by (nonlinear_arith)
        requires
            t * 1208925819614629174706176real <= u,
            q == u * 1099511627776real,
            0real < t,
    ;
    crate::number::error::lemma_size_times(f, off);
    crate::number::error::lemma_size_times(f, o);
    crate::number::error::lemma_size_times(f, e);
    let sf = crate::number::error::size(f);
    let so = crate::number::error::size(o);
    let se = crate::number::error::size(e);
    assert(sf * crate::number::error::size(off)
        <= 28real * q + 262144real * (10000000real * t)) by (nonlinear_arith)
        requires
            crate::number::error::size(off) <= 14real * (u * (so + se)) + 10000000real * t,
            sf * so <= big,
            sf * se <= big,
            q == u * big,
            0real < u,
            0real <= sf,
            sf <= 262144real,
            0real < t,
    ;
    assert(4096real * crate::number::error::size(f * off) <= 29real);
    let ap = a * p;
    assert(f * off == f * ap + f * e - f * o) by (nonlinear_arith)
        requires
            off == ap + e - o,
    ;
    assert(crate::number::error::size(f * ap) <= 3real * big);
    assert(u * (so + se) <= 2real * q) by (nonlinear_arith)
        requires
            so <= big,
            se <= big,
            q == u * big,
            0real < u,
    ;
    assert(crate::number::error::size(ap) <= 3real * big);
    crate::number::error::lemma_size_times(a, p);
    assert(crate::number::error::size(p) <= 1152921504606846976real) by (nonlinear_arith)
        requires
            crate::number::error::size(a) * crate::number::error::size(p) <= 3real * big,
            1real <= 262144real * crate::number::error::size(a),
            crate::number::error::size(p) >= 0real,
            big == 1099511627776real,
    ;
}

/// Whether a result is as close to the exact one as roundings are.
spec fn rounded(got: real, exact: real) -> bool {
    crate::number::error::size(got - exact)
        <= crate::number::error::grain() * crate::number::error::size(exact)
        + crate::number::error::dust()
}

/// A result is at most twice the exact one, but for dust.
proof fn lemma_rounded_size(got: real, exact: real)
    requires
        rounded(got, exact),
    ensures
        crate::number::error::size(got) <= 2real * crate::number::error::size(exact) + 1real,
{
    crate::number::error::lemma_grain();
    let x = crate::number::error::size(exact);
    let u = crate::number::error::grain();
    assert(u * x <= x) by (nonlinear_arith)
        requires
            u * 4503599627370496real == 1real,
            x >= 0real,
    ;
    assert(crate::number::error::dust() <= 1real) by (nonlinear_arith)
        requires
            crate::number::error::dust() * 1208925819614629174706176real <= u,
            u * 4503599627370496real == 1real,
            0real < crate::number::error::dust(),
    ;
}

/// The new displacement, along one axis.
proof fn lemma_zoom_shift(f: Scalar, e: Scalar, o: Scalar)
    requires
        f.finite(),
        e.finite(),
        o.finite(),
        in_sight(f, e, o),
    ensures
        ({
            let s = o.minus(f.times(o));
            let w = f.times(e).plus(s);
            &&& f.times(e).finite()
            &&& f.times(o).finite()
            &&& s.finite()
            &&& w.finite()
            &&& rounded(crate::number::error::real_of(f.times(e)), crate::number::error::real_of(f) * crate::number::error::real_of(e))
            &&& rounded(crate::number::error::real_of(f.times(o)), crate::number::error::real_of(f) * crate::number::error::real_of(o))
            &&& rounded(crate::number::error::real_of(s), crate::number::error::real_of(o)
                - crate::number::error::real_of(f.times(o)))
            &&& rounded(crate::number::error::real_of(w), crate::number::error::real_of(f.times(e)) + crate::number::error::real_of(s))
            &&& crate::number::error::size(crate::number::error::real_of(w)) <= 100real * horizon()
        }),
{
    crate::number::error::lemma_real_product(f, e);
    crate::number::error::lemma_real_product(f, o);
    let r3 = f.times(e);
    let r4 = f.times(o);
    lemma_rounded_size(crate::number::error::real_of(r3), crate::number::error::real_of(f)
        * crate::number::error::real_of(e));
    lemma_rounded_size(crate::number::error::real_of(r4), crate::number::error::real_of(f)
        * crate::number::error::real_of(o));
    crate::number::exact::lemma_negated(r4);
    crate::number::error::lemma_real_negated(r4);
    crate::number::error::lemma_real_sum(o, r4.negated());
    let s = o.minus(r4);
    lemma_rounded_size(crate::number::error::real_of(s), crate::number::error::real_of(o)
        - crate::number::error::real_of(r4));
    crate::number::error::lemma_real_sum(r3, s);
    let w = r3.plus(s);
    lemma_rounded_size(crate::number::error::real_of(w), crate::number::error::real_of(r3)
        + crate::number::error::real_of(s));
}

/// The scaled coordinate, along one axis.
proof fn lemma_zoom_scale(f: Scalar, a: Scalar, p: Scalar)
    requires
        f.finite(),
        a.finite(),
        p.finite(),
        crate::number::error::size(crate::number::error::real_of(f)) <= 262144real,
        crate::number::error::size(crate::number::error::real_of(a)) <= 262144real,
        crate::number::error::size(crate::number::error::real_of(p)) <= 1152921504606846976real,
    ensures
        ({
            let r1 = f.times(a);
            let r2 = r1.times(p);
            &&& r1.finite()
            &&& r2.finite()
            &&& rounded(crate::number::error::real_of(r1), crate::number::error::real_of(f)
                * crate::number::error::real_of(a))
            &&& rounded(crate::number::error::real_of(r2), crate::number::error::real_of(r1)
                * crate::number::error::real_of(p))
            &&& crate::number::error::size(crate::number::error::real_of(r2))
                <= crate::number::error::wide() / 2real
        }),
{
    let rf = crate::number::error::real_of(f);
    let ra = crate::number::error::real_of(a);
    let rp = crate::number::error::real_of(p);
    crate::number::error::lemma_size_times(rf, ra);
    assert(crate::number::error::size(rf) * crate::number::error::size(ra)
        <= 68719476736real) by (nonlinear_arith)
        requires
            crate::number::error::size(rf) <= 262144real,
            crate::number::error::size(ra) <= 262144real,
            crate::number::error::size(rf) >= 0real,
            crate::number::error::size(ra) >= 0real,
    ;
    crate::number::error::lemma_real_product(f, a);
    let r1 = crate::number::error::real_of(f.times(a));
    lemma_rounded_size(r1, rf * ra);
    crate::number::error::lemma_size_times(r1, rp);
    assert(crate::number::error::size(r1) * crate::number::error::size(rp)
        <= crate::number::error::wide() / 5real) by (nonlinear_arith)
        requires
            crate::number::error::size(r1) <= 200000000000real,
            crate::number::error::size(rp) <= 1152921504606846976real,
            crate::number::error::size(r1) >= 0real,
            crate::number::error::size(rp) >= 0real,
            crate::number::error::wide() == 1267650600228229401496703205376real,
    ;
    crate::number::error::lemma_real_product(f.times(a), p);
    lemma_rounded_size(crate::number::error::real_of(f.times(a).times(p)), r1 * rp);
}

/// Where a zoom puts a coordinate that the view shows close to the pointer.
proof fn lemma_zoom_parts(f: Scalar, a: Scalar, e: Scalar, p: Scalar, o: Scalar)
    requires
        f.finite(),
        a.finite(),
        e.finite(),
        p.finite(),
        o.finite(),
        crate::number::error::size(crate::number::error::real_of(f)) <= 262144real,
        steady(crate::number::error::real_of(a)),
        in_sight(f, e, o),
        shown_close(a, e, p, o),
    ensures
        ({
            let s = o.minus(f.times(o));
            let w = f.times(e).plus(s);
            let r2 = f.times(a).times(p);
            &&& f.times(a).finite()
            &&& f.times(e).finite()
            &&& f.times(o).finite()
            &&& s.finite()
            &&& w.finite()
            &&& r2.finite()
            &&& r2.plus(w).finite()
            &&& 64real * crate::number::error::size(crate::number::error::real_of(r2.plus(w))
                - crate::number::error::real_of(o)) <= 1real
        }),
{
    crate::number::error::lemma_grain();
    let rf = crate::number::error::real_of(f);
    let ra = crate::number::error::real_of(a);
    let re = crate::number::error::real_of(e);
    let rp = crate::number::error::real_of(p);
    let ro = crate::number::error::real_of(o);
    lemma_close_enough(rf, ra, re, rp, ro, crate::number::error::grain(), crate::number::error::dust());
    lemma_zoom_shift(f, e, o);
    lemma_zoom_scale(f, a, p);
    let r1 = f.times(a);
    let r2 = r1.times(p);
    let s = o.minus(f.times(o));
    let w = f.times(e).plus(s);
    crate::number::error::lemma_real_sum(r2, w);
    let r = r2.plus(w);
    lemma_zoom_real(
        rf,
        ra,
        re,
        rp,
        ro,
        crate::number::error::real_of(r1),
        crate::number::error::real_of(r2),
        crate::number::error::real_of(f.times(e)),
        crate::number::error::real_of(f.times(o)),
        crate::number::error::real_of(s),
        crate::number::error::real_of(w),
        crate::number::error::real_of(r),
        crate::number::error::grain(),
        crate::number::error::dust(),
    );
}

/// Whether a view neither turns nor skews, and both of its scales are moderate.
pub open spec fn straight(view: Affine) -> bool {
    &&& crate::canvas::view_laws::finite_map(view)
    &&& view.b.value() == 0
    &&& view.c.value() == 0
    &&& steady(crate::number::error::real_of(view.a))
    &&& steady(crate::number::error::real_of(view.d))
}

/// The canvas point under the pointer, for a straight view.
proof fn lemma_point_under(layer: LayerState, origin: Point)
    requires
        straight(layer.view),
        origin.x.finite(),
        origin.y.finite(),
        crate::number::error::size(crate::number::error::real_of(origin.x)) <= horizon(),
        crate::number::error::size(crate::number::error::real_of(origin.y)) <= horizon(),
        crate::number::error::size(crate::number::error::real_of(layer.view.e)) <= horizon(),
        crate::number::error::size(crate::number::error::real_of(layer.view.f)) <= horizon(),
    ensures
        layer.canvas_point(origin).x.finite(),
        layer.canvas_point(origin).y.finite(),
        shown_close(layer.view.a, layer.view.e, layer.canvas_point(origin).x, origin.x),
        shown_close(layer.view.d, layer.view.f, layer.canvas_point(origin).y, origin.y),
{
    let v = layer.view;
    // The determinant.
    crate::number::error::lemma_size_times(crate::number::error::real_of(v.a), crate::number::error::real_of(v.d));
    let sa = crate::number::error::size(crate::number::error::real_of(v.a));
    let sd = crate::number::error::size(crate::number::error::real_of(v.d));
    assert(sa * sd <= 68719476736real) by (nonlinear_arith)
        requires
            sa <= 262144real,
            sd <= 262144real,
            sa >= 0real,
            sd >= 0real,
    ;
    crate::number::error::lemma_real_product(v.a, v.d);
    crate::number::exact::lemma_times_value(v.b, v.c);
    crate::number::exact::lemma_negated(v.b.times(v.c));
    crate::number::exact::lemma_plus_nothing(v.a.times(v.d), v.b.times(v.c).negated());
    let det = v.determinant();
    assert(crate::number::error::real_of(v.a) * crate::number::error::real_of(v.d)
        == crate::number::error::real_of(v.d) * crate::number::error::real_of(v.a))
        by (nonlinear_arith);
    let k = Scalar::from_whole(1).over(det);
    lemma_inverse_parts(v.a, v.d, v.e, origin.x, det);
    lemma_inverse_parts(v.d, v.a, v.f, origin.y, det);
    let back = v.inverse();
    crate::number::exact::lemma_negated(k);
    crate::number::exact::lemma_times_value(k.negated(), v.b);
    crate::number::exact::lemma_times_value(k.negated(), v.c);
    assert(back.b.value() == 0 && back.b.finite());
    assert(back.c.value() == 0 && back.c.finite());
    // Along x.
    crate::number::exact::lemma_times_value(v.c, v.f);
    crate::number::exact::lemma_negated(v.d.times(v.e));
    crate::number::exact::lemma_plus_nothing(v.d.times(v.e).negated(), v.c.times(v.f));
    let bx = v.c.times(v.f).minus(v.d.times(v.e));
    crate::number::exact::lemma_times_value(back.c, origin.y);
    crate::number::exact::lemma_plus_nothing(back.a.times(origin.x), back.c.times(origin.y));
    let lx = back.a.times(origin.x).plus(back.c.times(origin.y));
    lemma_inverse_point(v.a, v.d, v.e, origin.x, det, bx, lx);
    // Along y.
    crate::number::exact::lemma_times_value(v.b, v.e);
    crate::number::exact::lemma_negated(v.a.times(v.f));
    crate::number::exact::lemma_plus_nothing(v.a.times(v.f).negated(), v.b.times(v.e));
    let by = v.b.times(v.e).minus(v.a.times(v.f));
    crate::number::exact::lemma_times_value(back.b, origin.x);
    crate::number::exact::lemma_plus_nothing(back.d.times(origin.y), back.b.times(origin.x));
    let ly = back.b.times(origin.x).plus(back.d.times(origin.y));
    lemma_inverse_point(v.d, v.a, v.f, origin.y, det, by, ly);
}

/// The canvas point of a pointer position is the one that the view shows there, to a
/// hundredth of a pixel.
pub proof fn law_canvas_point_is_shown_under_the_pointer(layer: LayerState, pos: Point)
    requires
        straight(layer.view),
        pos.x.finite(),
        pos.y.finite(),
        crate::number::error::size(crate::number::error::real_of(pos.x)) <= horizon(),
        crate::number::error::size(crate::number::error::real_of(pos.y)) <= horizon(),
        crate::number::error::size(crate::number::error::real_of(layer.view.e)) <= horizon(),
        crate::number::error::size(crate::number::error::real_of(layer.view.f)) <= horizon(),
    ensures
        ({
            let p = layer.canvas_point(pos);
            let across = crate::number::error::real_of(layer.view.a)
                * crate::number::error::real_of(p.x) + crate::number::error::real_of(layer.view.e);
            let down = crate::number::error::real_of(layer.view.d)
                * crate::number::error::real_of(p.y) + crate::number::error::real_of(layer.view.f);
            &&& p.x.finite()
            &&& p.y.finite()
            &&& 100real * crate::number::error::size(across - crate::number::error::real_of(pos.x))
                <= 1real
            &&& 100real * crate::number::error::size(down - crate::number::error::real_of(pos.y))
                <= 1real
        }),
{
    lemma_point_under(layer, pos);
    crate::number::error::lemma_grain();
    lemma_shown_to_a_hundredth(layer.view.a, layer.view.e, layer.canvas_point(pos).x, pos.x);
    lemma_shown_to_a_hundredth(layer.view.d, layer.view.f, layer.canvas_point(pos).y, pos.y);
}

proof fn lemma_shown_to_a_hundredth(a: Scalar, e: Scalar, p: Scalar, o: Scalar)
    requires
        shown_close(a, e, p, o),
        crate::number::error::size(crate::number::error::real_of(o)) <= horizon(),
        crate::number::error::size(crate::number::error::real_of(e)) <= horizon(),
    ensures
        100real * crate::number::error::size(crate::number::error::real_of(a)
            * crate::number::error::real_of(p) + crate::number::error::real_of(e)
            - crate::number::error::real_of(o)) <= 1real,
{
    crate::number::error::lemma_grain();
    let u = crate::number::error::grain();
    let t = crate::number::error::dust();
    let far = crate::number::error::size(crate::number::error::real_of(o))
        + crate::number::error::size(crate::number::error::real_of(e));
    assert(2048real * (u * far) <= 1real && 100000000000real * t <= 1real) by (nonlinear_arith)
        requires
            far <= 2real * 1099511627776real,
            u * 4503599627370496real == 1real,
            t * 1208925819614629174706176real <= u,
            t > 0real,
    ;
}

/// A row of the zoomed view, as the composition computes it, in either order of its terms:
/// scale, skew and displacement, and where it takes the point.
proof fn lemma_zoomed_row(
    f: Scalar,
    a: Scalar,
    e: Scalar,
    p: Scalar,
    o: Scalar,
    new_a: Scalar,
    skew: Scalar,
    other: Scalar,
    new_e: Scalar,
)
    requires
        new_a.finite(),
        new_a.value() == f.times(a).value(),
        skew.finite(),
        skew.value() == 0,
        other.finite(),
        new_e.finite(),
        new_e.value() == f.times(e).plus(o.minus(f.times(o))).value(),
        f.times(a).finite(),
        p.finite(),
        f.times(a).times(p).finite(),
        f.times(e).plus(o.minus(f.times(o))).finite(),
        f.times(a).times(p).plus(f.times(e).plus(o.minus(f.times(o)))).finite(),
    ensures
        ({
            let exact = f.times(a).times(p).plus(f.times(e).plus(o.minus(f.times(o))));
            let one = new_a.times(p).plus(skew.times(other)).plus(new_e);
            let two = skew.times(other).plus(new_a.times(p)).plus(new_e);
            &&& one.finite() && one.value() == exact.value()
            &&& two.finite() && two.value() == exact.value()
        }),
{
    crate::number::exact::lemma_times_by_value(new_a, p, f.times(a), p);
    crate::canvas::view_laws::lemma_row(new_a, p, skew, other);
    crate::number::exact::lemma_plus_by_value(
        new_a.times(p).plus(skew.times(other)),
        new_e,
        f.times(a).times(p),
        f.times(e).plus(o.minus(f.times(o))),
    );
    crate::number::exact::lemma_plus_by_value(
        skew.times(other).plus(new_a.times(p)),
        new_e,
        f.times(a).times(p),
        f.times(e).plus(o.minus(f.times(o))),
    );
}

/// Zooming is anchored: the canvas point under the pointer stays under it, to within a 64th
/// of a pixel.
///
/// For views that neither turn nor skew, which panning and zooming keep, at scales from
/// two to the power -18 to two to the power 18, and for pointers and displacements that are
/// within two to the power 40 pixels before and after the zoom. What is left is rounding, of
/// the point itself and of the new view.
pub proof fn law_zoom_keeps_the_anchor(layer: LayerState, origin: Point, factor: Scalar)
    requires
        layer.zoomed_view(origin, factor) is Some,
        layer.limited_factor(factor).finite(),
        crate::number::error::size(crate::number::error::real_of(layer.limited_factor(factor))) <= 262144real,
        straight(layer.view),
        origin.x.finite(),
        origin.y.finite(),
        in_sight(layer.limited_factor(factor), layer.view.e, origin.x),
        in_sight(layer.limited_factor(factor), layer.view.f, origin.y),
    ensures
        ({
            let p = layer.canvas_point(origin);
            let moved = layer.zoomed_view(origin, factor).unwrap().at(p);
            &&& moved.x.finite()
            &&& moved.y.finite()
            &&& 64real * crate::number::error::size(crate::number::error::real_of(moved.x)
                - crate::number::error::real_of(origin.x)) <= 1real
            &&& 64real * crate::number::error::size(crate::number::error::real_of(moved.y)
                - crate::number::error::real_of(origin.y)) <= 1real
        }),
{
    let f = layer.limited_factor(factor);
    let v = layer.view;
    let p = layer.canvas_point(origin);
    lemma_point_under(layer, origin);
    lemma_zoom_parts(f, v.a, v.e, p.x, origin.x);
    lemma_zoom_parts(f, v.d, v.f, p.y, origin.y);
    crate::canvas::view_laws::lemma_zoom_step(origin, f);
    let step = LayerState::zoom_step(origin, f);
    let after = step.after(v);
    lemma_zoomed_view(step, v, f, origin);
    lemma_zoomed_row(f, v.a, v.e, p.x, origin.x, after.a, after.c, p.y, after.e);
    lemma_zoomed_row(f, v.d, v.f, p.y, origin.y, after.d, after.b, p.x, after.f);
}

/// The coefficients of a zoomed view.
proof fn lemma_zoomed_view(step: Affine, v: Affine, f: Scalar, o: Point)
    requires
        f.finite(),
        crate::canvas::view_laws::finite_map(v),
        v.b.value() == 0,
        v.c.value() == 0,
        step.a.finite() && step.a.value() == f.value(),
        step.d.finite() && step.d.value() == f.value(),
        step.b.finite() && step.b.value() == 0,
        step.c.finite() && step.c.value() == 0,
        step.e.finite(),
        step.e.value() == o.x.minus(f.times(o.x)).value(),
        step.f.finite(),
        step.f.value() == o.y.minus(f.times(o.y)).value(),
        o.x.minus(f.times(o.x)).finite(),
        o.y.minus(f.times(o.y)).finite(),
        f.times(v.a).finite(),
        f.times(v.d).finite(),
        f.times(v.e).finite(),
        f.times(v.f).finite(),
        f.times(v.e).plus(o.x.minus(f.times(o.x))).finite(),
        f.times(v.f).plus(o.y.minus(f.times(o.y))).finite(),
    ensures
        ({
            let after = step.after(v);
            &&& after.a.finite() && after.a.value() == f.times(v.a).value()
            &&& after.d.finite() && after.d.value() == f.times(v.d).value()
            &&& after.b.finite() && after.b.value() == 0
            &&& after.c.finite() && after.c.value() == 0
            &&& after.e.finite()
            &&& after.e.value() == f.times(v.e).plus(o.x.minus(f.times(o.x))).value()
            &&& after.f.finite()
            &&& after.f.value() == f.times(v.f).plus(o.y.minus(f.times(o.y))).value()
        }),
{
    crate::number::exact::lemma_times_by_value(step.a, v.a, f, v.a);
    crate::number::exact::lemma_times_by_value(step.d, v.d, f, v.d);
    crate::number::exact::lemma_times_by_value(step.a, v.e, f, v.e);
    crate::number::exact::lemma_times_by_value(step.d, v.f, f, v.f);
    crate::canvas::view_laws::lemma_row(step.a, v.a, step.c, v.b);
    crate::canvas::view_laws::lemma_row(step.d, v.d, step.b, v.c);
    crate::canvas::view_laws::lemma_row(step.a, v.e, step.c, v.f);
    crate::canvas::view_laws::lemma_row(step.d, v.f, step.b, v.e);
    crate::number::exact::lemma_times_value(step.b, v.a);
    crate::number::exact::lemma_times_value(step.d, v.b);
    crate::number::exact::lemma_times_value(step.a, v.c);
    crate::number::exact::lemma_times_value(step.c, v.d);
    crate::number::exact::lemma_plus_nothing(step.b.times(v.a), step.d.times(v.b));
    crate::number::exact::lemma_plus_nothing(step.a.times(v.c), step.c.times(v.d));
    crate::number::exact::lemma_plus_by_value(
        step.a.times(v.e).plus(step.c.times(v.f)),
        step.e,
        f.times(v.e),
        o.x.minus(f.times(o.x)),
    );
    crate::number::exact::lemma_plus_by_value(
        step.b.times(v.e).plus(step.d.times(v.f)),
        step.f,
        f.times(v.f),
        o.y.minus(f.times(o.y)),
    );
}

} // verus!
