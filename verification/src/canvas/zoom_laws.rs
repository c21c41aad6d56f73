//! How far a wheel zooms, and what a zoomed or panned view shows.

use vstd::prelude::*;

use crate::canvas::layer::{
    default_overscan, wheel_exponent, zoom_epsilon, LayerState, ScrollDelta,
};
use crate::geometry::{Affine, Point, Rect};
use crate::number::rounding::{HIDDEN, INFINITE, UNIT_EXPONENT};
use crate::number::scalar::Scalar;

verus! {

/// What the rate of the wheel is worth in units: three in two thousand.
proof fn lemma_wheel_rate() -> (w: int)
    ensures
        Scalar::ratio(3, 2000).finite(),
        !Scalar::ratio(3, 2000).negative(),
        w == Scalar::ratio(3, 2000).value(),
        w == crate::number::rounding::units(Scalar::ratio(3, 2000).magnitude()),
        HIDDEN * crate::number::error::far(
            2000 * w - 3 * crate::number::rounding::one_in_units(),
        ) <= 3 * crate::number::rounding::one_in_units() + 2000 * HIDDEN,
        2000 * w <= 4 * crate::number::rounding::one_in_units(),
        1000 * w >= crate::number::rounding::one_in_units(),
        crate::number::rounding::one_in_units() >= 2000 * HIDDEN,
{
    let one = crate::number::rounding::one_in_units() as int;
    let h = HIDDEN as int;
    let q = Scalar::ratio(3, 2000);
    let x = Scalar::from_whole(3);
    let y = Scalar::from_whole(2000);
    crate::number::exact::lemma_from_whole(3);
    crate::number::exact::lemma_from_whole(2000);
    crate::number::exact::lemma_ratio_at_most(3, 2000, 1);
    crate::number::rounding::lemma_two_to_positive(UNIT_EXPONENT as nat);
    crate::number::error::lemma_quotient_error(x, y);
    let w = q.value();
    crate::number::rounding::lemma_two_to_adds(1011, 63);
    crate::number::rounding::lemma_two_to_adds(52, 11);
    crate::number::rounding::lemma_two_to_positive(1011);
    crate::number::exact::lemma_known_power();
    assert(crate::number::rounding::two_to(11) == 2048) by {
        reveal_with_fuel(crate::number::rounding::two_to, 12);
    }
    assert(one >= 2048 * h) by (nonlinear_arith)
        requires
            one == crate::number::rounding::two_to(1011) * (h * 2048),
            crate::number::rounding::two_to(1011) >= 1,
            h >= 1,
    ;
    let d = 2000 * w - 3 * one;
    assert(w * (2000 * one) - (3 * one) * one == d * one) by (nonlinear_arith)
        requires
            d == 2000 * w - 3 * one,
    ;
    crate::number::error::lemma_far_times(d, one);
    assert((3 * one) * one >= 0) by (nonlinear_arith)
        requires
            one >= 1,
    ;
    let f = crate::number::error::far(d);
    assert(h * f <= 3 * one + 2000 * h) by (nonlinear_arith)
        requires
            h * (f * one) <= (3 * one) * one + h * (2000 * one),
            one >= 1,
    ;
    assert(f <= one) by (nonlinear_arith)
        requires
            h * f <= 3 * one + 2000 * h,
            one >= 2000 * h,
            h == 4503599627370496,
    ;
    w
}

/// The wheel zooms out where it travels forwards and in where it travels back, by three
/// thousandths per two pixels, and back again by the same exponent: the exponent has the
/// sign opposite to the travel, is nothing only for a travel next to nothing, and is minus
/// the travel times 0.0015 up to rounding.
pub proof fn law_wheel_exponent_opposes_the_travel(travel: Scalar)
    requires
        travel.finite(),
    ensures
        ({
            let e = wheel_exponent(travel);
            let h = HIDDEN as int;
            &&& e.finite()
            &&& travel.value() >= 0 ==> e.value() <= 0
            &&& travel.value() <= 0 ==> e.value() >= 0
            &&& travel.value() >= 1000 ==> e.value() < 0
            &&& travel.value() <= -1000 ==> e.value() > 0
            &&& wheel_exponent(travel.negated()).value() == -e.value()
            &&& h * crate::number::error::far(2000 * e.value() + 3 * travel.value()) <= 8
                * crate::number::error::far(travel.value()) + 2000 * h
        }),
{
    let one = crate::number::rounding::one_in_units() as int;
    let h = HIDDEN as int;
    crate::number::rounding::lemma_two_to_positive(UNIT_EXPONENT as nat);
    let q = Scalar::ratio(3, 2000);
    let w = lemma_wheel_rate();
    let t = travel.value();
    let u = crate::number::rounding::units(travel.magnitude()) as int;
    crate::number::exact::lemma_negated(travel);
    crate::number::exact::lemma_negated(travel.negated());
    let back = travel.negated();
    let cut = crate::number::rounding::fraction(u * w, one);
    let m = crate::number::rounding::nearest(cut);
    assert(u * w >= 0) by (nonlinear_arith)
        requires
            u >= 0,
            w >= 0,
    ;
    crate::number::rounding::lemma_fraction_falling(u * w, one);
    crate::number::rounding::lemma_nearest(cut);
    crate::number::exact::lemma_pack(back.negative(), m);
    crate::number::exact::lemma_pack(!back.negative(), m);
    let e = wheel_exponent(travel);
    assert(e.magnitude() == m && e.negative() == back.negative());
    assert(travel.negated().negated().magnitude() == travel.magnitude());
    assert(wheel_exponent(travel.negated()).magnitude() == m);
    assert(wheel_exponent(travel.negated()).negative() == !back.negative());
    crate::number::arithmetic::lemma_zero_units(m);
    crate::number::arithmetic::lemma_zero_units(travel.magnitude());
    // No larger than the travel.
    assert(u * w <= one * u) by (nonlinear_arith)
        requires
            u >= 0,
            2000 * w <= 4 * one,
            w >= 0,
    ;
    crate::number::exact::lemma_rounds_below(u * w, one, m, travel.magnitude());
    if m >= INFINITE {
        crate::number::rounding::lemma_units_ascend(travel.magnitude(), m);
    }
    assert(e.finite());
    if travel.magnitude() == 0 {
        assert(0 * w == 0) by (nonlinear_arith);
        crate::number::arithmetic::lemma_nothing(one);
    }
    // More than nothing.
    if u >= 1000 {
        assert(crate::number::rounding::units(1) == 1);
        assert(one * 1 <= u * w) by (nonlinear_arith)
            requires
                u >= 1000,
                1000 * w >= one,
                w >= 0,
        ;
        crate::number::exact::lemma_rounds_above(u * w, one, m, 1);
    }
    // How much.
    crate::number::error::lemma_product_error(back, q);
    let v = e.value();
    let exact = -t * w;
    assert(back.value() * q.value() == exact);
    lemma_wheel_amount(t, w, v, one, h);
}

proof fn lemma_wheel_amount(t: int, w: int, v: int, one: int, h: int)
    requires
        h >= 1,
        one >= 2000 * h,
        0 <= 2000 * w <= 4 * one,
        h * crate::number::error::far(2000 * w - 3 * one) <= 3 * one + 2000 * h,
        h * crate::number::error::far(v * one - (-t * w)) <= crate::number::error::far(-t * w) + h
            * one,
    ensures
        h * crate::number::error::far(2000 * v + 3 * t) <= 8 * crate::number::error::far(t) + 2000
            * h,
{
    let exact = -t * w;
    let off = v * one - exact;
    let rate = 2000 * w - 3 * one;
    let f = crate::number::error::far(t);
    crate::number::error::lemma_far_times(-t, w);
    crate::number::error::lemma_far_times(-t, rate);
    crate::number::error::lemma_far_times(2000 * v + 3 * t, one);
    assert((2000 * v + 3 * t) * one == 2000 * off + (-t) * rate) by (nonlinear_arith)
        requires
            off == v * one - exact,
            exact == -t * w,
            rate == 2000 * w - 3 * one,
    ;
    let fo = crate::number::error::far(off);
    let fr = crate::number::error::far(rate);
    let got = crate::number::error::far(2000 * v + 3 * t);
    assert(got * one <= 2000 * fo + f * fr);
    assert(2000 * (h * fo) <= f * (4 * one) + 2000 * (h * one)) by (nonlinear_arith)
        requires
            h * fo <= f * w + h * one,
            2000 * w <= 4 * one,
            f >= 0,
    ;
    assert(h * (f * fr) <= f * (4 * one)) by (nonlinear_arith)
        requires
            h * fr <= 3 * one + 2000 * h,
            one >= 2000 * h,
            f >= 0,
    ;
    assert(h * (got * one) <= f * (8 * one) + 2000 * (h * one)) by (nonlinear_arith)
        requires
            got * one <= 2000 * fo + f * fr,
            2000 * (h * fo) <= f * (4 * one) + 2000 * (h * one),
            h * (f * fr) <= f * (4 * one),
            h >= 1,
    ;
    assert(h * got <= 8 * f + 2000 * h) by (nonlinear_arith)
        requires
            h * (got * one) <= f * (8 * one) + 2000 * (h * one),
            one >= 1,
    ;
}

/// A travel past all numbers asks for a zoom past all numbers, the other way; one that is not
/// a number asks for none.
pub proof fn law_wheel_exponent_of_no_number(travel: Scalar)
    ensures
        travel.infinite() ==> wheel_exponent(travel).infinite() && wheel_exponent(
            travel,
        ).negative() == !travel.negative(),
        travel.is_nan() ==> wheel_exponent(travel).is_nan(),
{
    let one = crate::number::rounding::one_in_units() as int;
    crate::number::rounding::lemma_two_to_positive(UNIT_EXPONENT as nat);
    let q = Scalar::ratio(3, 2000);
    let w = lemma_wheel_rate();
    crate::number::exact::lemma_negated(travel);
    crate::number::arithmetic::lemma_zero_units(q.magnitude());
    crate::number::exact::lemma_pack(!travel.negative(), INFINITE as nat);
    assert(Scalar::nan().is_nan());
}

/// A wheel that is turned further zooms no less far: the exponent falls as the travel grows.
pub proof fn law_wheel_exponent_falls(less: Scalar, more: Scalar)
    requires
        less.finite(),
        more.finite(),
        0 <= less.value() <= more.value(),
    ensures
        wheel_exponent(more).value() <= wheel_exponent(less).value() <= 0,
{
    let one = crate::number::rounding::one_in_units() as int;
    crate::number::rounding::lemma_two_to_positive(UNIT_EXPONENT as nat);
    let w = lemma_wheel_rate();
    law_wheel_exponent_opposes_the_travel(less);
    law_wheel_exponent_opposes_the_travel(more);
    crate::number::exact::lemma_negated(less);
    crate::number::exact::lemma_negated(more);
    crate::number::arithmetic::lemma_zero_units(less.magnitude());
    crate::number::arithmetic::lemma_zero_units(more.magnitude());
    let u = less.value();
    let v = more.value();
    let low = crate::number::rounding::fraction(u * w, one);
    let high = crate::number::rounding::fraction(v * w, one);
    let a = crate::number::rounding::nearest(low);
    let b = crate::number::rounding::nearest(high);
    assert(0 <= u * w <= v * w) by (nonlinear_arith)
        requires
            0 <= u <= v,
            0 <= w,
    ;
    crate::number::rounding::lemma_fraction_falling(u * w, one);
    crate::number::rounding::lemma_fraction_falling(v * w, one);
    crate::number::rounding::lemma_nearest(low);
    crate::number::rounding::lemma_nearest(high);
    crate::number::rounding::lemma_nearest_monotone(low, high, a, b);
    if a < b {
        crate::number::rounding::lemma_units_ascend(a, b);
    }
    assert(crate::number::rounding::units(less.magnitude()) == u);
    assert(crate::number::rounding::units(more.magnitude()) == v);
    crate::number::exact::lemma_pack(less.negated().negative(), a);
    crate::number::exact::lemma_pack(more.negated().negative(), b);
    assert(wheel_exponent(less).magnitude() == a);
    assert(wheel_exponent(more).magnitude() == b);
}

/// Whether a number is within two to the power 30.
pub open spec fn moderate(x: Scalar) -> bool {
    x.finite() && crate::number::error::size(crate::number::error::real_of(x)) <= 1073741824real
}

/// `y * (n * s) / s` is `y * n`, up to rounding.
proof fn lemma_travel(y: Scalar, n: Scalar, s: Scalar)
    requires
        moderate(y),
        moderate(n),
        s.finite(),
        s.value() > 0,
        crate::canvas::anchor_laws::steady(crate::number::error::real_of(s)),
    ensures
        ({
            let got = crate::number::error::real_of(y.times(n.times(s)).over(s));
            let exact = crate::number::error::real_of(y) * crate::number::error::real_of(n);
            &&& y.times(n.times(s)).over(s).finite()
            &&& crate::number::error::size(got - exact) <= 4real * crate::number::error::grain()
                * crate::number::error::size(exact) + 1125899906842624real
                * crate::number::error::dust()
        }),
{
    let u = crate::number::error::grain();
    let t = crate::number::error::dust();
    crate::number::error::lemma_grain();
    let ry = crate::number::error::real_of(y);
    let rn = crate::number::error::real_of(n);
    let rs = crate::number::error::real_of(s);
    crate::number::error::lemma_real_of(s);
    let one = crate::number::rounding::one_in_units() as real;
    assert(rs > 0real) by (nonlinear_arith)
        requires
            rs * one == s.value() as real,
            s.value() as real > 0real,
            one >= 1real,
    ;
    crate::number::error::lemma_size_times(rn, rs);
    let sn = crate::number::error::size(rn);
    let sy = crate::number::error::size(ry);
    assert(sn * rs <= 281474976710656real) by (nonlinear_arith)
        requires
            sn <= 1073741824real,
            rs <= 262144real,
            sn >= 0real,
            rs >= 0real,
    ;
    crate::number::error::lemma_real_product(n, s);
    let ns = n.times(s);
    let rns = crate::number::error::real_of(ns);
    assert(u * (sn * rs) <= sn * rs && t <= 1real) by (nonlinear_arith)
        requires
            u * 4503599627370496real == 1real,
            t * 1208925819614629174706176real <= u,
            t > 0real,
            sn * rs >= 0real,
    ;
    let z = crate::number::error::size(rns);
    assert(z <= 1000000000000000real);
    crate::number::error::lemma_size_times(ry, rns);
    assert(sy * z <= 1200000000000000000000000real) by (nonlinear_arith)
        requires
            sy <= 1073741824real,
            z <= 1000000000000000real,
            sy >= 0real,
            z >= 0real,
    ;
    crate::number::error::lemma_real_product(y, ns);
    let p = y.times(ns);
    let rp = crate::number::error::real_of(p);
    let sp = crate::number::error::size(rp);
    assert(u * (sy * z) <= sy * z) by (nonlinear_arith)
        requires
            u * 4503599627370496real == 1real,
            sy * z >= 0real,
    ;
    assert(sp <= crate::number::error::wide() * crate::number::error::size(rs)) by (nonlinear_arith)
        requires
            sp <= 3000000000000000000000000real,
            1real <= 262144real * rs,
            crate::number::error::size(rs) == rs,
            crate::number::error::wide() == 1267650600228229401496703205376real,
    ;
    crate::number::error::lemma_real_quotient(p, s);
    let r = crate::number::error::real_of(p.over(s));
    lemma_travel_real(ry, rn, rs, rns, rp, r, u, t);
}

proof fn lemma_travel_real(
    y: real,
    n: real,
    s: real,
    ns: real,
    p: real,
    r: real,
    u: real,
    t: real,
)
    requires
        u * 4503599627370496real == 1real,
        t * 1208925819614629174706176real <= u,
        t > 0real,
        s > 0real,
        1real <= 262144real * s,
        s <= 262144real,
        crate::number::error::size(y) <= 1073741824real,
        crate::number::error::size(ns - n * s) <= u * crate::number::error::size(n * s) + t,
        crate::number::error::size(p - y * ns) <= u * crate::number::error::size(y * ns) + t,
        crate::number::error::size(r * s - p) <= u * crate::number::error::size(p) + t * s,
    ensures
        crate::number::error::size(r - y * n) <= 4real * u * crate::number::error::size(y * n)
            + 1125899906842624real * t,
{
    let x = y * n;
    let a = crate::number::error::size(x);
    let sy = crate::number::error::size(y);
    let d = ns - n * s;
    let e = p - y * ns;
    let f = r * s - p;
    crate::number::error::lemma_size_times(y, d);
    crate::number::error::lemma_size_times(n, s);
    crate::number::error::lemma_size_times(y, n);
    let sn = crate::number::error::size(n);
    let yd = y * d;
    assert(crate::number::error::size(yd) <= u * (a * s) + t * sy) by (nonlinear_arith)
        requires
            crate::number::error::size(yd) == sy * crate::number::error::size(d),
            crate::number::error::size(d) <= u * (sn * s) + t,
            a == sy * sn,
            sy >= 0real,
    ;
    assert(y * ns == x * s + yd) by (nonlinear_arith)
        requires
            x == y * n,
            yd == y * d,
            d == ns - n * s,
    ;
    assert(crate::number::error::size(x * s) == a * s) by {
        crate::number::error::lemma_size_times(x, s);
    }
    let as_ = a * s;
    let ua = u * as_;
    let ty = t * sy;
    assert(0real <= ua <= as_ / 1000000real && 0real <= ty && u <= 1real / 1000000real)
        by (nonlinear_arith)
        requires
            ua == u * as_,
            ty == t * sy,
            u * 4503599627370496real == 1real,
            as_ >= 0real,
            t > 0real,
            sy >= 0real,
            as_ == a * s,
    ;
    let sq = crate::number::error::size(y * ns);
    assert(sq <= as_ + ua + ty);
    assert(u * sq <= ua + (ua + ty) / 1000000real) by (nonlinear_arith)
        requires
            0real <= sq <= as_ + ua + ty,
            ua == u * as_,
            0real < u,
            u <= 1real / 1000000real,
            ua >= 0real,
            ty >= 0real,
    ;
    let sp = crate::number::error::size(p);
    assert(sp <= as_ + 3real * ua + 2real * ty + t);
    assert(u * sp <= ua + (3real * ua + 2real * ty + t) / 1000000real) by (nonlinear_arith)
        requires
            0real <= sp <= as_ + 3real * ua + 2real * ty + t,
            ua == u * as_,
            0real < u,
            u <= 1real / 1000000real,
            ua >= 0real,
            ty >= 0real,
            t > 0real,
    ;
    let ts = t * s;
    assert(crate::number::error::size(r * s - x * s) <= 4real * ua + 2real * ty + 2real * t + ts);
    assert((r - x) * s == r * s - x * s) by (nonlinear_arith);
    crate::number::error::lemma_size_times(r - x, s);
    let g = crate::number::error::size(r - x);
    assert(g <= 4real * (u * a) + 1125899906842624real * t) by (nonlinear_arith)
        requires
            g * s <= 4real * ua + 2real * ty + 2real * t + ts,
            ua == u * as_,
            as_ == a * s,
            ty == t * sy,
            ts == t * s,
            0real <= sy <= 1073741824real,
            1real <= 262144real * s,
            s > 0real,
            t > 0real,
    ;
    assert(4real * (u * a) == 4real * u * a) by (nonlinear_arith);
}

/// How far the wheel moved, in logical pixels: a page is the height of the viewport, a line
/// is 120 pixels, and physical pixels are as many to a logical one as the scale factor says,
/// each up to rounding.
pub proof fn law_wheel_travel_is_in_logical_pixels(
    layer: LayerState,
    y: Scalar,
    scale_factor: Scalar,
)
    requires
        moderate(y),
        moderate(layer.viewport.height),
        scale_factor.finite(),
        scale_factor.value() > 0,
        crate::canvas::anchor_laws::steady(crate::number::error::real_of(scale_factor)),
    ensures
        ({
            let turned = crate::number::error::real_of(y);
            let tall = crate::number::error::real_of(layer.viewport.height);
            let scale = crate::number::error::real_of(scale_factor);
            let u = crate::number::error::grain();
            let tiny = 1125899906842624real * crate::number::error::dust();
            let page = crate::number::error::real_of(
                layer.travelled(ScrollDelta::Page(y), scale_factor),
            );
            let line = crate::number::error::real_of(
                layer.travelled(ScrollDelta::Line(y), scale_factor),
            );
            let pixel = crate::number::error::real_of(
                layer.travelled(ScrollDelta::Pixel(y), scale_factor),
            );
            &&& crate::number::error::size(page - turned * tall) <= 4real * u
                * crate::number::error::size(turned * tall) + tiny
            &&& crate::number::error::size(line - turned * 120real) <= 4real * u
                * crate::number::error::size(turned * 120real) + tiny
            &&& crate::number::error::size(pixel * scale - turned) <= u
                * crate::number::error::size(turned) + tiny
        }),
{
    let u = crate::number::error::grain();
    let t = crate::number::error::dust();
    crate::number::error::lemma_grain();
    crate::number::error::lemma_real_whole(120);
    lemma_travel(y, layer.viewport.height, scale_factor);
    lemma_travel(y, Scalar::from_whole(120), scale_factor);
    let rs = crate::number::error::size(crate::number::error::real_of(scale_factor));
    let ry = crate::number::error::size(crate::number::error::real_of(y));
    assert(ry <= crate::number::error::wide() * rs && t * rs <= 1125899906842624real * t)
        by (nonlinear_arith)
        requires
            ry <= 1073741824real,
            1real <= 262144real * rs,
            rs <= 262144real,
            t > 0real,
            crate::number::error::wide() == 1267650600228229401496703205376real,
    ;
    crate::number::error::lemma_real_quotient(y, scale_factor);
}

/// Errors as small as rounding makes them.
spec fn tiny(u: real, t: real) -> bool {
    &&& u * 4503599627370496real == 1real
    &&& t * 1208925819614629174706176real <= u
    &&& t > 0real
}

/// The zoom factor of a view is the length of what it makes of a horizontal unit: its square
/// is the sum of the squares of the first two coefficients, up to rounding.
pub proof fn law_zoom_is_the_length_of_a_unit(layer: LayerState)
    requires
        layer.view.a.finite(),
        layer.view.b.finite(),
        crate::canvas::anchor_laws::steady(crate::number::error::real_of(layer.view.a)),
        crate::number::error::size(crate::number::error::real_of(layer.view.b)) <= 262144real,
    ensures
        ({
            let a = crate::number::error::real_of(layer.view.a);
            let b = crate::number::error::real_of(layer.view.b);
            let zoom = crate::number::error::real_of(layer.zoom());
            &&& layer.zoom().finite()
            &&& zoom > 0real
            &&& crate::number::error::size(zoom * zoom - (a * a + b * b)) <= 6real
                * crate::number::error::grain() * (a * a + b * b)
        }),
{
    let u = crate::number::error::grain();
    let t = crate::number::error::dust();
    crate::number::error::lemma_grain();
    let va = layer.view.a;
    let vb = layer.view.b;
    let a = crate::number::error::real_of(va);
    let b = crate::number::error::real_of(vb);
    let aa = a * a;
    let bb = b * b;
    assert(0real <= aa <= 68719476736real && 1real <= 68719476736real * aa) by (nonlinear_arith)
        requires
            aa == a * a,
            1real <= 262144real * crate::number::error::size(a),
            crate::number::error::size(a) <= 262144real,
            crate::number::error::size(a) == (if a < 0real {
                -a
            } else {
                a
            }),
    ;
    assert(0real <= bb <= 68719476736real) by (nonlinear_arith)
        requires
            bb == b * b,
            crate::number::error::size(b) <= 262144real,
            crate::number::error::size(b) == (if b < 0real {
                -b
            } else {
                b
            }),
    ;
    crate::number::error::lemma_real_product(va, va);
    crate::number::error::lemma_real_product(vb, vb);
    let sa = crate::number::error::real_of(va.times(va));
    let sb = crate::number::error::real_of(vb.times(vb));
    let q = aa + bb;
    let uq = u * q;
    assert(u * aa + u * bb == uq && t * 2real <= uq / 1000real && uq <= q / 1000real && t <= 1real)
        by (nonlinear_arith)
        requires
            uq == u * q,
            q == aa + bb,
            1real <= 68719476736real * aa,
            bb >= 0real,
            u * 4503599627370496real == 1real,
            t * 1208925819614629174706176real <= u,
            t > 0real,
    ;
    crate::number::error::lemma_real_sum(va.times(va), vb.times(vb));
    let sum = va.times(va).plus(vb.times(vb));
    let s = crate::number::error::real_of(sum);
    let both = crate::number::error::size(sa + sb);
    assert(both <= 2real * q);
    assert(u * both <= uq + (uq + 2real * t) / 1000real) by (nonlinear_arith)
        requires
            both <= q + uq + 2real * t,
            both >= 0real,
            uq == u * q,
            u * 4503599627370496real == 1real,
            uq >= 0real,
            t > 0real,
    ;
    assert(crate::number::error::size(s - q) <= 3real * uq);
    assert(s > 0real);
    crate::number::error::lemma_real_order(Scalar::zero(), sum);
    crate::number::error::lemma_real_of(Scalar::zero());
    crate::number::exact::lemma_unit_interval();
    crate::number::error::lemma_real_root(sum);
    let z = crate::number::error::real_of(layer.zoom());
    let zz = z * z;
    assert(zz >= 0real) by (nonlinear_arith)
        requires
            zz == z * z,
    ;
    assert(zz <= 2real * q) by (nonlinear_arith)
        requires
            crate::number::error::size(zz - s) <= 2real * u * zz,
            zz - s <= crate::number::error::size(zz - s),
            s <= q + 3real * uq,
            uq <= q / 1000real,
            u * 4503599627370496real == 1real,
            zz >= 0real,
    {
        assert(2real * u * zz <= zz / 1000real);
    }
    assert(2real * u * zz <= 2real * uq + uq / 2real) by (nonlinear_arith)
        requires
            crate::number::error::size(zz - s) <= 2real * u * zz,
            zz - s <= crate::number::error::size(zz - s),
            s <= q + 3real * uq,
            uq == u * q,
            uq <= q / 1000real,
            u * 4503599627370496real == 1real,
            zz >= 0real,
            zz <= 2real * q,
    {
        assert(2real * u * zz <= 4real * uq);
        assert(zz <= q + 7real * uq);
        assert(u * zz <= uq + 7real * (u * uq));
        assert(u * uq <= uq / 1000real);
    }
    assert(6real * uq == 6real * u * q) by (nonlinear_arith)
        requires
            uq == u * q,
    ;
}

/// The same for a straight view: its zoom factor is its scale.
proof fn lemma_straight_zoom(layer: LayerState)
    requires
        crate::canvas::anchor_laws::straight(layer.view),
        layer.view.a.value() > 0,
    ensures
        layer.zoom().finite(),
        ({
            let a = crate::number::error::real_of(layer.view.a);
            let z = crate::number::error::real_of(layer.zoom());
            &&& a > 0real
            &&& z > 0real
            &&& crate::number::error::size(z - a) <= 6real * (crate::number::error::grain() * a)
        }),
{
    let u = crate::number::error::grain();
    crate::number::error::lemma_grain();
    crate::number::error::lemma_real_of(layer.view.b);
    law_zoom_is_the_length_of_a_unit(layer);
    let a = crate::number::error::real_of(layer.view.a);
    let b = crate::number::error::real_of(layer.view.b);
    let z = crate::number::error::real_of(layer.zoom());
    crate::number::error::lemma_real_order(Scalar::zero(), layer.view.a);
    crate::number::error::lemma_real_of(Scalar::zero());
    crate::number::exact::lemma_unit_interval();
    assert(b * b == 0real) by (nonlinear_arith)
        requires
            b == 0real,
    ;
    let d = z - a;
    assert(z * z - a * a == d * (z + a)) by (nonlinear_arith)
        requires
            d == z - a,
    ;
    crate::number::error::lemma_size_times(d, z + a);
    let sd = crate::number::error::size(d);
    assert(sd <= 6real * (u * a)) by (nonlinear_arith)
        requires
            sd * (z + a) <= 6real * u * (a * a),
            z > 0real,
            a > 0real,
            sd >= 0real,
            u > 0real,
    {
        assert(sd * a <= 6real * (u * a) * a);
    }
}

/// A real number kept from `low` to `high`.
pub open spec fn kept(x: real, low: real, high: real) -> real {
    if x < low {
        low
    } else if high < x {
        high
    } else {
        x
    }
}

/// What zooming a straight view by `factor` aims at: that many times its scale, kept within
/// the limits.
pub open spec fn zoom_goal(layer: LayerState, factor: Scalar) -> real {
    kept(
        crate::number::error::real_of(layer.view.a) * crate::number::error::real_of(factor),
        crate::number::error::real_of(layer.zoom_limits.0),
        crate::number::error::real_of(layer.zoom_limits.1),
    )
}

/// Whether a straight view can be zoomed by `factor` with little rounding: the scale, the
/// limits and the factor are positive and moderate.
pub open spec fn zoomable(layer: LayerState, factor: Scalar) -> bool {
    &&& crate::canvas::anchor_laws::straight(layer.view)
    &&& layer.view.a.value() > 0
    &&& limits_are_moderate(layer)
    &&& factor.finite()
    &&& factor.value() > 0
    &&& crate::canvas::anchor_laws::steady(crate::number::error::real_of(factor))
}

proof fn lemma_kept_close(x: real, y: real, low: real, high: real, uy: real)
    requires
        0real < low <= high,
        0real < y,
        crate::number::error::size(x - y) <= uy,
        uy <= y / 1000real,
    ensures
        high < y ==> 1000real * crate::number::error::size(kept(x, low, high) - kept(y, low, high))
            <= 2real * kept(y, low, high),
        crate::number::error::size(kept(x, low, high) - kept(y, low, high)) <= uy,
        y <= high ==> y <= kept(y, low, high),
        high < y && kept(x, low, high) != kept(y, low, high) ==> y <= 2real * high,
{
}

/// How close the factor comes, from the errors of the steps on the way.
///
/// `z` is the zoom, `zf` is `z * f0`, `aim` is that within the limits, `f` is `aim / z`.
proof fn lemma_goal(
    a: real,
    z: real,
    f0: real,
    zf: real,
    low: real,
    high: real,
    f: real,
    u: real,
    t: real,
)
    requires
        tiny(u, t),
        1real <= 262144real * a,
        a <= 262144real,
        1real <= 262144real * f0,
        f0 <= 262144real,
        1real <= 262144real * low,
        low <= high <= 262144real,
        z > 0real,
        crate::number::error::size(z - a) <= 6real * (u * a),
        crate::number::error::size(zf - z * f0) <= u * crate::number::error::size(z * f0) + t,
        crate::number::error::size(f * z - kept(zf, low, high)) <= u * kept(zf, low, high) + t * z,
    ensures
        ({
            let goal = kept(a * f0, low, high);
            &&& crate::number::error::size(f * a - goal) <= 32real * (u * goal)
            &&& low <= goal <= high
        }),
{
    let x = a * f0;
    let goal = kept(x, low, high);
    let aim = kept(zf, low, high);
    let ux = u * x;
    assert(x > 0real && 1real <= 68719476736real * x && ux > 0real && ux <= x / 1000000real && t
        <= ux / 1000real && u <= 1real / 1000000real && u > 0real) by (nonlinear_arith)
        requires
            x == a * f0,
            ux == u * x,
            1real <= 262144real * a,
            1real <= 262144real * f0,
            u * 4503599627370496real == 1real,
            t * 1208925819614629174706176real <= u,
            t > 0real,
    ;
    // What is asked for.
    let d = z - a;
    let df = d * f0;
    assert(z * f0 == x + df) by (nonlinear_arith)
        requires
            x == a * f0,
            df == d * f0,
            d == z - a,
    ;
    crate::number::error::lemma_size_times(d, f0);
    assert(crate::number::error::size(df) <= 6real * ux) by (nonlinear_arith)
        requires
            crate::number::error::size(df) == crate::number::error::size(d) * f0,
            crate::number::error::size(d) <= 6real * (u * a),
            ux == u * x,
            x == a * f0,
            f0 > 0real,
    ;
    let szf = crate::number::error::size(z * f0);
    assert(u * szf <= ux + ux / 1000real) by (nonlinear_arith)
        requires
            0real <= szf <= x + 6real * ux,
            ux == u * x,
            0real < u,
            u <= 1real / 1000000real,
            ux > 0real,
    ;
    let off = 8real * ux;
    assert(crate::number::error::size(zf - x) <= off);
    lemma_kept_close(zf, x, low, high, off);
    let ug = u * goal;
    assert(crate::number::error::size(aim - goal) <= 16real * ug && ug > 0real) by {
        if x <= high {
            assert(ux <= ug) by (nonlinear_arith)
                requires
                    x <= goal,
                    ux == u * x,
                    ug == u * goal,
                    u > 0real,
            ;
        } else {
            assert(goal == high);
            assert(ug > 0real) by (nonlinear_arith)
                requires
                    ug == u * goal,
                    goal > 0real,
                    u > 0real,
            ;
            if aim != goal {
                assert(ux <= 2real * ug) by (nonlinear_arith)
                    requires
                        x <= 2real * goal,
                        ux == u * x,
                        ug == u * goal,
                        u > 0real,
                ;
            }
        }
    }
    // What comes of it.
    let fa = f * a;
    let fz = f * z;
    let fd = f * d;
    assert(fz == fa + fd) by (nonlinear_arith)
        requires
            fz == f * z,
            fa == f * a,
            fd == f * d,
            d == z - a,
    ;
    crate::number::error::lemma_size_times(f, d);
    crate::number::error::lemma_size_times(f, a);
    let sfa = crate::number::error::size(fa);
    let sf = crate::number::error::size(f);
    assert(crate::number::error::size(fd) <= 6real * (u * sfa)) by (nonlinear_arith)
        requires
            crate::number::error::size(fd) == sf * crate::number::error::size(d),
            crate::number::error::size(d) <= 6real * (u * a),
            sfa == sf * a,
            sf >= 0real,
    ;
    let ua = u * aim;
    assert(0real < ua <= aim / 1000000real && ua <= ug + ug / 1000real) by (nonlinear_arith)
        requires
            ua == u * aim,
            ug == u * goal,
            aim > 0real,
            crate::number::error::size(aim - goal) <= 16real * ug,
            aim - goal <= crate::number::error::size(aim - goal),
            0real < u,
            u <= 1real / 1000000real,
            ug > 0real,
    ;
    assert(z <= 2real * a) by (nonlinear_arith)
        requires
            z - a <= 6real * (u * a),
            0real < u,
            u <= 1real / 1000000real,
            a > 0real,
    ;
    assert(t * z <= ua) by (nonlinear_arith)
        requires
            ua == u * aim,
            1real <= 262144real * aim,
            0real < z <= 524288real,
            t * 1208925819614629174706176real <= u,
            t > 0real,
    ;
    assert(6real * (u * sfa) <= sfa / 1000real) by (nonlinear_arith)
        requires
            0real < u,
            u <= 1real / 1000000real,
            sfa >= 0real,
    ;
    assert(sfa <= aim + aim / 100real);
    assert(u * sfa <= ua + ua / 100real) by (nonlinear_arith)
        requires
            sfa <= aim + aim / 100real,
            ua == u * aim,
            u > 0real,
    ;
    assert(crate::number::error::size(fa - aim) <= 9real * ua);
}

/// Whether the zoom limits are positive, in order and moderate.
pub open spec fn limits_are_moderate(layer: LayerState) -> bool {
    &&& layer.zoom_limits.0.finite()
    &&& layer.zoom_limits.1.finite()
    &&& 0 < layer.zoom_limits.0.value() <= layer.zoom_limits.1.value()
    &&& crate::canvas::anchor_laws::steady(crate::number::error::real_of(layer.zoom_limits.0))
    &&& crate::canvas::anchor_laws::steady(crate::number::error::real_of(layer.zoom_limits.1))
}

/// The factor that a view is multiplied by takes a scale `a`, as near to its zoom as rounding
/// lets it, to where it should be.
proof fn lemma_factor_of(layer: LayerState, factor: Scalar, a: real)
    requires
        layer.zoom().finite(),
        crate::number::error::real_of(layer.zoom()) > 0real,
        1real <= 262144real * a,
        a <= 262144real,
        crate::number::error::size(crate::number::error::real_of(layer.zoom()) - a) <= 6real * (
        crate::number::error::grain() * a),
        limits_are_moderate(layer),
        factor.finite(),
        factor.value() > 0,
        crate::canvas::anchor_laws::steady(crate::number::error::real_of(factor)),
    ensures
        layer.limited_factor(factor).finite(),
        ({
            let f = crate::number::error::real_of(layer.limited_factor(factor));
            let goal = kept(
                a * crate::number::error::real_of(factor),
                crate::number::error::real_of(layer.zoom_limits.0),
                crate::number::error::real_of(layer.zoom_limits.1),
            );
            &&& crate::number::error::size(f * a - goal) <= 32real * (
            crate::number::error::grain() * goal)
            &&& crate::number::error::real_of(layer.zoom_limits.0) <= goal
                <= crate::number::error::real_of(layer.zoom_limits.1)
            &&& 1real <= 262144real * goal
            &&& goal <= 262144real
            &&& crate::number::error::size(f) <= 137438953472real
        }),
{
    let u = crate::number::error::grain();
    let t = crate::number::error::dust();
    crate::number::error::lemma_grain();
    let zoom = layer.zoom();
    let z = crate::number::error::real_of(zoom);
    let f0 = crate::number::error::real_of(factor);
    let low = crate::number::error::real_of(layer.zoom_limits.0);
    let high = crate::number::error::real_of(layer.zoom_limits.1);
    let zero = Scalar::zero();
    crate::number::exact::lemma_unit_interval();
    crate::number::error::lemma_real_of(zero);
    crate::number::error::lemma_real_order(zero, factor);
    crate::number::error::lemma_real_order(zero, layer.zoom_limits.0);
    crate::number::error::lemma_real_order(layer.zoom_limits.0, layer.zoom_limits.1);
    crate::number::error::lemma_real_order(zero, zoom);
    assert(0real < z <= 524288real && 1real <= 524288real * z) by (nonlinear_arith)
        requires
            crate::number::error::size(z - a) <= 6real * (u * a),
            z - a <= crate::number::error::size(z - a),
            a - z <= crate::number::error::size(z - a),
            u * 4503599627370496real == 1real,
            1real <= 262144real * a,
            a <= 262144real,
            z > 0real,
    {
        assert(6real * (u * a) <= a / 1000real);
    }
    assert(0real <= z * f0 <= 137438953472real) by (nonlinear_arith)
        requires
            0real < z <= 524288real,
            0real < f0 <= 262144real,
    ;
    crate::number::error::lemma_real_product(zoom, factor);
    let asked = zoom.times(factor);
    let zf = crate::number::error::real_of(asked);
    let aim = asked.clamp(layer.zoom_limits.0, layer.zoom_limits.1);
    crate::number::error::lemma_real_order(asked, layer.zoom_limits.0);
    crate::number::error::lemma_real_order(layer.zoom_limits.1, asked);
    assert(aim.finite());
    assert(crate::number::error::real_of(aim) == kept(zf, low, high));
    let ra = crate::number::error::real_of(aim);
    assert(ra <= crate::number::error::wide() * z) by (nonlinear_arith)
        requires
            ra <= 262144real,
            1real <= 524288real * z,
            crate::number::error::wide() == 1267650600228229401496703205376real,
    ;
    crate::number::error::lemma_real_quotient(aim, zoom);
    let f = crate::number::error::real_of(layer.limited_factor(factor));
    lemma_goal(a, z, f0, zf, low, high, f, u, t);
    let goal = kept(a * f0, low, high);
    lemma_goal_share(u, goal);
    crate::number::error::lemma_size_times(f, a);
    let sf = crate::number::error::size(f);
    assert(sf * a == crate::number::error::size(f * a));
    assert(sf <= 137438953472real) by (nonlinear_arith)
        requires
            sf * a <= 2real * 262144real,
            1real <= 262144real * a,
            sf >= 0real,
    {
        assert(sf <= sf * (262144real * a));
    }
}

/// The same for the scale of a straight view.
proof fn lemma_limited_factor(layer: LayerState, factor: Scalar)
    requires
        zoomable(layer, factor),
    ensures
        layer.limited_factor(factor).finite(),
        ({
            let f = crate::number::error::real_of(layer.limited_factor(factor));
            let a = crate::number::error::real_of(layer.view.a);
            let goal = zoom_goal(layer, factor);
            &&& crate::number::error::size(f * a - goal) <= 32real * (
            crate::number::error::grain() * goal)
            &&& a > 0real
            &&& 1real <= 262144real * goal
            &&& goal <= 262144real
            &&& crate::number::error::size(f) <= 137438953472real
        }),
{
    lemma_straight_zoom(layer);
    lemma_factor_of(layer, factor, crate::number::error::real_of(layer.view.a));
}

proof fn lemma_goal_share(u: real, goal: real)
    requires
        u * 4503599627370496real == 1real,
        goal > 0real,
    ensures
        0real < u * goal,
        u * goal <= goal / 1000000000000real,
{
    assert(0real < u * goal && u * goal <= goal / 1000000000000real) by (nonlinear_arith)
        requires
            u * 4503599627370496real == 1real,
            goal > 0real,
    ;
}

/// Zooming any view multiplies its zoom: the factor that the view is multiplied by takes the
/// zoom to what was asked for, kept within the limits, up to rounding. It comes to nothing
/// only where that is within two billionths of the zoom already, and is carried out only
/// where it is at least a fourth of that away.
pub proof fn law_zoom_of_any_view(layer: LayerState, origin: Point, factor: Scalar)
    requires
        layer.zoom().finite(),
        layer.zoom().value() > 0,
        crate::canvas::anchor_laws::steady(crate::number::error::real_of(layer.zoom())),
        limits_are_moderate(layer),
        factor.finite(),
        factor.value() > 0,
        crate::canvas::anchor_laws::steady(crate::number::error::real_of(factor)),
    ensures
        layer.limited_factor(factor).finite(),
        ({
            let f = crate::number::error::real_of(layer.limited_factor(factor));
            let zoom = crate::number::error::real_of(layer.zoom());
            let goal = kept(
                zoom * crate::number::error::real_of(factor),
                crate::number::error::real_of(layer.zoom_limits.0),
                crate::number::error::real_of(layer.zoom_limits.1),
            );
            let change = crate::number::error::size(goal - zoom);
            &&& crate::number::error::size(f * zoom - goal) <= 32real * (
            crate::number::error::grain() * goal)
            &&& layer.zoomed_view(origin, factor) is None ==> 500000000real * change <= zoom
            &&& layer.zoomed_view(origin, factor) is Some ==> 2000000000real * change >= zoom
        }),
{
    let zoom = crate::number::error::real_of(layer.zoom());
    let u = crate::number::error::grain();
    crate::number::error::lemma_grain();
    crate::number::exact::lemma_unit_interval();
    crate::number::error::lemma_real_of(Scalar::zero());
    crate::number::error::lemma_real_order(Scalar::zero(), layer.zoom());
    assert(u * zoom >= 0real) by (nonlinear_arith)
        requires
            zoom > 0real,
            u * 4503599627370496real == 1real,
    ;
    lemma_factor_of(layer, factor, zoom);
    lemma_change(layer, origin, factor, zoom);
}

/// A zoomed view is the old one with every coefficient multiplied by the factor, and moved so
/// that the point that it is zoomed about stays: each displacement is multiplied like the
/// rest, and what the factor leaves of that point is added.
pub proof fn law_zoom_multiplies_the_view(layer: LayerState, origin: Point, factor: Scalar)
    requires
        layer.zoomed_view(origin, factor) is Some,
        layer.limited_factor(factor).finite(),
        crate::canvas::view_laws::finite_map(layer.view),
        origin.x.finite(),
        origin.y.finite(),
        ({
            let f = layer.limited_factor(factor);
            let v = layer.view;
            &&& f.times(origin.x).finite() && f.times(origin.y).finite()
            &&& f.times(v.a).finite() && f.times(v.b).finite()
            &&& f.times(v.c).finite() && f.times(v.d).finite()
            &&& f.times(v.e).finite() && f.times(v.f).finite()
            &&& origin.x.minus(f.times(origin.x)).finite()
            &&& origin.y.minus(f.times(origin.y)).finite()
        }),
    ensures
        ({
            let f = layer.limited_factor(factor);
            let old = layer.view;
            let view = layer.zoomed_view(origin, factor).unwrap();
            &&& view.a.value() == f.times(old.a).value()
            &&& view.b.value() == f.times(old.b).value()
            &&& view.c.value() == f.times(old.c).value()
            &&& view.d.value() == f.times(old.d).value()
            &&& view.e.value() == f.times(old.e).plus(origin.x.minus(f.times(origin.x))).value()
            &&& view.f.value() == f.times(old.f).plus(origin.y.minus(f.times(origin.y))).value()
        }),
{
    let f = layer.limited_factor(factor);
    let v = layer.view;
    crate::canvas::view_laws::lemma_zoom_step(origin, f);
    let step = LayerState::zoom_step(origin, f);
    crate::number::exact::lemma_times_by_value(step.a, v.a, f, v.a);
    crate::number::exact::lemma_times_by_value(step.d, v.b, f, v.b);
    crate::number::exact::lemma_times_by_value(step.a, v.c, f, v.c);
    crate::number::exact::lemma_times_by_value(step.d, v.d, f, v.d);
    crate::number::exact::lemma_times_by_value(step.a, v.e, f, v.e);
    crate::number::exact::lemma_times_by_value(step.d, v.f, f, v.f);
    crate::canvas::view_laws::lemma_row(step.a, v.a, step.c, v.b);
    crate::canvas::view_laws::lemma_row(step.d, v.b, step.b, v.a);
    crate::canvas::view_laws::lemma_row(step.a, v.c, step.c, v.d);
    crate::canvas::view_laws::lemma_row(step.d, v.d, step.b, v.c);
    crate::canvas::view_laws::lemma_row(step.a, v.e, step.c, v.f);
    crate::canvas::view_laws::lemma_row(step.d, v.f, step.b, v.e);
    crate::number::exact::lemma_plus_by_value(
        step.a.times(v.e).plus(step.c.times(v.f)),
        step.e,
        f.times(v.e),
        origin.x.minus(f.times(origin.x)),
    );
    crate::number::exact::lemma_plus_by_value(
        step.b.times(v.e).plus(step.d.times(v.f)),
        step.f,
        f.times(v.f),
        origin.y.minus(f.times(origin.y)),
    );
}

/// Zooming zooms: it multiplies the scale of a straight view by the factor that was asked
/// for, as far as the limits let it, up to rounding.
pub proof fn law_zoom_reaches_its_goal(layer: LayerState, origin: Point, factor: Scalar)
    requires
        zoomable(layer, factor),
        layer.zoomed_view(origin, factor) is Some,
        origin.x.finite(),
        origin.y.finite(),
        crate::number::error::size(crate::number::error::real_of(origin.x))
            <= crate::canvas::anchor_laws::horizon(),
        crate::number::error::size(crate::number::error::real_of(origin.y))
            <= crate::canvas::anchor_laws::horizon(),
    ensures
        ({
            let view = layer.zoomed_view(origin, factor).unwrap();
            let goal = zoom_goal(layer, factor);
            &&& view.a.finite()
            &&& crate::number::error::size(crate::number::error::real_of(view.a) - goal) <= 64real
                * crate::number::error::grain() * goal
            &&& view.b.value() == 0
            &&& view.c.value() == 0
            &&& layer.view.d.value() == layer.view.a.value() ==> view.d.value() == view.a.value()
        }),
{
    let u = crate::number::error::grain();
    let t = crate::number::error::dust();
    crate::number::error::lemma_grain();
    lemma_limited_factor(layer, factor);
    let limited = layer.limited_factor(factor);
    let f = crate::number::error::real_of(limited);
    let a = crate::number::error::real_of(layer.view.a);
    let goal = zoom_goal(layer, factor);
    lemma_goal_share(u, goal);
    lemma_moderate_product(limited, origin.x, 1099511627776real);
    lemma_moderate_product(limited, origin.y, 1099511627776real);
    lemma_moderate_product(limited, layer.view.a, 1099511627776real);
    lemma_moderate_product(limited, layer.view.d, 1099511627776real);
    crate::canvas::view_laws::law_zoom_keeps_views_straight(layer, origin, factor);
    crate::number::error::lemma_real_product(limited, layer.view.a);
    let view = layer.zoomed_view(origin, factor).unwrap();
    let got = limited.times(layer.view.a);
    lemma_zoomed_is_finite(layer, origin, factor);
    crate::number::error::lemma_real_order(view.a, got);
    let fa = f * a;
    let ug = u * goal;
    let sfa = crate::number::error::size(fa);
    assert(u * sfa <= 2real * ug) by (nonlinear_arith)
        requires
            0real <= sfa <= 2real * goal,
            ug == u * goal,
            u * 4503599627370496real == 1real,
    ;
    assert(t <= ug) by (nonlinear_arith)
        requires
            ug == u * goal,
            1real <= 262144real * goal,
            t * 1208925819614629174706176real <= u,
            t > 0real,
    ;
    assert(64real * u * goal == 64real * ug) by (nonlinear_arith)
        requires
            ug == u * goal,
    ;
    if layer.view.d.value() == layer.view.a.value() {
        crate::number::exact::lemma_times_by_value(
            limited,
            layer.view.d,
            limited,
            layer.view.a,
        );
    }
}

/// A factor of a zoom times something within reach.
proof fn lemma_moderate_product(f: Scalar, x: Scalar, reach: real)
    requires
        f.finite(),
        x.finite(),
        crate::number::error::size(crate::number::error::real_of(f)) <= 137438953472real,
        crate::number::error::size(crate::number::error::real_of(x)) <= reach,
        reach <= 1099511627776real,
    ensures
        f.times(x).finite(),
        crate::number::error::size(crate::number::error::real_of(f)
            * crate::number::error::real_of(x)) <= crate::number::error::wide(),
{
    let a = crate::number::error::size(crate::number::error::real_of(f));
    let b = crate::number::error::size(crate::number::error::real_of(x));
    crate::number::error::lemma_size_times(
        crate::number::error::real_of(f),
        crate::number::error::real_of(x),
    );
    assert(a * b <= crate::number::error::wide()) by (nonlinear_arith)
        requires
            0real <= a <= 137438953472real,
            0real <= b <= 1099511627776real,
            crate::number::error::wide() == 1267650600228229401496703205376real,
    ;
    crate::number::error::lemma_real_product(f, x);
}

/// The first coefficient of a zoomed view is a number.
proof fn lemma_zoomed_is_finite(layer: LayerState, origin: Point, factor: Scalar)
    requires
        layer.zoomed_view(origin, factor) is Some,
        layer.limited_factor(factor).finite(),
        crate::canvas::view_laws::finite_map(layer.view),
        layer.view.b.value() == 0,
        layer.view.c.value() == 0,
        origin.x.finite(),
        origin.y.finite(),
        layer.limited_factor(factor).times(origin.x).finite(),
        layer.limited_factor(factor).times(origin.y).finite(),
        layer.limited_factor(factor).times(layer.view.a).finite(),
    ensures
        layer.zoomed_view(origin, factor).unwrap().a.finite(),
{
    let f = layer.limited_factor(factor);
    let v = layer.view;
    crate::canvas::view_laws::lemma_zoom_step(origin, f);
    let step = LayerState::zoom_step(origin, f);
    crate::number::exact::lemma_times_by_value(step.a, v.a, f, v.a);
    crate::canvas::view_laws::lemma_row(step.a, v.a, step.c, v.b);
}

/// A zoom comes to nothing only where it would change next to nothing: where the scale is
/// within two billionths of the goal already. It is carried out only where it changes at
/// least a fourth of that.
pub proof fn law_zoom_is_skipped_where_it_is_tiny(
    layer: LayerState,
    origin: Point,
    factor: Scalar,
)
    requires
        zoomable(layer, factor),
    ensures
        ({
            let a = crate::number::error::real_of(layer.view.a);
            let change = crate::number::error::size(zoom_goal(layer, factor) - a);
            &&& layer.zoomed_view(origin, factor) is None ==> 500000000real * change <= a
            &&& layer.zoomed_view(origin, factor) is Some ==> 2000000000real * change >= a
            &&& layer.zoomed_view(origin, factor) is None ==> layer.zoomed(origin, factor) == layer
        }),
{
    lemma_straight_zoom(layer);
    lemma_change(layer, origin, factor, crate::number::error::real_of(layer.view.a));
}

/// How much a zoom changes a scale `a`, by whether it is carried out.
proof fn lemma_change(layer: LayerState, origin: Point, factor: Scalar, a: real)
    requires
        layer.zoom().finite(),
        crate::number::error::real_of(layer.zoom()) > 0real,
        1real <= 262144real * a,
        a <= 262144real,
        crate::number::error::size(crate::number::error::real_of(layer.zoom()) - a) <= 6real * (
        crate::number::error::grain() * a),
        limits_are_moderate(layer),
        factor.finite(),
        factor.value() > 0,
        crate::canvas::anchor_laws::steady(crate::number::error::real_of(factor)),
    ensures
        ({
            let goal = kept(
                a * crate::number::error::real_of(factor),
                crate::number::error::real_of(layer.zoom_limits.0),
                crate::number::error::real_of(layer.zoom_limits.1),
            );
            let change = crate::number::error::size(goal - a);
            &&& layer.zoomed_view(origin, factor) is None ==> 500000000real * change <= a
            &&& layer.zoomed_view(origin, factor) is Some ==> 2000000000real * change >= a
        }),
{
    let u = crate::number::error::grain();
    let t = crate::number::error::dust();
    crate::number::error::lemma_grain();
    lemma_factor_of(layer, factor, a);
    let limited = layer.limited_factor(factor);
    let f = crate::number::error::real_of(limited);
    let goal = kept(
        a * crate::number::error::real_of(factor),
        crate::number::error::real_of(layer.zoom_limits.0),
        crate::number::error::real_of(layer.zoom_limits.1),
    );
    lemma_goal_share(u, goal);
    lemma_goal_share(u, a);
    let one = Scalar::from_whole(1);
    crate::number::error::lemma_real_whole(1);
    crate::number::exact::lemma_negated(one);
    crate::number::error::lemma_real_negated(one);
    crate::number::error::lemma_real_sum(limited, one.negated());
    let gap = limited.minus(one);
    let g = crate::number::error::real_of(gap);
    let size_g = crate::number::error::real_of(gap.abs());
    assert(size_g == crate::number::error::size(g)) by {
        crate::number::exact::lemma_pack(false, gap.magnitude());
        crate::number::error::lemma_real_of(gap);
        crate::number::error::lemma_real_of(gap.abs());
        let o = crate::number::rounding::one_in_units() as real;
        let v = gap.value() as real;
        let w = gap.abs().value() as real;
        assert(w == (if v < 0real {
            -v
        } else {
            v
        }));
        assert(size_g == (if g < 0real {
            -g
        } else {
            g
        })) by (nonlinear_arith)
            requires
                g * o == v,
                size_g * o == w,
                o >= 1real,
                w == (if v < 0real {
                    -v
                } else {
                    v
                }),
        ;
    }
    crate::number::error::lemma_real_ratio(1, 1_000_000_000);
    crate::number::error::lemma_real_order(gap.abs(), zoom_epsilon());
    let eps = crate::number::error::real_of(zoom_epsilon());
    assert(crate::number::error::size(eps * 1000000000real - 1real) <= 1real / 1000real)
        by (nonlinear_arith)
        requires
            crate::number::error::size(eps * 1000000000real - 1real) <= u * 1real + t
                * 1000000000real,
            u * 4503599627370496real == 1real,
            t * 1208925819614629174706176real <= u,
            t > 0real,
    ;
    let change = f - 1real;
    let c = crate::number::error::size(change);
    assert(crate::number::error::size(g - change) <= c / 1000real + 1real / 1000000000000000real)
        by (nonlinear_arith)
        requires
            crate::number::error::size(g - change) <= u * c + t,
            c >= 0real,
            u * 4503599627370496real == 1real,
            t * 1208925819614629174706176real <= u,
            t > 0real,
    ;
    crate::number::exact::lemma_pack(false, gap.magnitude());
    assert(gap.abs().less(zoom_epsilon()) <==> size_g < eps);
    // In terms of the scale.
    let fa = f * a;
    assert(fa - a == change * a) by (nonlinear_arith)
        requires
            fa == f * a,
            change == f - 1real,
    ;
    crate::number::error::lemma_size_times(change, a);
    let ca = c * a;
    if size_g < eps {
        assert(c <= 11real / 10000000000real);
        assert(ca <= a * (11real / 10000000000real)) by (nonlinear_arith)
            requires
                ca == c * a,
                c <= 11real / 10000000000real,
                a > 0real,
        ;
    } else {
        assert(c >= 9real / 10000000000real);
        assert(ca >= a * (9real / 10000000000real)) by (nonlinear_arith)
            requires
                ca == c * a,
                c >= 9real / 10000000000real,
                a > 0real,
        ;
    }
}

/// Whether `x` is the smallest of four coordinates.
pub open spec fn is_least(x: Scalar, a: Scalar, b: Scalar, c: Scalar, d: Scalar) -> bool {
    &&& x.value() <= a.value() && x.value() <= b.value()
    &&& x.value() <= c.value() && x.value() <= d.value()
    &&& x.value() == a.value() || x.value() == b.value() || x.value() == c.value() || x.value()
        == d.value()
}

/// Whether `x` is the largest of four coordinates.
pub open spec fn is_greatest(x: Scalar, a: Scalar, b: Scalar, c: Scalar, d: Scalar) -> bool {
    &&& a.value() <= x.value() && b.value() <= x.value()
    &&& c.value() <= x.value() && d.value() <= x.value()
    &&& x.value() == a.value() || x.value() == b.value() || x.value() == c.value() || x.value()
        == d.value()
}

/// The whole viewport, in its own coordinates.
pub open spec fn port(layer: LayerState) -> Rect {
    Rect::from_origin_size(Point::origin(), layer.viewport)
}

/// Whether a point is within two to the power 40 pixels of the origin.
pub open spec fn nearby(p: Point) -> bool {
    crate::canvas::node_laws::close(p.x) && crate::canvas::node_laws::close(p.y)
}

/// What is visible is what the viewport shows and a margin around it. The viewport runs from
/// zero to its size; the canvas points of its four corners are visible; and past the
/// outermost of them there is a margin of that share of the distance between the outermost
/// that the overscan says, on all four sides.
pub proof fn law_viewport_and_margin_are_visible(
    layer: LayerState,
    left: Scalar,
    right: Scalar,
    top: Scalar,
    bottom: Scalar,
)
    requires
        layer.viewport.width.finite(),
        layer.viewport.height.finite(),
        layer.viewport.width.value() >= 0,
        layer.viewport.height.value() >= 0,
        layer.overscan.finite(),
        0 <= layer.overscan.value() <= crate::number::rounding::one_in_units(),
        left.finite(),
        right.finite(),
        top.finite(),
        bottom.finite(),
        ({
            let w = port(layer);
            let p = layer.canvas_point(Point { x: w.x0, y: w.y0 });
            let q = layer.canvas_point(Point { x: w.x0, y: w.y1 });
            let r = layer.canvas_point(Point { x: w.x1, y: w.y0 });
            let s = layer.canvas_point(Point { x: w.x1, y: w.y1 });
            &&& nearby(p) && nearby(q) && nearby(r) && nearby(s)
            &&& is_least(left, p.x, q.x, r.x, s.x)
            &&& is_greatest(right, p.x, q.x, r.x, s.x)
            &&& is_least(top, p.y, q.y, r.y, s.y)
            &&& is_greatest(bottom, p.y, q.y, r.y, s.y)
        }),
    ensures
        ({
            let w = port(layer);
            let seen = layer.visible_canvas_rect();
            let share = crate::number::error::real_of(layer.overscan);
            &&& w.x0.value() == 0 && w.y0.value() == 0
            &&& w.x1.value() == layer.viewport.width.value()
            &&& w.y1.value() == layer.viewport.height.value()
            &&& crate::geometry_laws::touches(
                seen,
                layer.canvas_point(Point { x: w.x0, y: w.y0 }),
            )
            &&& crate::geometry_laws::touches(
                seen,
                layer.canvas_point(Point { x: w.x0, y: w.y1 }),
            )
            &&& crate::geometry_laws::touches(
                seen,
                layer.canvas_point(Point { x: w.x1, y: w.y0 }),
            )
            &&& crate::geometry_laws::touches(
                seen,
                layer.canvas_point(Point { x: w.x1, y: w.y1 }),
            )
            &&& crate::canvas::node_laws::has_margin(left, right, seen.x0, seen.x1, share)
            &&& crate::canvas::node_laws::has_margin(top, bottom, seen.y0, seen.y1, share)
        }),
{
    let w = port(layer);
    crate::number::exact::lemma_unit_interval();
    crate::number::exact::lemma_plus_nothing(layer.viewport.width, Scalar::zero());
    crate::number::exact::lemma_plus_nothing(layer.viewport.height, Scalar::zero());
    crate::geometry_laws::law_rect_begins_at_its_origin(Point::origin(), layer.viewport);
    crate::number::error::lemma_grain();
    let share = crate::number::error::real_of(layer.overscan);
    assert(0real <= share <= 1real) by {
        crate::number::error::lemma_real_of(layer.overscan);
        let o = crate::number::rounding::one_in_units() as real;
        let v = layer.overscan.value() as real;
        assert(0real <= share <= 1real) by (nonlinear_arith)
            requires
                share * o == v,
                0real <= v <= o,
                o >= 1real,
        ;
    }
    let inner = layer.view.inverse().bounds_of(w);
    assert(inner.x0.value() == left.value() && inner.x1.value() == right.value());
    assert(inner.y0.value() == top.value() && inner.y1.value() == bottom.value());
    crate::number::error::lemma_real_order(inner.x0, left);
    crate::number::error::lemma_real_order(inner.x1, right);
    crate::number::error::lemma_real_order(inner.y0, top);
    crate::number::error::lemma_real_order(inner.y1, bottom);
    assert(crate::canvas::node_laws::close(inner.x0) && crate::canvas::node_laws::close(inner.x1));
    assert(crate::canvas::node_laws::close(inner.y0) && crate::canvas::node_laws::close(inner.y1));
    crate::canvas::node_laws::lemma_margin(inner.x0, inner.x1, layer.overscan, share);
    crate::canvas::node_laws::lemma_margin(inner.y0, inner.y1, layer.overscan, share);
    lemma_outwards(inner.x0, inner.x1, layer.overscan);
    lemma_outwards(inner.y0, inner.y1, layer.overscan);
}

/// A margin that is not negative moves both ends outwards.
proof fn lemma_outwards(lo: Scalar, hi: Scalar, part: Scalar)
    requires
        crate::canvas::node_laws::close(lo),
        crate::canvas::node_laws::close(hi),
        lo.at_most(hi),
        part.finite(),
        0 <= part.value() <= crate::number::rounding::one_in_units(),
    ensures
        ({
            let by = hi.minus(lo).times(part);
            &&& lo.minus(by).at_most(lo)
            &&& hi.at_most(hi.plus(by))
        }),
{
    crate::number::error::lemma_grain();
    crate::number::exact::lemma_negated(lo);
    crate::number::error::lemma_real_negated(lo);
    crate::number::error::lemma_real_sum(hi, lo.negated());
    crate::number::exact::lemma_plus_nearest(hi, lo.negated());
    crate::number::exact::lemma_nearest_to_order(
        hi.value() - lo.value(),
        hi.value() - lo.value(),
    );
    let length = hi.minus(lo);
    crate::number::exact::lemma_times_shrinks(length, part);
    crate::number::exact::lemma_plus_grows(lo, length.times(part));
    crate::number::exact::lemma_plus_grows(hi, length.times(part));
}

/// A new canvas shows every point where it is, keeps a fiftieth of the viewport as a margin,
/// zooms from a fiftieth to eight times, and waits for its first layout pass with nothing
/// else to do.
pub proof fn law_new_view(p: Point)
    requires
        p.x.finite(),
        p.y.finite(),
    ensures
        ({
            let layer = LayerState::fresh();
            let u = crate::number::error::grain();
            let margin = crate::number::error::real_of(layer.overscan);
            let low = crate::number::error::real_of(layer.zoom_limits.0);
            let high = crate::number::error::real_of(layer.zoom_limits.1);
            &&& layer.view.at(p).x.value() == p.x.value()
            &&& layer.view.at(p).y.value() == p.y.value()
            &&& crate::number::error::size(50real * margin - 1real) <= 2real * u
            &&& layer.overscan.finite() && layer.overscan == default_overscan()
            &&& crate::number::error::size(50real * low - 1real) <= 2real * u
            &&& layer.zoom_limits.0.finite()
            &&& high == 8real
            &&& layer.zoom_limits.1.finite()
            &&& layer.view_dirty
            &&& layer.drag is Idle
            &&& !layer.controls_on_hover
            &&& layer.viewport.width.value() == 0 && layer.viewport.height.value() == 0
            &&& layer.thresholds == crate::canvas::detail::DetailThresholds::usual()
            &&& layer.stats.total == 0 && layer.stats.materialised == 0
            &&& layer.stats.detail is None
            &&& crate::number::error::real_of(layer.stats.zoom) == 1real
            &&& layer.stats.counters.content_layouts == 0
            &&& layer.stats.counters.child_layouts == 0
            &&& layer.stats.counters.composes == 0
            &&& layer.stats.counters.builds == 0
            &&& layer.stats.counters.far_repaints == 0
        }),
{
    crate::geometry_laws::law_identity_moves_nothing(p);
    crate::number::error::lemma_real_ratio(1, 50);
    crate::number::error::lemma_real_whole(8);
    crate::number::error::lemma_real_whole(1);
    crate::number::error::lemma_grain();
    crate::number::exact::lemma_unit_interval();
    let q = crate::number::error::real_of(Scalar::ratio(1, 50));
    let u = crate::number::error::grain();
    let t = crate::number::error::dust();
    assert(q * 50real == 50real * q) by (nonlinear_arith);
    assert(t * 50real <= u) by (nonlinear_arith)
        requires
            t * 1208925819614629174706176real <= u,
            t > 0real,
    ;
}

/// Zoom changes of less than a billionth count as none.
pub proof fn law_zoom_epsilon_is_a_billionth()
    ensures
        zoom_epsilon().finite(),
        crate::number::error::size(
            1000000000real * crate::number::error::real_of(zoom_epsilon()) - 1real,
        ) <= 2real * crate::number::error::grain(),
{
    crate::number::error::lemma_real_ratio(1, 1_000_000_000);
    crate::number::error::lemma_grain();
    let q = crate::number::error::real_of(zoom_epsilon());
    let u = crate::number::error::grain();
    let t = crate::number::error::dust();
    assert(q * 1000000000real == 1000000000real * q) by (nonlinear_arith);
    assert(t * 1000000000real <= u) by (nonlinear_arith)
        requires
            t * 1208925819614629174706176real <= u,
            t > 0real,
    ;
}

/// A view that is stored is the view from then on, and is pushed down with the next layout
/// pass if it is another than before. Nothing else changes.
pub proof fn law_stored_view_is_the_view(layer: LayerState, view: Affine)
    requires
        crate::canvas::view_laws::finite_map(layer.view),
        crate::canvas::view_laws::finite_map(view),
    ensures
        ({
            let after = layer.viewed(view);
            let old = layer.view;
            let kept = old.a.value() == view.a.value() && old.b.value() == view.b.value()
                && old.c.value() == view.c.value() && old.d.value() == view.d.value()
                && old.e.value() == view.e.value() && old.f.value() == view.f.value();
            &&& after.view.a.value() == view.a.value() && after.view.b.value() == view.b.value()
            &&& after.view.c.value() == view.c.value() && after.view.d.value() == view.d.value()
            &&& after.view.e.value() == view.e.value() && after.view.f.value() == view.f.value()
            &&& kept ==> after == layer
            &&& !kept ==> after.view_dirty
            &&& layer.view.same(view) <==> kept
            &&& after == (LayerState { view: after.view, view_dirty: after.view_dirty, ..layer })
        }),
{
}

/// A scale factor is a number no smaller than the smallest normal one, and finite.
pub proof fn law_scale_factors_are_normal(scale: Scalar)
    ensures
        crate::canvas::layer::spec_is_scale_factor(scale) <==> scale.finite() && scale.value()
            >= HIDDEN,
{
    let m = scale.magnitude();
    assert(crate::number::rounding::units(HIDDEN as nat) == HIDDEN) by {
        let h = HIDDEN as nat;
        assert(h % h == 0 && h / h == 1);
        assert(crate::number::rounding::two_to(0) == 1);
        assert((h + 0) * 1 == h);
    }
    if m < HIDDEN {
        crate::number::rounding::lemma_units_ascend(m, HIDDEN as nat);
    } else if m > HIDDEN {
        crate::number::rounding::lemma_units_ascend(HIDDEN as nat, m);
    }
}

} // verus!
