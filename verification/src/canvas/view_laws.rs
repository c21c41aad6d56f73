//! What holds of panning and zooming.

use vstd::prelude::*;

use crate::canvas::layer::{zoom_epsilon, LayerState};
use crate::geometry::{Affine, Point, Vec2};
use crate::number::exact::GRID_REACH;
use crate::number::rounding::{HIDDEN, INFINITE, UNIT_EXPONENT};
use crate::number::scalar::Scalar;

verus! {

/// `p * x + q * y` where the second product is of a zero.
pub proof fn lemma_row(p: Scalar, x: Scalar, q: Scalar, y: Scalar)
    requires
        p.finite(),
        x.finite(),
        q.finite(),
        y.finite(),
        q.value() == 0 || y.value() == 0,
        p.times(x).finite(),
    ensures
        p.times(x).plus(q.times(y)).finite(),
        p.times(x).plus(q.times(y)).value() == p.times(x).value(),
        q.times(y).plus(p.times(x)).finite(),
        q.times(y).plus(p.times(x)).value() == p.times(x).value(),
{
    crate::number::exact::lemma_times_value(q, y);
    crate::number::exact::lemma_plus_nothing(p.times(x), q.times(y));
}

pub open spec fn finite_map(map: Affine) -> bool {
    map.a.finite() && map.b.finite() && map.c.finite() && map.d.finite() && map.e.finite()
        && map.f.finite()
}

/// Panning moves what is seen and does nothing else: the transform keeps its scale and
/// direction, and its displacement grows by the delta.
pub proof fn law_pan_only_moves(layer: LayerState, delta: Vec2)
    requires
        finite_map(layer.view),
        delta.x.finite(),
        delta.y.finite(),
    ensures
        ({
            let view = layer.panned(delta);
            &&& view.a.value() == layer.view.a.value()
            &&& view.b.value() == layer.view.b.value()
            &&& view.c.value() == layer.view.c.value()
            &&& view.d.value() == layer.view.d.value()
            &&& view.e.value() == layer.view.e.plus(delta.x).value()
            &&& view.f.value() == layer.view.f.plus(delta.y).value()
            &&& view.a.finite() && view.b.finite() && view.c.finite() && view.d.finite()
            &&& view.e.finite() == layer.view.e.plus(delta.x).finite()
            &&& view.f.finite() == layer.view.f.plus(delta.y).finite()
        }),
{
    let v = layer.view;
    let one = Scalar::from_whole(1);
    let zero = Scalar::zero();
    crate::number::exact::lemma_from_whole(1);
    crate::number::exact::lemma_unit_interval();
    crate::number::exact::lemma_times_one(v.a);
    crate::number::exact::lemma_times_one(v.b);
    crate::number::exact::lemma_times_one(v.c);
    crate::number::exact::lemma_times_one(v.d);
    crate::number::exact::lemma_times_one(v.e);
    crate::number::exact::lemma_times_one(v.f);
    lemma_row(one, v.a, zero, v.b);
    lemma_row(one, v.b, zero, v.a);
    lemma_row(one, v.c, zero, v.d);
    lemma_row(one, v.d, zero, v.c);
    lemma_row(one, v.e, zero, v.f);
    lemma_row(one, v.f, zero, v.e);
    crate::number::exact::lemma_plus_by_value(
        one.times(v.e).plus(zero.times(v.f)),
        delta.x,
        v.e,
        delta.x,
    );
    crate::number::exact::lemma_plus_by_value(
        zero.times(v.e).plus(one.times(v.f)),
        delta.y,
        v.f,
        delta.y,
    );
}

/// Zooming aims at a zoom within the limits, whatever factor is asked for.
pub proof fn law_zoom_aims_within_limits(layer: LayerState, factor: Scalar)
    requires
        layer.zoom_limits.0.at_most(layer.zoom_limits.1),
        !layer.zoom().times(factor).is_nan(),
    ensures
        ({
            let aim = layer.zoom().times(factor).clamp(layer.zoom_limits.0, layer.zoom_limits.1);
            &&& layer.zoom_limits.0.at_most(aim)
            &&& aim.at_most(layer.zoom_limits.1)
            &&& layer.limited_factor(factor) == aim.over(layer.zoom())
        }),
{
}

/// Zooming past a limit from that limit does nothing.
pub proof fn law_zoom_stops_at_the_limits(layer: LayerState, origin: Point, factor: Scalar)
    requires
        layer.zoom_limits.0.at_most(layer.zoom_limits.1),
        layer.zoom().finite(),
        layer.zoom().value() > 0,
        layer.zoom_limits.0.finite(),
        layer.zoom_limits.1.finite(),
        (layer.zoom().same(layer.zoom_limits.1) && layer.zoom_limits.1.at_most(
            layer.zoom().times(factor),
        )) || (layer.zoom().same(layer.zoom_limits.0) && layer.zoom().times(factor).at_most(
            layer.zoom_limits.0,
        )),
    ensures
        layer.zoomed_view(origin, factor) is None,
        layer.zoomed(origin, factor) == layer,
{
    let zoom = layer.zoom();
    let one = crate::number::rounding::one_in_units() as int;
    let aim = zoom.times(factor).clamp(layer.zoom_limits.0, layer.zoom_limits.1);
    assert(aim.value() == zoom.value());
    assert(aim.finite()) by {
        if aim.magnitude() >= INFINITE {
            crate::number::arithmetic::lemma_zero_units(aim.magnitude());
            crate::number::rounding::lemma_units_ascend(zoom.magnitude(), aim.magnitude());
        }
    }
    crate::number::exact::lemma_over_same(aim, zoom);
    let ratio = layer.limited_factor(factor);
    let unit = Scalar::from_whole(1);
    crate::number::exact::lemma_from_whole(1);
    assert(1 * one == one);
    crate::number::exact::lemma_close_difference(ratio, unit);
    let gap = ratio.minus(unit);
    crate::number::arithmetic::lemma_zero_units(gap.magnitude());
    assert(gap.abs().value() == 0) by {
        assert(gap.magnitude() == 0);
    }
    lemma_epsilon();
}

/// The smallest zoom change that counts is more than nothing.
proof fn lemma_epsilon()
    ensures
        zoom_epsilon().finite(),
        zoom_epsilon().value() > 0,
{
    crate::number::exact::lemma_ratio_at_most(1, 1_000_000_000, 1);
    let one = crate::number::rounding::one_in_units() as int;
    let n = Scalar::from_whole(1);
    let d = Scalar::from_whole(1_000_000_000);
    crate::number::exact::lemma_from_whole(1);
    crate::number::exact::lemma_from_whole(1_000_000_000);
    crate::number::rounding::lemma_two_to_positive(UNIT_EXPONENT as nat);
    let eps = zoom_epsilon();
    crate::number::arithmetic::lemma_zero_units(d.magnitude());
    crate::number::arithmetic::lemma_zero_units(eps.magnitude());
    assert(1 * one == one);
    if eps.magnitude() == 0 {
        // A billionth is more than half of the smallest number.
        let cut = crate::number::rounding::fraction(one * one, 1_000_000_000 * one);
        crate::number::rounding::lemma_nearest(cut);
        let mag = crate::number::rounding::nearest(cut);
        assert(eps == Scalar::pack(false, mag));
        assert(mag == 0);
        let edge = crate::number::rounding::upper_edge(0);
        assert(edge == 1) by {
            assert(crate::number::rounding::units(0) == 0);
            assert(crate::number::rounding::units(1) == 1);
        }
        assert(cut(edge) == 2 * (one * one) - (1_000_000_000 * one) * 1);
        assert(one >= 1_000_000_000) by {
            crate::number::rounding::lemma_two_to_adds(1044, 30);
            crate::number::rounding::lemma_two_to_positive(1044);
            assert(crate::number::rounding::two_to(30) == 0x4000_0000) by {
                reveal_with_fuel(crate::number::rounding::two_to, 31);
            }
            let k = crate::number::rounding::two_to(1044) as int;
            assert(k * 0x4000_0000 >= 0x4000_0000) by (nonlinear_arith)
                requires
                    k >= 1,
            ;
        }
        assert(2 * (one * one) > (1_000_000_000 * one) * 1) by (nonlinear_arith)
            requires
                one >= 1_000_000_000,
        ;
    }
}

/// The coefficients of a zoom step.
pub proof fn lemma_zoom_step(o: Point, f: Scalar)
    requires
        o.x.finite(),
        o.y.finite(),
        f.finite(),
        f.times(o.x).finite(),
        f.times(o.y).finite(),
    ensures
        ({
            let step = LayerState::zoom_step(o, f);
            &&& step.a.finite() && step.a.value() == f.value()
            &&& step.d.finite() && step.d.value() == f.value()
            &&& step.b.finite() && step.b.value() == 0
            &&& step.c.finite() && step.c.value() == 0
            &&& step.e.value() == o.x.minus(f.times(o.x)).value()
            &&& step.e.finite() == o.x.minus(f.times(o.x)).finite()
            &&& step.f.value() == o.y.minus(f.times(o.y)).value()
            &&& step.f.finite() == o.y.minus(f.times(o.y)).finite()
        }),
{
    let one = Scalar::from_whole(1);
    let zero = Scalar::zero();
    crate::number::exact::lemma_from_whole(1);
    crate::number::exact::lemma_unit_interval();
    crate::number::exact::lemma_times_one(f);
    crate::number::exact::lemma_times_one(zero);
    let to = Affine::translate(Vec2 { x: o.x, y: o.y });
    let back = Affine::translate(Vec2 { x: o.x.negated(), y: o.y.negated() });
    let scale = Affine::scale(f);
    // The first product.
    let half = to.after(scale);
    lemma_row(one, f, zero, zero);
    lemma_row(one, zero, zero, f);
    lemma_row(one, zero, zero, zero);
    crate::number::exact::lemma_plus_nothing(
        o.x,
        one.times(zero).plus(zero.times(zero)),
    );
    crate::number::exact::lemma_plus_nothing(
        o.y,
        zero.times(zero).plus(one.times(zero)),
    );
    assert(half.a.finite() && half.a.value() == f.value());
    assert(half.d.finite() && half.d.value() == f.value());
    assert(half.b.finite() && half.b.value() == 0);
    assert(half.c.finite() && half.c.value() == 0);
    assert(half.e.finite() && half.e.value() == o.x.value());
    assert(half.f.finite() && half.f.value() == o.y.value());
    // The second.
    crate::number::exact::lemma_times_one(half.a);
    crate::number::exact::lemma_times_one(half.d);
    crate::number::exact::lemma_times_one(half.b);
    crate::number::exact::lemma_times_one(half.c);
    lemma_row(half.a, one, half.c, zero);
    lemma_row(half.b, one, half.d, zero);
    lemma_row(half.c, one, half.a, zero);
    lemma_row(half.d, one, half.b, zero);
    lemma_displacement(half.a, f, o.x, half.c, o.y, half.e);
    lemma_displacement(half.d, f, o.y, half.b, o.x, half.f);
}

/// `a * -x + 0 * -y + e`, where `a` is `f` and `e` is `x`.
proof fn lemma_displacement(a: Scalar, f: Scalar, x: Scalar, q: Scalar, y: Scalar, e: Scalar)
    requires
        a.finite(),
        f.finite(),
        x.finite(),
        q.finite(),
        y.finite(),
        e.finite(),
        a.value() == f.value(),
        q.value() == 0,
        e.value() == x.value(),
        f.times(x).finite(),
    ensures
        ({
            let sum = a.times(x.negated()).plus(q.times(y.negated())).plus(e);
            let mirrored = q.times(y.negated()).plus(a.times(x.negated())).plus(e);
            &&& sum.value() == x.minus(f.times(x)).value()
            &&& sum.finite() == x.minus(f.times(x)).finite()
            &&& mirrored.value() == x.minus(f.times(x)).value()
            &&& mirrored.finite() == x.minus(f.times(x)).finite()
        }),
{
    crate::number::exact::lemma_negated(x);
    crate::number::exact::lemma_negated(y);
    crate::number::exact::lemma_times_by_value(a, x.negated(), f, x.negated());
    crate::number::exact::lemma_times_negated(f, x);
    lemma_row(a, x.negated(), q, y.negated());
    let r = f.times(x);
    crate::number::exact::lemma_negated(r);
    let sum = a.times(x.negated()).plus(q.times(y.negated()));
    let mirrored = q.times(y.negated()).plus(a.times(x.negated()));
    crate::number::exact::lemma_plus_nearest(sum, e);
    crate::number::exact::lemma_plus_nearest(mirrored, e);
    crate::number::exact::lemma_plus_nearest(x, r.negated());
}

/// A factor from a half to two takes a number to no less than half and no more than twice
/// itself, or to something tiny.
proof fn lemma_factor_close(x: Scalar, f: Scalar)
    requires
        x.finite(),
        f.finite(),
        f.times(x).finite(),
        crate::number::rounding::one_in_units() <= 2 * f.value(),
        f.value() <= 2 * crate::number::rounding::one_in_units(),
    ensures
        x.minus(f.times(x)).finite(),
        x.minus(f.times(x)).value() == x.value() - f.times(x).value(),
{
    let one = crate::number::rounding::one_in_units() as int;
    crate::number::rounding::lemma_two_to_positive(UNIT_EXPONENT as nat);
    let u = crate::number::rounding::units(x.magnitude()) as int;
    let v = f.value();
    crate::number::arithmetic::lemma_zero_units(f.magnitude());
    crate::number::arithmetic::lemma_zero_units(x.magnitude());
    let r = f.times(x);
    let cut = crate::number::rounding::fraction(v * u, one);
    crate::number::exact::lemma_times_value(f, x);
    crate::number::rounding::lemma_nearest(cut);
    let m = crate::number::rounding::nearest(cut);
    let w = crate::number::rounding::units(r.magnitude()) as int;
    assert(w == crate::number::rounding::units(m));
    crate::number::arithmetic::lemma_zero_units(r.magnitude());
    assert(r.magnitude() == m) by {
        if r.magnitude() < m {
            crate::number::rounding::lemma_units_ascend(r.magnitude(), m);
        } else if m < r.magnitude() {
            crate::number::rounding::lemma_units_ascend(m, r.magnitude());
        }
    }
    assert(v * u >= 0) by (nonlinear_arith)
        requires
            v >= 0,
            u >= 0,
    ;
    assert(v * u <= one * (2 * u)) by (nonlinear_arith)
        requires
            v <= 2 * one,
            u >= 0,
    ;
    assert(2 * (v * u) >= one * u) by (nonlinear_arith)
        requires
            2 * v >= one,
            u >= 0,
    ;
    crate::number::rounding::lemma_fraction_falling(v * u, one);
    // No more than twice.
    assert(w <= 2 * u) by {
        lemma_double(x);
        let top = choose|top: nat| #[trigger]
            crate::number::rounding::units(top) == 2 * u && top <= INFINITE + HIDDEN;
        if top <= INFINITE {
            crate::number::exact::lemma_rounds_below(v * u, one, m, top);
        } else {
            crate::number::rounding::lemma_units_ascend(m, top);
        }
    }
    if u < GRID_REACH {
        // Both are small enough for any difference to be exact.
        crate::number::rounding::lemma_two_to_positive(0);
        assert(crate::number::rounding::two_to(0) == 1);
        assert(r.value() == w || r.value() == -w);
        assert(x.value() % 1 == 0 && r.value() % 1 == 0);
        crate::number::exact::lemma_grid_minus(x, r, 0);
    } else {
        assert(2 * w >= u) by {
            let half = lemma_halve(x);
            let t = crate::number::rounding::units(half) as int;
            assert(one * t <= v * u) by (nonlinear_arith)
                requires
                    2 * t == u,
                    2 * (v * u) >= one * u,
            ;
            crate::number::exact::lemma_rounds_above(v * u, one, m, half);
        }
        if x.value() >= 0 {
            crate::number::exact::lemma_close_difference(x, r);
        } else {
            // Mirrored.
            crate::number::exact::lemma_negated(x);
            crate::number::exact::lemma_negated(r);
            crate::number::exact::lemma_close_difference(x.negated(), r.negated());
            lemma_mirrored_difference(x, r);
        }
    }
}

/// The difference of two negated numbers is the difference, negated.
proof fn lemma_mirrored_difference(x: Scalar, y: Scalar)
    requires
        x.finite(),
        y.finite(),
    ensures
        x.minus(y).value() == -(x.negated().minus(y.negated()).value()),
        x.minus(y).finite() == x.negated().minus(y.negated()).finite(),
{
    crate::number::exact::lemma_negated(x);
    crate::number::exact::lemma_negated(y);
    crate::number::exact::lemma_negated(y.negated());
    crate::number::exact::lemma_plus_nearest(x, y.negated());
    crate::number::exact::lemma_plus_nearest(x.negated(), y.negated().negated());
    crate::number::exact::lemma_nearest_to_mirrored(x.value() - y.value());
}

/// Twice a magnitude is one, up to the one after infinity.
proof fn lemma_double(x: Scalar)
    requires
        x.finite(),
    ensures
        exists|top: nat| #[trigger]
            crate::number::rounding::units(top) == 2 * crate::number::rounding::units(x.magnitude())
                && top <= INFINITE + HIDDEN,
{
    let h = HIDDEN as nat;
    let m = x.magnitude();
    if m < HIDDEN {
        crate::number::rounding::lemma_units_of_parts(0, 2 * m);
        assert(crate::number::rounding::two_to(0) == 1);
        assert(0 * h + 2 * m == 2 * m);
        assert((2 * m) * 1 == 2 * m);
        assert(crate::number::rounding::units(2 * m) == 2 * crate::number::rounding::units(m));
    } else {
        let top = m + h;
        assert(top / h == m / h + 1 && top % h == m % h);
        let e = (m / h - 1) as nat;
        let n = h + m % h;
        let p = crate::number::rounding::two_to(e);
        assert((top / h - 1) as nat == e + 1);
        assert(crate::number::rounding::two_to(e + 1) == 2 * p);
        assert(n * (2 * p) == 2 * (n * p)) by (nonlinear_arith);
        assert(crate::number::rounding::units(top) == 2 * crate::number::rounding::units(m));
    }
}

/// Half of a magnitude of 53 bits and more is one.
pub proof fn lemma_halve(x: Scalar) -> (half: nat)
    requires
        x.finite(),
        crate::number::rounding::units(x.magnitude()) >= GRID_REACH,
    ensures
        2 * crate::number::rounding::units(half) == crate::number::rounding::units(x.magnitude()),
        half <= INFINITE,
{
    let h = HIDDEN as nat;
    let m = x.magnitude();
    assert(m >= HIDDEN);
    let e = (m / h - 1) as nat;
    let n = h + m % h;
    if e == 0 {
        assert(crate::number::rounding::two_to(0) == 1);
        assert(n * 1 == n);
    }
    let half = (m - h) as nat;
    assert(half / h == m / h - 1 && half % h == m % h);
    let p = crate::number::rounding::two_to((e - 1) as nat);
    assert(crate::number::rounding::two_to(e) == 2 * p);
    assert(n * (2 * p) == 2 * (n * p)) by (nonlinear_arith);
    assert(half >= HIDDEN);
    assert((half / h - 1) as nat == (e - 1) as nat);
    half
}

/// Zooming is anchored: a zoom step by a factor from a half to two leaves the point that it
/// zooms about exactly where it is.
///
/// A larger step is a matter of rounding: the product of factor and coordinate is taken
/// from the coordinate, and that difference may have no exact number.
pub proof fn law_zoom_step_keeps_its_origin(origin: Point, factor: Scalar)
    requires
        origin.x.finite(),
        origin.y.finite(),
        factor.finite(),
        factor.times(origin.x).finite(),
        factor.times(origin.y).finite(),
        crate::number::rounding::one_in_units() <= 2 * factor.value(),
        factor.value() <= 2 * crate::number::rounding::one_in_units(),
    ensures
        LayerState::zoom_step(origin, factor).at(origin).x.value() == origin.x.value(),
        LayerState::zoom_step(origin, factor).at(origin).y.value() == origin.y.value(),
{
    let step = LayerState::zoom_step(origin, factor);
    lemma_zoom_step(origin, factor);
    lemma_factor_close(origin.x, factor);
    lemma_factor_close(origin.y, factor);
    lemma_anchor(step.a, factor, origin.x, step.c, origin.y, step.e);
    lemma_anchor(step.d, factor, origin.y, step.b, origin.x, step.f);
}

/// `a * x + 0 * y + e`, where `a` is `f` and `e` is exactly `x - f * x`.
proof fn lemma_anchor(a: Scalar, f: Scalar, x: Scalar, q: Scalar, y: Scalar, e: Scalar)
    requires
        a.finite(),
        f.finite(),
        x.finite(),
        q.finite(),
        y.finite(),
        e.finite(),
        a.value() == f.value(),
        q.value() == 0,
        f.times(x).finite(),
        e.value() == x.value() - f.times(x).value(),
    ensures
        a.times(x).plus(q.times(y)).plus(e).value() == x.value(),
        q.times(y).plus(a.times(x)).plus(e).value() == x.value(),
{
    crate::number::exact::lemma_times_by_value(a, x, f, x);
    lemma_row(a, x, q, y);
    crate::number::exact::lemma_plus_nearest(a.times(x).plus(q.times(y)), e);
    crate::number::exact::lemma_plus_nearest(q.times(y).plus(a.times(x)), e);
    crate::number::exact::lemma_nearest_to_own(x);
}

/// Zooming neither turns nor skews: a straight view stays straight, and both of its scales
/// are multiplied by the same factor.
pub proof fn law_zoom_keeps_views_straight(layer: LayerState, origin: Point, factor: Scalar)
    requires
        layer.zoomed_view(origin, factor) is Some,
        layer.limited_factor(factor).finite(),
        finite_map(layer.view),
        layer.view.b.value() == 0,
        layer.view.c.value() == 0,
        origin.x.finite(),
        origin.y.finite(),
        layer.limited_factor(factor).times(origin.x).finite(),
        layer.limited_factor(factor).times(origin.y).finite(),
        layer.limited_factor(factor).times(layer.view.a).finite(),
        layer.limited_factor(factor).times(layer.view.d).finite(),
    ensures
        ({
            let f = layer.limited_factor(factor);
            let view = layer.zoomed_view(origin, factor).unwrap();
            &&& view.b.value() == 0
            &&& view.c.value() == 0
            &&& view.a.value() == f.times(layer.view.a).value()
            &&& view.d.value() == f.times(layer.view.d).value()
        }),
{
    let f = layer.limited_factor(factor);
    let v = layer.view;
    lemma_zoom_step(origin, f);
    let step = LayerState::zoom_step(origin, f);
    crate::number::exact::lemma_times_by_value(step.a, v.a, f, v.a);
    crate::number::exact::lemma_times_by_value(step.d, v.d, f, v.d);
    lemma_row(step.a, v.a, step.c, v.b);
    lemma_row(step.d, v.d, step.b, v.c);
    crate::number::exact::lemma_times_value(step.b, v.a);
    crate::number::exact::lemma_times_value(step.d, v.b);
    crate::number::exact::lemma_times_value(step.a, v.c);
    crate::number::exact::lemma_times_value(step.c, v.d);
    crate::number::exact::lemma_plus_nothing(step.b.times(v.a), step.d.times(v.b));
    crate::number::exact::lemma_plus_nothing(step.a.times(v.c), step.c.times(v.d));
}

} // verus!
