//! How closely a dragged splitter follows the pointer.

use vstd::prelude::*;

use crate::areas::shape::Bar;
use crate::geometry::{Axis, Point};
use crate::number::exact::GRID_REACH;
use crate::number::rounding::{HIDDEN, INFINITE, UNIT_EXPONENT};
use crate::number::scalar::Scalar;

verus! {

/// The coordinate of a point along an axis.
pub open spec fn along(pos: Point, axis: Axis) -> Scalar {
    match axis {
        Axis::Horizontal => pos.x,
        Axis::Vertical => pos.y,
    }
}

/// How far from the origin splitters are dragged with little rounding: two to the power 50
/// pixels, in units.
pub open spec fn drag_reach() -> int {
    (crate::number::rounding::two_to(50) * crate::number::rounding::one_in_units()) as int
}

/// Whether a splitter can be dragged along this interval with little rounding: both ends are
/// at least a pixel within reach, and a splitter of that thickness has room.
pub open spec fn draggable(lo: Scalar, hi: Scalar, thickness: Scalar) -> bool {
    let one = crate::number::rounding::one_in_units();
    &&& lo.finite()
    &&& hi.finite()
    &&& thickness.finite()
    &&& crate::number::error::far(lo.value()) + one <= drag_reach()
    &&& crate::number::error::far(hi.value()) + one <= drag_reach()
    &&& 0 <= thickness.value() <= hi.value() - lo.value()
}

/// What a sum within reach is off by at most. One within twice the reach is off by twice
/// that.
spec fn slip() -> int {
    crate::number::rounding::two_to(1070) as int
}

/// The powers of two that a drag meets, in terms of the smallest of them.
proof fn lemma_powers()
    ensures
        slip() >= 1,
        crate::number::rounding::two_to(1071) == 2 * slip(),
        crate::number::rounding::two_to(1072) == 4 * slip(),
        crate::number::rounding::one_in_units() == 16 * slip(),
        crate::number::rounding::two_to(1124) == drag_reach(),
        crate::number::rounding::two_to(1125) == 2 * drag_reach(),
        2 * crate::number::rounding::two_to(1123) == drag_reach(),
        drag_reach() >= 1000 * slip(),
        GRID_REACH * crate::number::rounding::one_in_units() == 8 * drag_reach(),
        crate::number::rounding::two_to(1021) * crate::number::rounding::two_to(1125)
            == crate::number::rounding::one_in_units() * (4 * slip()),
{
    crate::number::rounding::lemma_two_to_positive(1070);
    reveal_with_fuel(crate::number::rounding::two_to, 5);
    crate::number::rounding::lemma_two_to_adds(50, 1074);
    crate::number::exact::lemma_known_power();
    crate::number::rounding::lemma_two_to_adds(2, 50);
    let k = crate::number::rounding::two_to(50) as int;
    let one = crate::number::rounding::one_in_units() as int;
    assert(4 * k == HIDDEN);
    assert(GRID_REACH * one == 8 * (k * one)) by (nonlinear_arith)
        requires
            4 * k == HIDDEN,
            GRID_REACH == 2 * HIDDEN,
    ;
    assert(k * one >= 1000 * one) by (nonlinear_arith)
        requires
            4 * k == HIDDEN,
            one >= 1,
    ;
    crate::number::rounding::lemma_two_to_adds(1021, 1125);
    crate::number::rounding::lemma_two_to_adds(1074, 1072);
}

/// Half of a thickness, rounded.
proof fn lemma_half(x: Scalar)
    requires
        x.finite(),
        0 <= x.value(),
    ensures
        x.over(Scalar::from_whole(2)).finite(),
        0 <= x.over(Scalar::from_whole(2)).value(),
        crate::number::error::far(2 * x.over(Scalar::from_whole(2)).value() - x.value()) <= 1,
{
    let one = crate::number::rounding::one_in_units() as int;
    crate::number::rounding::lemma_two_to_positive(UNIT_EXPONENT as nat);
    let two = Scalar::from_whole(2);
    crate::number::exact::lemma_from_whole(2);
    crate::number::exact::lemma_unit_interval();
    crate::number::exact::lemma_nearest_to_own(Scalar::zero());
    lemma_before_half(Scalar::zero(), 0, x);
    crate::number::arithmetic::lemma_zero_units(two.magnitude());
    crate::number::arithmetic::lemma_zero_units(x.magnitude());
    let half = x.over(two);
    let u = crate::number::rounding::units(x.magnitude()) as int;
    let w = crate::number::rounding::units(two.magnitude()) as int;
    assert(w == 2 * one && u == x.value());
    let m = crate::number::rounding::nearest(crate::number::rounding::fraction(u * one, w));
    crate::number::rounding::lemma_nearest(crate::number::rounding::fraction(u * one, w));
    crate::number::exact::lemma_pack(x.negative(), m);
    assert(half.magnitude() == m);
    // The numbers next to half.
    let (floor, ceiling): (nat, nat) = if u < GRID_REACH {
        ((u / 2) as nat, ((u + 1) / 2) as nat)
    } else {
        let exact = crate::canvas::view_laws::lemma_halve(x);
        (exact, exact)
    };
    let s = crate::number::rounding::units(floor) as int;
    let t = crate::number::rounding::units(ceiling) as int;
    assert(u - 1 <= 2 * s <= u && u <= 2 * t <= u + 1) by {
        if u < GRID_REACH {
            crate::number::rounding::lemma_units_of_parts(0, floor);
            crate::number::rounding::lemma_units_of_parts(0, ceiling);
            assert(crate::number::rounding::two_to(0) == 1);
        }
    }
    assert(w * s <= u * one && u * one <= w * t) by (nonlinear_arith)
        requires
            w == 2 * one,
            2 * s <= u,
            u <= 2 * t,
            one >= 1,
    ;
    crate::number::exact::lemma_rounds_above(u * one, w, m, floor);
    crate::number::exact::lemma_rounds_below(u * one, w, m, ceiling);
}

/// Kept from zero up to `top`.
pub open spec fn within(x: int, top: int) -> int {
    if x < 0 {
        0
    } else if x > top {
        top
    } else {
        x
    }
}

/// Dividing by the room and multiplying by it again: how far off both results are.
proof fn lemma_there_and_back(part: Scalar, room: Scalar, k: nat)
    requires
        part.finite(),
        room.finite(),
        !part.negative(),
        0 < room.value() <= crate::number::rounding::two_to(k),
        part.value() <= room.value(),
        53 <= k <= 2000,
    ensures
        ({
            let one = crate::number::rounding::one_in_units() as int;
            let w = room.value();
            let ratio = part.over(room);
            let share = room.times(ratio);
            &&& crate::areas::laws::proper_ratio(ratio)
            &&& share.finite()
            &&& 0 <= share.value() <= w
            &&& w * ratio.value() <= one * w
            &&& 2 * crate::number::error::far(w * ratio.value() - part.value() * one) <= w
                * crate::number::rounding::two_to(1021)
            &&& 2 * crate::number::error::far(one * share.value() - w * ratio.value()) <= one
                * crate::number::rounding::two_to((k - 53) as nat)
        }),
{
    let one = crate::number::rounding::one_in_units() as int;
    crate::number::rounding::lemma_two_to_positive(UNIT_EXPONENT as nat);
    crate::number::arithmetic::lemma_zero_units(room.magnitude());
    let o = crate::number::rounding::units(part.magnitude()) as int;
    let w = crate::number::rounding::units(room.magnitude()) as int;
    assert(part.value() == o && room.value() == w && !room.negative());
    crate::number::exact::lemma_over_at_most_one(part, room);
    let ratio = part.over(room);
    let qm = crate::number::rounding::nearest(crate::number::rounding::fraction(o * one, w));
    assert(0 <= o * one <= w * one) by (nonlinear_arith)
        requires
            0 <= o <= w,
            one >= 1,
    ;
    crate::number::error::lemma_error_below(o * one, w, UNIT_EXPONENT as nat);
    crate::number::exact::lemma_pack(false, qm);
    let r = crate::number::rounding::units(qm) as int;
    assert(ratio.magnitude() == qm && !ratio.negative() && ratio.value() == r);
    crate::number::exact::lemma_times_shrinks(room, ratio);
    let share = room.times(ratio);
    let pm = crate::number::rounding::nearest(crate::number::rounding::fraction(w * r, one));
    assert(0 <= w * r <= one * w) by (nonlinear_arith)
        requires
            0 <= r <= one,
            w > 0,
    ;
    assert(one * w <= one * crate::number::rounding::two_to(k)) by (nonlinear_arith)
        requires
            w <= crate::number::rounding::two_to(k),
            one >= 1,
    ;
    crate::number::error::lemma_error_below(w * r, one, k);
    crate::number::exact::lemma_pack(false, pm);
    assert(share.magnitude() == pm && !share.negative());
}

/// A number below the reach is below it by a step.
proof fn lemma_below_reach(x: Scalar)
    requires
        x.finite(),
        !x.negative(),
        x.value() < drag_reach(),
    ensures
        x.value() <= drag_reach() - 2 * slip(),
{
    lemma_powers();
    let top = crate::number::error::lemma_power(1124);
    let m = x.magnitude();
    if m >= top {
        if m > top {
            crate::number::rounding::lemma_units_ascend(top, m);
        }
    } else if m < top - 1 {
        crate::number::rounding::lemma_units_ascend(m, (top - 1) as nat);
    }
}

/// From `one * d < one * n` to `d < n`, and the like.
proof fn lemma_cancel(one: int, d: int, n: int)
    requires
        one >= 1,
    ensures
        one * d < one * n ==> d < n,
        one * d <= one * n ==> d <= n,
{
    assert(one * d < one * n ==> d < n) by (nonlinear_arith)
        requires
            one >= 1,
    ;
    assert(one * d <= one * n ==> d <= n) by (nonlinear_arith)
        requires
            one >= 1,
    ;
}

/// A share within twice the reach is close to the part that it was asked to be. Closer, where
/// numbers lie further apart.
proof fn lemma_share(part: Scalar, room: Scalar)
    requires
        part.finite(),
        room.finite(),
        !part.negative(),
        0 < room.value() < 2 * drag_reach(),
        part.value() <= room.value(),
    ensures
        ({
            let share = room.times(part.over(room));
            &&& crate::number::error::far(share.value() - part.value()) <= 3 * slip()
            &&& part.value() >= drag_reach() ==> crate::number::error::far(
                share.value() - part.value(),
            ) <= 2 * slip()
        }),
{
    lemma_powers();
    let c = slip();
    let one = crate::number::rounding::one_in_units() as int;
    let reach = drag_reach();
    lemma_there_and_back(part, room, 1125);
    let o = part.value();
    let w = room.value();
    let r = part.over(room).value();
    let share = room.times(part.over(room));
    let x = share.value();
    let small = crate::number::rounding::two_to(1021) as int;
    crate::number::rounding::lemma_two_to_positive(1021);
    assert(w * small < one * (4 * c)) by (nonlinear_arith)
        requires
            w < 2 * reach,
            small * (2 * reach) == one * (4 * c),
            small >= 1,
    ;
    // The quotient.
    let e1 = w * r - o * one;
    assert(2 * crate::number::error::far(e1) < one * (4 * c));
    assert(o * one == one * o) by (nonlinear_arith);
    assert(one * (4 * c) == 4 * (one * c)) by (nonlinear_arith);
    assert(one * (2 * c) == 2 * (one * c)) by (nonlinear_arith);
    let oc = one * c;
    assert(one * (x - o) == one * x - one * o) by (nonlinear_arith);
    assert(one * (o - x) == one * o - one * x) by (nonlinear_arith);
    assert(one * (3 * c) == 3 * oc) by (nonlinear_arith)
        requires
            oc == one * c,
    ;
    if o < reach {
        lemma_below_reach(part);
        assert(w * r <= one * reach) by {
            assert(one * o <= one * reach - 2 * oc) by (nonlinear_arith)
                requires
                    o <= reach - 2 * c,
                    one >= 1,
                    oc == one * c,
            ;
        }
        lemma_product_below(room, part.over(room), 1124);
        lemma_cancel(one, x - o, 3 * c);
        lemma_cancel(one, o - x, 3 * c);
    } else {
        lemma_cancel(one, x - o, 4 * c);
        lemma_cancel(one, o - x, 4 * c);
        assert(-4 * c < x - o < 4 * c);
        if x >= reach {
            crate::number::error::lemma_above_power(share, 1124);
            crate::number::error::lemma_above_power(part, 1124);
            lemma_multiples(x, o, 4 * c, 4 * c);
        } else {
            assert(w * r <= one * reach) by {
                if w * r > one * reach {
                    lemma_product_above(room, part.over(room));
                }
            }
            lemma_product_below(room, part.over(room), 1124);
            lemma_cancel(one, o - x, 3 * c);
            assert(x >= crate::number::rounding::two_to(1123));
            crate::number::error::lemma_above_power(share, 1123);
            crate::number::error::lemma_above_power(part, 1123);
            lemma_multiples(x, o, 2 * c, 4 * c);
        }
    }
}

/// Two multiples of a step that are less than `n` apart, where `n` is one or two steps, are at
/// most `n` less a step apart.
proof fn lemma_multiples(x: int, y: int, step: int, n: int)
    requires
        step > 0,
        x % step == 0,
        y % step == 0,
        n == step || n == 2 * step,
        -n < x - y < n,
    ensures
        crate::number::error::far(x - y) <= n - step,
{
    let a = x / step;
    let b = y / step;
    vstd::arithmetic::div_mod::lemma_fundamental_div_mod(x, step);
    vstd::arithmetic::div_mod::lemma_fundamental_div_mod(y, step);
    let d = a - b;
    assert(x - y == step * d) by (nonlinear_arith)
        requires
            x == step * a,
            y == step * b,
            d == a - b,
    ;
    let k: int = if n == step {
        1
    } else {
        2
    };
    assert(-k < d < k) by (nonlinear_arith)
        requires
            -n < step * d < n,
            n == step * k,
            step > 0,
    ;
    assert(step * 0 == 0 && step * 1 == step && step * -1 == -step) by (nonlinear_arith);
}

/// A product of what is not negative, below a power of two.
proof fn lemma_product_below(x: Scalar, y: Scalar, k: nat)
    requires
        x.finite(),
        y.finite(),
        0 <= x.value(),
        0 <= y.value(),
        x.value() * y.value() <= crate::number::rounding::one_in_units()
            * crate::number::rounding::two_to(k),
        53 <= k <= 2000,
    ensures
        2 * crate::number::error::far(
            crate::number::rounding::one_in_units() * x.times(y).value() - x.value() * y.value(),
        ) <= crate::number::rounding::one_in_units() * crate::number::rounding::two_to(
            (k - 53) as nat,
        ),
{
    let one = crate::number::rounding::one_in_units() as int;
    crate::number::rounding::lemma_two_to_positive(UNIT_EXPONENT as nat);
    crate::number::arithmetic::lemma_zero_units(x.magnitude());
    crate::number::arithmetic::lemma_zero_units(y.magnitude());
    let u = x.value();
    let v = y.value();
    assert(u == crate::number::rounding::units(x.magnitude()));
    assert(v == crate::number::rounding::units(y.magnitude()));
    assert(0 <= u * v) by (nonlinear_arith)
        requires
            u >= 0,
            v >= 0,
    ;
    crate::number::error::lemma_error_below(u * v, one, k);
    crate::number::exact::lemma_times_value(x, y);
}

/// A product past the reach is no less.
proof fn lemma_product_above(x: Scalar, y: Scalar)
    requires
        x.finite(),
        y.finite(),
        0 <= x.value(),
        0 <= y.value(),
        x.value() * y.value() >= crate::number::rounding::one_in_units() * drag_reach(),
    ensures
        x.times(y).value() >= drag_reach(),
{
    lemma_powers();
    let one = crate::number::rounding::one_in_units() as int;
    let top = crate::number::error::lemma_power(1124);
    crate::number::arithmetic::lemma_zero_units(x.magnitude());
    crate::number::arithmetic::lemma_zero_units(y.magnitude());
    let u = x.value();
    let v = y.value();
    assert(u == crate::number::rounding::units(x.magnitude()));
    assert(v == crate::number::rounding::units(y.magnitude()));
    let m = crate::number::rounding::nearest(crate::number::rounding::fraction(u * v, one));
    crate::number::exact::lemma_rounds_above(u * v, one, m, top);
    crate::number::exact::lemma_times_value(x, y);
}

/// Rounding to whole pixels and keeping within the room moves a share by half a pixel at
/// most.
proof fn lemma_whole_share(share: Scalar, room: Scalar)
    requires
        share.finite(),
        room.finite(),
        0 <= share.value() <= room.value(),
        share.value() <= GRID_REACH * crate::number::rounding::one_in_units(),
    ensures
        ({
            let first = share.round().clamp(Scalar::zero(), room);
            &&& first.finite()
            &&& 0 <= first.value() <= room.value()
            &&& 2 * crate::number::error::far(first.value() - share.value())
                <= crate::number::rounding::one_in_units()
        }),
{
    crate::number::exact::lemma_unit_interval();
    crate::number::exact::lemma_round_whole(share);
    let one = crate::number::rounding::one_in_units() as int;
    assert(share.nearest_whole() * one >= 0) by (nonlinear_arith)
        requires
            share.nearest_whole() >= 0,
            one >= 0,
    ;
}

/// The ratio that a part of the room comes to.
pub open spec fn ratio_for(part: Scalar, room: Scalar) -> Scalar {
    if room.at_most(Scalar::zero()) {
        Scalar::zero()
    } else {
        part.over(room).clamp(Scalar::zero(), Scalar::from_whole(1))
    }
}

/// The lengths met by a drag along one axis.
proof fn lemma_lengths(lo: Scalar, hi: Scalar, thickness: Scalar)
    requires
        draggable(lo, hi, thickness),
    ensures
        ({
            let extent = hi.minus(lo);
            let thick = thickness.min(extent);
            let room = extent.minus(thick);
            let exact = hi.value() - lo.value() - thickness.value();
            let c = slip();
            &&& thick.finite()
            &&& room.finite()
            &&& 0 <= thick.value() <= thickness.value()
            &&& thick.value() == thickness.value() || (room.value() == 0 && thickness.value()
                - thick.value() <= 2 * c && exact <= 2 * c)
            &&& 0 <= room.value() < 2 * drag_reach()
            &&& crate::number::error::far(room.value() - exact) <= 4 * c
        }),
{
    lemma_powers();
    let c = slip();
    crate::number::exact::lemma_negated(lo);
    crate::number::error::lemma_sum_below(hi, lo.negated(), 1125);
    let extent = hi.minus(lo);
    let thick = thickness.min(extent);
    crate::number::exact::lemma_negated(thick);
    crate::number::error::lemma_sum_below(extent, thick.negated(), 1125);
    if extent.value() < thickness.value() {
        crate::number::exact::lemma_plus_nearest(extent, thick.negated());
        crate::number::exact::lemma_nearest_to_own(Scalar::zero());
        crate::number::exact::lemma_unit_interval();
    }
}

/// A sum past the reach is no less.
proof fn lemma_sum_above(x: Scalar, y: Scalar)
    requires
        x.finite(),
        y.finite(),
        x.value() + y.value() >= drag_reach(),
    ensures
        x.plus(y).value() >= drag_reach(),
{
    lemma_powers();
    let top = crate::number::error::lemma_power(1124);
    let edge = Scalar::pack(false, top);
    crate::number::exact::lemma_pack(false, top);
    crate::number::exact::lemma_nearest_to_own(edge);
    crate::number::exact::lemma_plus_nearest(x, y);
    crate::number::exact::lemma_nearest_to_order(drag_reach(), x.value() + y.value());
}

/// How far along the interval a pointer is, without half of the splitter: off by more where
/// numbers lie further apart.
proof fn lemma_way(lo: Scalar, hi: Scalar, at: Scalar, thickness: Scalar)
    requires
        draggable(lo, hi, thickness),
        at.finite(),
        2 * lo.value() + thickness.value() <= 2 * at.value(),
        2 * at.value() <= 2 * hi.value() - thickness.value(),
    ensures
        ({
            let part = at.minus(lo).minus(thickness.over(Scalar::from_whole(2)));
            let exact = 2 * at.value() - 2 * lo.value() - thickness.value();
            let off = crate::number::error::far(2 * part.value() - exact);
            &&& part.finite()
            &&& off <= 8 * slip() + 1
            &&& off <= 6 * slip() + 1 || part.value() >= drag_reach()
        }),
{
    lemma_powers();
    let half = thickness.over(Scalar::from_whole(2));
    lemma_half(thickness);
    crate::number::exact::lemma_negated(lo);
    crate::number::error::lemma_sum_below(at, lo.negated(), 1125);
    let way = at.minus(lo);
    crate::number::exact::lemma_negated(half);
    crate::number::error::lemma_sum_below(way, half.negated(), 1125);
    let v = way.value() - half.value();
    if v <= drag_reach() {
        crate::number::error::lemma_sum_below(way, half.negated(), 1124);
    } else {
        lemma_sum_above(way, half.negated());
    }
}

/// What becomes of a way along the interval: the first child's length.
proof fn lemma_first(part: Scalar, room: Scalar)
    requires
        part.finite(),
        room.finite(),
        0 <= room.value() < 2 * drag_reach(),
    ensures
        ({
            let one = crate::number::rounding::one_in_units() as int;
            let ratio = ratio_for(part, room);
            let first = room.times(ratio).round().clamp(Scalar::zero(), room);
            let off = 2 * crate::number::error::far(
                first.value() - within(part.value(), room.value()),
            );
            &&& crate::areas::laws::proper_ratio(ratio)
            &&& first.finite()
            &&& 0 <= first.value() <= room.value()
            &&& off <= one + 6 * slip()
            &&& part.value() >= drag_reach() ==> off <= one + 4 * slip()
            &&& part.value() > room.value() || part.value() < 0 ==> off <= one
        }),
{
    lemma_powers();
    let one = crate::number::rounding::one_in_units() as int;
    crate::number::exact::lemma_unit_interval();
    crate::number::exact::lemma_from_whole(1);
    assert(1 * one == one);
    let ratio = ratio_for(part, room);
    let share = room.times(ratio);
    if room.value() <= 0 {
        crate::number::exact::lemma_times_value(room, ratio);
    } else {
        lemma_ratio_past_an_end(part, room);
        if part.value() < 0 || part.negative() {
            crate::number::exact::lemma_times_value(room, ratio);
        } else if part.value() > room.value() {
            let top = Scalar::from_whole(1);
            crate::number::exact::lemma_times_by_value(room, ratio, room, top);
            crate::number::exact::lemma_times_one(room);
        } else {
            crate::number::exact::lemma_over_at_most_one(part, room);
            assert(ratio == part.over(room));
            lemma_share(part, room);
            lemma_there_and_back(part, room, 1125);
        }
    }
    lemma_whole_share(share, room);
}

/// All the roundings of a drag together.
proof fn lemma_centre(
    lo: int,
    hi: int,
    at: int,
    thickness: int,
    thick: int,
    room: int,
    part: int,
    first: int,
    bar_start: int,
    second_start: int,
    c: int,
)
    requires
        c >= 1,
        2 * lo + thickness <= 2 * at <= 2 * hi - thickness,
        0 <= thickness - thick,
        thick == thickness || (room == 0 && thickness - thick <= 2 * c && hi - lo - thickness <= 2
            * c),
        0 <= room,
        0 <= first <= room,
        crate::number::error::far(room - (hi - lo - thickness)) <= 4 * c,
        ({
            let way = crate::number::error::far(2 * part - (2 * at - 2 * lo - thickness));
            let off = 2 * crate::number::error::far(first - within(part, room));
            &&& way <= 8 * c + 1
            &&& off <= 16 * c + 6 * c
            &&& way <= 6 * c + 1 || off <= 16 * c + 4 * c
            &&& part > room || part < 0 ==> off <= 16 * c
        }),
        crate::number::error::far(bar_start - (lo + first)) <= c,
        crate::number::error::far(second_start - (bar_start + thick)) <= c,
    ensures
        crate::number::error::far(bar_start + second_start - 2 * at) <= 32 * c,
{
    let wanted = 2 * at - 2 * lo - thickness;
    if part > room {
        assert(crate::number::error::far(2 * within(part, room) - wanted) <= 8 * c + 1);
    }
}

/// A drag along one axis.
proof fn lemma_landing(lo: Scalar, hi: Scalar, at: Scalar, thickness: Scalar)
    requires
        draggable(lo, hi, thickness),
        at.finite(),
        2 * lo.value() + thickness.value() <= 2 * at.value(),
        2 * at.value() <= 2 * hi.value() - thickness.value(),
    ensures
        ({
            let one = crate::number::rounding::one_in_units() as int;
            let extent = hi.minus(lo);
            let thick = thickness.min(extent);
            let room = extent.minus(thick);
            let part = at.minus(lo).minus(thickness.over(Scalar::from_whole(2)));
            let ratio = ratio_for(part, room);
            let first = room.times(ratio).round().clamp(Scalar::zero(), room);
            let bar_start = lo.plus(first);
            let second_start = bar_start.plus(thick);
            &&& crate::areas::laws::proper_ratio(ratio)
            &&& bar_start.finite()
            &&& second_start.finite()
            &&& crate::number::error::far(
                bar_start.value() + second_start.value() - 2 * at.value(),
            ) <= 2 * one
        }),
{
    lemma_powers();
    let c = slip();
    let one = crate::number::rounding::one_in_units() as int;
    let extent = hi.minus(lo);
    let thick = thickness.min(extent);
    let room = extent.minus(thick);
    lemma_lengths(lo, hi, thickness);
    let part = at.minus(lo).minus(thickness.over(Scalar::from_whole(2)));
    lemma_way(lo, hi, at, thickness);
    lemma_first(part, room);
    let first = room.times(ratio_for(part, room)).round().clamp(Scalar::zero(), room);
    crate::number::error::lemma_sum_below(lo, first, 1124);
    let bar_start = lo.plus(first);
    crate::number::error::lemma_sum_below(bar_start, thick, 1124);
    let second_start = bar_start.plus(thick);
    lemma_centre(
        lo.value(),
        hi.value(),
        at.value(),
        thickness.value(),
        thick.value(),
        room.value(),
        part.value(),
        first.value(),
        bar_start.value(),
        second_start.value(),
        c,
    );
}

/// A dragged splitter lands under the pointer: its centre ends up within a pixel of it,
/// wherever on the span a whole splitter has room around the pointer, and whatever its
/// thickness.
///
/// For spans whose ends are a pixel and more within two to the power 50 pixels of the origin.
/// From there to twice as far the roundings begin to add up to more than a pixel.
pub proof fn law_bar_lands_under_pointer(bar: Bar, pos: Point, thickness: Scalar)
    requires
        draggable(
            crate::areas::shape::start(bar.span, bar.axis),
            crate::areas::laws::finish(bar.span, bar.axis),
            thickness,
        ),
        along(pos, bar.axis).finite(),
        ({
            let lo = crate::areas::shape::start(bar.span, bar.axis).value();
            let hi = crate::areas::laws::finish(bar.span, bar.axis).value();
            let at = along(pos, bar.axis).value();
            2 * lo + thickness.value() <= 2 * at <= 2 * hi - thickness.value()
        }),
    ensures
        ({
            let one = crate::number::rounding::one_in_units() as int;
            let at = along(pos, bar.axis).value();
            let ratio = crate::areas::shape::implied_ratio(bar, pos, thickness);
            let (_, mid, _) = crate::areas::shape::divided(bar.span, bar.axis, ratio, thickness);
            let twice_centre = crate::areas::shape::start(mid, bar.axis).value()
                + crate::areas::laws::finish(mid, bar.axis).value();
            &&& crate::areas::laws::proper_ratio(ratio)
            &&& crate::areas::shape::start(mid, bar.axis).finite()
            &&& crate::areas::laws::finish(mid, bar.axis).finite()
            &&& -(2 * one) <= twice_centre - 2 * at <= 2 * one
        }),
{
    lemma_landing(
        crate::areas::shape::start(bar.span, bar.axis),
        crate::areas::laws::finish(bar.span, bar.axis),
        along(pos, bar.axis),
        thickness,
    );
}

/// A way that is not positive asks for none of the room, one past the room for all of it.
proof fn lemma_ratio_past_an_end(part: Scalar, room: Scalar)
    requires
        !part.is_nan(),
        room.finite(),
        0 < room.value(),
    ensures
        ({
            let ratio = part.over(room).clamp(Scalar::zero(), Scalar::from_whole(1));
            &&& crate::areas::laws::proper_ratio(ratio)
            &&& part.value() <= 0 ==> ratio.value() == 0
            &&& room.value() <= part.value() ==> ratio.value()
                == crate::number::rounding::one_in_units()
        }),
{
    let one = crate::number::rounding::one_in_units() as int;
    crate::number::rounding::lemma_two_to_positive(UNIT_EXPONENT as nat);
    crate::number::exact::lemma_unit_interval();
    crate::number::exact::lemma_from_whole(1);
    assert(1 * one == one);
    let top = Scalar::from_whole(1);
    let unit = top.magnitude();
    crate::number::arithmetic::lemma_zero_units(unit);
    crate::number::arithmetic::lemma_zero_units(room.magnitude());
    crate::number::arithmetic::lemma_zero_units(part.magnitude());
    let quotient = part.over(room);
    assert(!room.negative());
    let u = crate::number::rounding::units(part.magnitude()) as int;
    let w = crate::number::rounding::units(room.magnitude()) as int;
    let cut = crate::number::rounding::fraction(u * one, w);
    let m = crate::number::rounding::nearest(cut);
    crate::number::rounding::lemma_nearest(cut);
    crate::number::exact::lemma_pack(part.negative(), m);
    crate::number::exact::lemma_pack(part.negative(), INFINITE as nat);
    assert(!quotient.is_nan());
    crate::areas::laws::lemma_clamped_is_proper(quotient);
    assert(quotient.negative() == part.negative());
    if part.value() <= 0 && !part.negative() {
        assert(u == 0);
        assert(u * one == 0) by (nonlinear_arith)
            requires
                u == 0,
        ;
        crate::number::arithmetic::lemma_nothing(w);
        assert(quotient.magnitude() == 0);
        crate::number::arithmetic::lemma_zero_units(0);
    }
    if room.value() <= part.value() {
        if part.finite() {
            assert(w * one <= u * one) by (nonlinear_arith)
                requires
                    w <= u,
                    one >= 1,
            ;
            crate::number::exact::lemma_rounds_above(u * one, w, m, unit);
        } else {
            crate::number::rounding::lemma_units_ascend(unit, INFINITE as nat);
        }
        assert(quotient.value() >= one);
    }
}

/// A way of no more than half a thickness is no more than the half, rounded.
proof fn lemma_before_half(way: Scalar, exact: int, thickness: Scalar)
    requires
        !way.is_nan(),
        way.value() == crate::number::exact::nearest_to(exact).value(),
        thickness.finite(),
        0 <= thickness.value(),
        2 * exact <= thickness.value(),
    ensures
        !thickness.over(Scalar::from_whole(2)).is_nan(),
        way.value() <= thickness.over(Scalar::from_whole(2)).value(),
        thickness.over(Scalar::from_whole(2)).finite(),
{
    let one = crate::number::rounding::one_in_units() as int;
    crate::number::rounding::lemma_two_to_positive(UNIT_EXPONENT as nat);
    let two = Scalar::from_whole(2);
    crate::number::exact::lemma_from_whole(2);
    crate::number::arithmetic::lemma_zero_units(two.magnitude());
    crate::number::arithmetic::lemma_zero_units(thickness.magnitude());
    let half = thickness.over(two);
    let u = crate::number::rounding::units(thickness.magnitude()) as int;
    let w = crate::number::rounding::units(two.magnitude()) as int;
    assert(w == 2 * one && u == thickness.value());
    let m = crate::number::rounding::nearest(crate::number::rounding::fraction(u * one, w));
    crate::number::rounding::lemma_nearest(crate::number::rounding::fraction(u * one, w));
    crate::number::exact::lemma_pack(thickness.negative(), m);
    assert(half.magnitude() == m);
    assert(u * one <= w * u) by (nonlinear_arith)
        requires
            w == 2 * one,
            u >= 0,
            one >= 1,
    ;
    crate::number::exact::lemma_rounds_below(u * one, w, m, thickness.magnitude());
    assert(half.finite()) by {
        if m >= INFINITE {
            crate::number::rounding::lemma_units_ascend(thickness.magnitude(), m);
        }
    }
    assert(half.value() >= 0) by {
        if thickness.negative() {
            assert(u * one == 0) by (nonlinear_arith)
                requires
                    u == 0,
            ;
            crate::number::arithmetic::lemma_nothing(w);
            crate::number::arithmetic::lemma_zero_units(0);
        }
    }
    // The largest number that is no more than half.
    let floor: nat = if u < GRID_REACH {
        (u / 2) as nat
    } else {
        crate::canvas::view_laws::lemma_halve(thickness)
    };
    let t = crate::number::rounding::units(floor) as int;
    assert(t == u / 2 && floor < INFINITE) by {
        if u >= GRID_REACH {
            if floor >= thickness.magnitude() {
                if floor > thickness.magnitude() {
                    crate::number::rounding::lemma_units_ascend(thickness.magnitude(), floor);
                }
            }
        }
    }
    let bound = Scalar::pack(false, floor);
    crate::number::exact::lemma_pack(false, floor);
    crate::number::exact::lemma_nearest_to_own(bound);
    crate::number::exact::lemma_nearest_to_order(exact, t);
    assert(way.value() <= t);
    assert(w * t <= u * one) by (nonlinear_arith)
        requires
            w == 2 * one,
            2 * t <= u,
            one >= 1,
    ;
    crate::number::exact::lemma_rounds_above(u * one, w, m, floor);
    if thickness.negative() {
        assert(u == 0 && t == 0);
    }
}

/// What the ratio comes to where the pointer is past the ends: nothing where a splitter
/// takes up the whole span, or where the pointer is no further than half of a splitter from
/// its start. Everywhere it is a number from zero to one.
pub proof fn law_ratio_is_pinned_at_the_start(bar: Bar, pos: Point, thickness: Scalar)
    requires
        crate::areas::shape::start(bar.span, bar.axis).finite(),
        crate::areas::laws::finish(bar.span, bar.axis).finite(),
        crate::areas::shape::start(bar.span, bar.axis).value() <= crate::areas::laws::finish(
            bar.span,
            bar.axis,
        ).value(),
        crate::areas::shape::extent(bar.span, bar.axis).finite(),
        along(pos, bar.axis).finite(),
        thickness.finite(),
        0 <= thickness.value(),
    ensures
        ({
            let lo = crate::areas::shape::start(bar.span, bar.axis).value();
            let hi = crate::areas::laws::finish(bar.span, bar.axis).value();
            let at = along(pos, bar.axis).value();
            let ratio = crate::areas::shape::implied_ratio(bar, pos, thickness);
            &&& crate::areas::laws::proper_ratio(ratio)
            &&& hi - lo <= thickness.value() ==> ratio.value() == 0
            &&& 2 * (at - lo) <= thickness.value() ==> ratio.value() == 0
        }),
{
    let lo = crate::areas::shape::start(bar.span, bar.axis);
    let hi = crate::areas::laws::finish(bar.span, bar.axis);
    let at = along(pos, bar.axis);
    crate::number::exact::lemma_unit_interval();
    crate::number::rounding::lemma_two_to_positive(UNIT_EXPONENT as nat);
    let extent = hi.minus(lo);
    crate::number::exact::lemma_negated(lo);
    crate::number::exact::lemma_plus_nearest(hi, lo.negated());
    crate::number::exact::lemma_nearest_to_order(0, hi.value() - lo.value());
    assert(extent.value() >= 0);
    let thick = thickness.min(extent);
    crate::number::exact::lemma_negated(thick);
    crate::number::exact::lemma_plus_nearest(extent, thick.negated());
    let room = extent.minus(thick);
    let left = extent.value() - thick.value();
    crate::number::exact::lemma_nearest_to_order(0, left);
    crate::number::exact::lemma_nearest_to_order(left, extent.value());
    crate::number::exact::lemma_nearest_to_own(extent);
    assert(0 <= room.value() <= extent.value());
    if hi.value() - lo.value() <= thickness.value() {
        crate::number::exact::lemma_nearest_to_own(thickness);
        crate::number::exact::lemma_nearest_to_order(hi.value() - lo.value(), thickness.value());
        assert(left == 0);
        crate::number::exact::lemma_nearest_to_own(Scalar::zero());
        assert(room.value() == 0);
    }
    if room.value() > 0 {
        assert(room.finite()) by {
            if room.infinite() {
                crate::number::rounding::lemma_units_ascend(extent.magnitude(), INFINITE as nat);
                crate::number::arithmetic::lemma_zero_units(room.magnitude());
                crate::number::arithmetic::lemma_zero_units(extent.magnitude());
            }
        }
        let way = at.minus(lo);
        crate::number::exact::lemma_plus_nearest(at, lo.negated());
        let half = thickness.over(Scalar::from_whole(2));
        crate::number::exact::lemma_nearest_to_own(Scalar::zero());
        lemma_before_half(Scalar::zero(), 0, thickness);
        crate::number::exact::lemma_negated(half);
        let part = way.minus(half);
        assert(!part.is_nan()) by {
            if way.finite() {
                crate::number::exact::lemma_plus_nearest(way, half.negated());
            }
        }
        if 2 * (at.value() - lo.value()) <= thickness.value() {
            lemma_before_half(way, at.value() - lo.value(), thickness);
            if way.finite() {
                crate::number::exact::lemma_plus_nearest(way, half.negated());
                crate::number::exact::lemma_nearest_to_order(way.value() - half.value(), 0);
            } else if !way.negative() {
                crate::number::rounding::lemma_units_ascend(half.magnitude(), INFINITE as nat);
                crate::number::arithmetic::lemma_zero_units(way.magnitude());
            }
            assert(part.value() <= 0);
        }
        lemma_ratio_past_an_end(part, room);
    }
}

/// The same at the other end, without rounding: all of the room, where the pointer is no
/// further than half of a splitter from the end of a span that has room for one.
pub proof fn law_ratio_is_pinned_at_the_end(bar: Bar, pos: Point, thickness: Scalar, g: nat)
    requires
        crate::areas::laws::aligned(
            crate::areas::shape::start(bar.span, bar.axis),
            crate::areas::laws::finish(bar.span, bar.axis),
            g,
        ),
        along(pos, bar.axis).finite(),
        thickness.finite(),
        0 <= thickness.value(),
        ({
            let step = crate::number::rounding::two_to(g) as int;
            let lo = crate::areas::shape::start(bar.span, bar.axis).value();
            let hi = crate::areas::laws::finish(bar.span, bar.axis).value();
            let at = along(pos, bar.axis).value();
            &&& at % step == 0
            &&& at - lo <= GRID_REACH * step
            &&& thickness.value() % (2 * step) == 0
            &&& thickness.value() < hi - lo
            &&& 2 * hi - thickness.value() <= 2 * at
        }),
    ensures
        crate::areas::shape::implied_ratio(bar, pos, thickness).value()
            == crate::number::rounding::one_in_units(),
{
    let lo = crate::areas::shape::start(bar.span, bar.axis);
    let hi = crate::areas::laws::finish(bar.span, bar.axis);
    let at = along(pos, bar.axis);
    let step = crate::number::rounding::two_to(g) as int;
    crate::number::rounding::lemma_two_to_positive(g);
    crate::number::exact::lemma_unit_interval();
    let t = thickness.value();
    lemma_even_steps(t, g);
    crate::number::exact::lemma_grid_minus(hi, lo, g);
    let extent = hi.minus(lo);
    assert(thickness.min(extent) == thickness);
    crate::number::exact::lemma_grid_minus(extent, thickness, g);
    let room = extent.minus(thickness);
    crate::number::exact::lemma_grid_minus(at, lo, g);
    let way = at.minus(lo);
    let half = thickness.over(Scalar::from_whole(2));
    assert(crate::number::exact::within_grid(t / 2, g)) by {
        assert(0 <= t / 2 <= GRID_REACH * step);
    }
    lemma_exact_half(thickness, g);
    crate::number::exact::lemma_grid_minus(way, half, g);
    let part = way.minus(half);
    lemma_ratio_past_an_end(part, room);
}

/// Half of an even number of steps is exact.
proof fn lemma_exact_half(x: Scalar, g: nat)
    requires
        x.finite(),
        0 <= x.value(),
        2 * (x.value() / 2) == x.value(),
        g <= UNIT_EXPONENT,
        crate::number::exact::within_grid(x.value() / 2, g),
    ensures
        x.over(Scalar::from_whole(2)).finite(),
        x.over(Scalar::from_whole(2)).value() == x.value() / 2,
{
    let one = crate::number::rounding::one_in_units() as int;
    crate::number::rounding::lemma_two_to_positive(UNIT_EXPONENT as nat);
    let two = Scalar::from_whole(2);
    crate::number::exact::lemma_from_whole(2);
    crate::number::arithmetic::lemma_zero_units(two.magnitude());
    crate::number::arithmetic::lemma_zero_units(x.magnitude());
    let half = x.over(two);
    let u = crate::number::rounding::units(x.magnitude()) as int;
    let w = crate::number::rounding::units(two.magnitude()) as int;
    let k = u / 2;
    crate::number::exact::lemma_grid_number(k, g);
    let bound = crate::number::exact::nearest_to(k);
    let mag = bound.magnitude();
    crate::number::exact::lemma_nearest_to_order(0, k);
    crate::number::arithmetic::lemma_zero_units(mag);
    assert(crate::number::rounding::units(mag) == k);
    assert(u * one == w * k) by (nonlinear_arith)
        requires
            w == 2 * one,
            u == 2 * k,
    ;
    let m = crate::number::rounding::nearest(crate::number::rounding::fraction(u * one, w));
    crate::number::rounding::lemma_nearest(crate::number::rounding::fraction(u * one, w));
    crate::number::exact::lemma_rounds_below(u * one, w, m, mag);
    crate::number::exact::lemma_rounds_above(u * one, w, m, mag);
    crate::number::exact::lemma_pack(x.negative(), m);
    assert(half.magnitude() == m && crate::number::rounding::units(m) == k);
    if m >= INFINITE {
        crate::number::rounding::lemma_units_ascend(mag, m);
    }
}

/// A share on a grid is within a step of the part that it was asked to be.
proof fn lemma_share_on_grid(part: Scalar, room: Scalar, g: nat)
    requires
        g <= UNIT_EXPONENT,
        part.finite(),
        room.finite(),
        !part.negative(),
        0 < room.value() <= GRID_REACH * crate::number::rounding::two_to(g),
        part.value() <= room.value(),
    ensures
        crate::areas::laws::proper_ratio(part.over(room)),
        room.times(part.over(room)).finite(),
        0 <= room.times(part.over(room)).value() <= room.value(),
        crate::number::error::far(room.times(part.over(room)).value() - part.value())
            <= crate::number::rounding::two_to(g),
{
    let one = crate::number::rounding::one_in_units() as int;
    let step = crate::number::rounding::two_to(g) as int;
    crate::number::rounding::lemma_two_to_positive(UNIT_EXPONENT as nat);
    crate::number::rounding::lemma_two_to_positive(g);
    crate::number::exact::lemma_known_power();
    crate::number::rounding::lemma_two_to_adds(53, g);
    assert(crate::number::rounding::two_to(53) == GRID_REACH);
    lemma_there_and_back(part, room, 53 + g);
    let small = crate::number::rounding::two_to(1021) as int;
    crate::number::rounding::lemma_two_to_adds(1021, 53);
    crate::number::rounding::lemma_two_to_positive(1021);
    assert(small * GRID_REACH == one);
    let w = room.value();
    let o = part.value();
    let r = part.over(room).value();
    let x = room.times(part.over(room)).value();
    assert(w * small <= one * step) by (nonlinear_arith)
        requires
            w <= GRID_REACH * step,
            small * GRID_REACH == one,
            small >= 1,
    ;
    assert(o * one == one * o) by (nonlinear_arith);
    assert(one * (x - o) == one * x - one * o) by (nonlinear_arith);
    assert(one * (o - x) == one * o - one * x) by (nonlinear_arith);
    lemma_cancel(one, x - o, step);
    lemma_cancel(one, o - x, step);
}

/// The same along a span that is on a grid, for pointers on that grid and splitters of an even
/// number of its steps: within a pixel, however long the span is. Whole pixels are such a
/// grid, as far as they are numbers without a gap.
pub proof fn law_bar_lands_on_the_grid(bar: Bar, pos: Point, thickness: Scalar, g: nat)
    requires
        crate::areas::laws::aligned(
            crate::areas::shape::start(bar.span, bar.axis),
            crate::areas::laws::finish(bar.span, bar.axis),
            g,
        ),
        along(pos, bar.axis).finite(),
        thickness.finite(),
        0 <= thickness.value(),
        ({
            let step = crate::number::rounding::two_to(g) as int;
            let lo = crate::areas::shape::start(bar.span, bar.axis).value();
            let hi = crate::areas::laws::finish(bar.span, bar.axis).value();
            let at = along(pos, bar.axis).value();
            &&& at % step == 0
            &&& thickness.value() % (2 * step) == 0
            &&& 2 * lo + thickness.value() <= 2 * at <= 2 * hi - thickness.value()
        }),
    ensures
        ({
            let one = crate::number::rounding::one_in_units() as int;
            let at = along(pos, bar.axis).value();
            let ratio = crate::areas::shape::implied_ratio(bar, pos, thickness);
            let (_, mid, _) = crate::areas::shape::divided(bar.span, bar.axis, ratio, thickness);
            let twice_centre = crate::areas::shape::start(mid, bar.axis).value()
                + crate::areas::laws::finish(mid, bar.axis).value();
            &&& crate::areas::laws::proper_ratio(ratio)
            &&& crate::areas::shape::start(mid, bar.axis).finite()
            &&& crate::areas::laws::finish(mid, bar.axis).finite()
            &&& -(2 * one) <= twice_centre - 2 * at <= 2 * one
        }),
{
    let lo = crate::areas::shape::start(bar.span, bar.axis);
    let hi = crate::areas::laws::finish(bar.span, bar.axis);
    lemma_landing_on_grid(lo, hi, along(pos, bar.axis), thickness, g);
}

/// An even number of steps, and half of it.
proof fn lemma_even_steps(t: int, g: nat)
    requires
        0 <= t,
        t % (2 * crate::number::rounding::two_to(g) as int) == 0,
    ensures
        t % (crate::number::rounding::two_to(g) as int) == 0,
        (t / 2) % (crate::number::rounding::two_to(g) as int) == 0,
        2 * (t / 2) == t,
{
    let step = crate::number::rounding::two_to(g) as int;
    crate::number::rounding::lemma_two_to_positive(g);
    let k = t / (2 * step);
    vstd::arithmetic::div_mod::lemma_fundamental_div_mod(t, 2 * step);
    assert(t == (2 * k) * step && t / 2 == k * step && 2 * (t / 2) == t) by (nonlinear_arith)
        requires
            t == (2 * step) * k,
    ;
    vstd::arithmetic::div_mod::lemma_mod_multiples_basic(2 * k, step);
    vstd::arithmetic::div_mod::lemma_mod_multiples_basic(k, step);
}

/// The lengths met by a drag on a grid need no rounding.
proof fn lemma_way_on_grid(lo: Scalar, hi: Scalar, at: Scalar, thickness: Scalar, g: nat)
    requires
        crate::areas::laws::aligned(lo, hi, g),
        at.finite(),
        thickness.finite(),
        0 <= thickness.value(),
        at.value() % (crate::number::rounding::two_to(g) as int) == 0,
        thickness.value() % (2 * crate::number::rounding::two_to(g) as int) == 0,
        2 * lo.value() + thickness.value() <= 2 * at.value() <= 2 * hi.value() - thickness.value(),
    ensures
        ({
            let room = hi.minus(lo).minus(thickness.min(hi.minus(lo)));
            let part = at.minus(lo).minus(thickness.over(Scalar::from_whole(2)));
            &&& thickness.min(hi.minus(lo)) == thickness
            &&& crate::areas::laws::aligned_bar(thickness, g)
            &&& crate::number::exact::on_grid(room, g)
            &&& crate::number::exact::on_grid(part, g)
            &&& 2 * part.value() == 2 * at.value() - 2 * lo.value() - thickness.value()
            &&& 0 <= part.value() <= room.value()
        }),
{
    let step = crate::number::rounding::two_to(g) as int;
    crate::number::rounding::lemma_two_to_positive(g);
    let t = thickness.value();
    lemma_even_steps(t, g);
    crate::number::exact::lemma_grid_minus(hi, lo, g);
    let extent = hi.minus(lo);
    assert(thickness.min(extent) == thickness);
    crate::number::exact::lemma_grid_minus(extent, thickness, g);
    crate::number::exact::lemma_grid_minus(at, lo, g);
    let half = thickness.over(Scalar::from_whole(2));
    assert(0 <= t / 2 <= GRID_REACH * step);
    lemma_exact_half(thickness, g);
    crate::number::exact::lemma_grid_minus(at.minus(lo), half, g);
}

/// What becomes of a way on a grid.
proof fn lemma_first_on_grid(part: Scalar, room: Scalar, g: nat)
    requires
        g <= UNIT_EXPONENT,
        part.finite(),
        crate::number::exact::on_grid(room, g),
        0 <= part.value() <= room.value(),
    ensures
        ({
            let ratio = ratio_for(part, room);
            let first = room.times(ratio).round().clamp(Scalar::zero(), room);
            &&& crate::areas::laws::proper_ratio(ratio)
            &&& first.finite()
            &&& 2 * crate::number::error::far(first.value() - part.value())
                <= crate::number::rounding::one_in_units() + 2 * crate::number::rounding::two_to(g)
        }),
{
    let one = crate::number::rounding::one_in_units() as int;
    let step = crate::number::rounding::two_to(g) as int;
    crate::number::rounding::lemma_two_to_positive(UNIT_EXPONENT as nat);
    crate::number::rounding::lemma_two_to_positive(g);
    crate::number::exact::lemma_unit_interval();
    crate::number::exact::lemma_whole_on_grid(1, g);
    assert(GRID_REACH * step <= GRID_REACH * one) by (nonlinear_arith)
        requires
            step <= one,
    ;
    let ratio = ratio_for(part, room);
    let share = room.times(ratio);
    if room.value() <= 0 {
        crate::number::exact::lemma_times_value(room, ratio);
    } else {
        lemma_ratio_past_an_end(part, room);
        if part.negative() {
            crate::number::exact::lemma_times_value(room, ratio);
        } else {
            crate::number::exact::lemma_from_whole(1);
            assert(1 * one == one);
            crate::number::exact::lemma_over_at_most_one(part, room);
            assert(ratio == part.over(room));
            lemma_share_on_grid(part, room, g);
        }
    }
    lemma_whole_share(share, room);
}

/// A drag along one axis on a grid.
proof fn lemma_landing_on_grid(lo: Scalar, hi: Scalar, at: Scalar, thickness: Scalar, g: nat)
    requires
        crate::areas::laws::aligned(lo, hi, g),
        at.finite(),
        thickness.finite(),
        0 <= thickness.value(),
        at.value() % (crate::number::rounding::two_to(g) as int) == 0,
        thickness.value() % (2 * crate::number::rounding::two_to(g) as int) == 0,
        2 * lo.value() + thickness.value() <= 2 * at.value() <= 2 * hi.value() - thickness.value(),
    ensures
        ({
            let one = crate::number::rounding::one_in_units() as int;
            let extent = hi.minus(lo);
            let thick = thickness.min(extent);
            let room = extent.minus(thick);
            let part = at.minus(lo).minus(thickness.over(Scalar::from_whole(2)));
            let ratio = ratio_for(part, room);
            let first = room.times(ratio).round().clamp(Scalar::zero(), room);
            let bar_start = lo.plus(first);
            let second_start = bar_start.plus(thick);
            &&& crate::areas::laws::proper_ratio(ratio)
            &&& bar_start.finite()
            &&& second_start.finite()
            &&& crate::number::error::far(
                bar_start.value() + second_start.value() - 2 * at.value(),
            ) <= 2 * one
        }),
{
    let one = crate::number::rounding::one_in_units() as int;
    let step = crate::number::rounding::two_to(g) as int;
    lemma_way_on_grid(lo, hi, at, thickness, g);
    let room = hi.minus(lo).minus(thickness);
    let part = at.minus(lo).minus(thickness.over(Scalar::from_whole(2)));
    lemma_first_on_grid(part, room, g);
    let ratio = ratio_for(part, room);
    crate::areas::laws::lemma_cut(lo, hi, ratio, thickness, g);
    let first = room.times(ratio).round().clamp(Scalar::zero(), room);
    let f = first.value();
    let o = part.value();
    if g < UNIT_EXPONENT {
        crate::number::exact::lemma_whole_on_grid(1, g + 1);
        assert(2 * step <= one);
    } else {
        let bar_start = lo.plus(first);
        crate::number::exact::lemma_grid_minus(bar_start, lo, g);
        assert(f == bar_start.value() - lo.value());
        crate::number::rounding::lemma_two_to_positive(g);
        lemma_multiples(f, o, one, 2 * one);
    }
}

} // verus!
