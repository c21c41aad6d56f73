//! Where no rounding takes place, and the order of numbers where it does.

use vstd::prelude::*;

use crate::number::rounding::{HIDDEN, INFINITE, UNIT_EXPONENT};
use crate::number::scalar::Scalar;

verus! {

/// How many steps of a grid a number may be away from zero to be on it.
pub const GRID_REACH: u64 = 0x20_0000_0000_0000;

/// Whether `x` is a multiple of `two_to(g)` units, and not too many times that.
///
/// Sums of such numbers need no rounding. A whole number of pixels is on every grid up to
/// the exponent of one.
pub open spec fn on_grid(x: Scalar, g: nat) -> bool {
    &&& x.finite()
    &&& within_grid(x.value(), g)
}

/// Whether the number of value `v` is on the grid.
pub open spec fn within_grid(v: int, g: nat) -> bool {
    let step = crate::number::rounding::two_to(g) as int;
    &&& v % step == 0
    &&& -(GRID_REACH * step) <= v <= GRID_REACH * step
}

/// The number nearest to `v` units.
pub open spec fn nearest_to(v: int) -> Scalar {
    if v == 0 {
        Scalar::zero()
    } else {
        Scalar::rounded(
            v < 0,
            crate::number::rounding::fraction(
                if v < 0 {
                    -v
                } else {
                    v
                },
                1,
            ),
        )
    }
}

/// The magnitude that stands for `n * two_to(t)`.
pub proof fn lemma_representable(n: nat, t: nat) -> (mag: nat)
    requires
        n <= 2 * HIDDEN,
    ensures
        crate::number::rounding::units(mag) == n * crate::number::rounding::two_to(t),
        mag <= (t + 2) * (HIDDEN as nat),
    decreases t,
{
    let h = HIDDEN as nat;
    if n == 0 {
        assert(0 * crate::number::rounding::two_to(t) == 0) by (nonlinear_arith);
        assert(0 <= (t + 2) * h) by (nonlinear_arith);
        0
    } else if t == 0 || n >= HIDDEN {
        crate::number::rounding::lemma_units_of_parts(t, n);
        assert(t * h + n <= (t + 2) * h) by (nonlinear_arith)
            requires
                n <= 2 * h,
        ;
        t * h + n
    } else {
        let p = crate::number::rounding::two_to((t - 1) as nat);
        let mag = lemma_representable(2 * n, (t - 1) as nat);
        assert((2 * n) * p == n * (2 * p)) by (nonlinear_arith);
        assert((t - 1 + 2) * h <= (t + 2) * h) by (nonlinear_arith)
            requires
                h >= 1,
        ;
        mag
    }
}

/// A finite number of the given value, packed.
pub proof fn lemma_pack(negative: bool, mag: nat)
    requires
        mag <= INFINITE,
    ensures
        Scalar::pack(negative, mag).magnitude() == mag,
        Scalar::pack(negative, mag).negative() == negative,
{
}

/// A whole number of up to 54 bits is a number, exactly.
pub proof fn lemma_from_whole(n: u64)
    requires
        n <= 2 * HIDDEN,
    ensures
        Scalar::from_whole(n).finite(),
        !Scalar::from_whole(n).negative(),
        Scalar::from_whole(n).value() == n * crate::number::rounding::one_in_units(),
{
    let one = crate::number::rounding::one_in_units();
    let mag = lemma_representable(n as nat, UNIT_EXPONENT as nat);
    assert(mag <= INFINITE);
    crate::number::arithmetic::lemma_own_magnitude(mag);
    lemma_pack(false, mag);
}

/// Zero is the whole number zero, and below one.
pub proof fn lemma_unit_interval()
    ensures
        Scalar::zero().at_most(Scalar::from_whole(1)),
        Scalar::zero().finite(),
        Scalar::zero().value() == 0,
{
    lemma_from_whole(1);
    crate::number::rounding::lemma_two_to_positive(UNIT_EXPONENT as nat);
}

/// A quotient of whole numbers is at most a whole number that is no less.
pub proof fn lemma_ratio_at_most(num: u64, den: u64, top: u64)
    requires
        0 < den <= 2 * HIDDEN,
        num <= 2 * HIDDEN,
        top <= 2 * HIDDEN,
        num <= top * den,
    ensures
        Scalar::ratio(num, den).at_most(Scalar::from_whole(top)),
        !Scalar::ratio(num, den).negative(),
        Scalar::ratio(num, den).finite(),
{
    let one = crate::number::rounding::one_in_units() as int;
    crate::number::rounding::lemma_two_to_positive(UNIT_EXPONENT as nat);
    lemma_from_whole(num);
    lemma_from_whole(den);
    lemma_from_whole(top);
    let n = Scalar::from_whole(num);
    let d = Scalar::from_whole(den);
    let t = Scalar::from_whole(top);
    assert(d.magnitude() != 0) by {
        assert(d.value() >= 1) by (nonlinear_arith)
            requires
                d.value() == den * one,
                den >= 1,
                one >= 1,
        ;
    }
    let low = crate::number::rounding::fraction((num * one) * one, den * one);
    let high = crate::number::rounding::fraction(top * one, 1);
    assert(den * one > 0) by (nonlinear_arith)
        requires
            den >= 1,
            one >= 1,
    ;
    crate::number::rounding::lemma_nearest(low);
    crate::number::rounding::lemma_nearest(high);
    crate::number::rounding::lemma_fraction_falling(top * one, 1);
    assert forall|h: int| 0 <= h implies (#[trigger] low(h) > 0 ==> high(h) > 0) && (low(h) == 0
        ==> high(h) >= 0) by {
        assert((num * one) * one <= (top * den) * one * one) by (nonlinear_arith)
            requires
                num <= top * den,
                one >= 1,
        ;
        assert(low(h) == 2 * ((num * one) * one) - (den * one) * h);
        assert(high(h) == 2 * (top * one) - 1 * h);
        assert(low(h) <= (den * one) * high(h)) by (nonlinear_arith)
            requires
                low(h) == 2 * ((num * one) * one) - (den * one) * h,
                high(h) == 2 * (top * one) - 1 * h,
                (num * one) * one <= (top * den) * one * one,
        ;
        assert(high(h) <= 0 ==> (den * one) * high(h) <= 0) by (nonlinear_arith)
            requires
                den * one > 0,
        ;
        assert(high(h) < 0 ==> (den * one) * high(h) < 0) by (nonlinear_arith)
            requires
                den * one > 0,
        ;
    }
    let a = crate::number::rounding::nearest(low);
    let b = crate::number::rounding::nearest(high);
    crate::number::rounding::lemma_nearest_monotone(low, high, a, b);
    lemma_pack(false, a);
    assert(Scalar::ratio(num, den) == Scalar::pack(false, a));
    assert(t == Scalar::pack(false, b));
    if a < b {
        crate::number::rounding::lemma_units_ascend(a, b);
    }
}

pub proof fn lemma_negated(x: Scalar)
    ensures
        x.negated().value() == -x.value(),
        x.negated().finite() == x.finite(),
        x.negated().is_nan() == x.is_nan(),
        x.negated().magnitude() == x.magnitude(),
{
}

/// Rounding to a number keeps order, and keeps numbers.
pub proof fn lemma_nearest_to_order(v: int, w: int)
    requires
        v <= w,
    ensures
        !nearest_to(v).is_nan(),
        !nearest_to(w).is_nan(),
        nearest_to(v).value() <= nearest_to(w).value(),
        0 <= v ==> 0 <= nearest_to(v).value(),
        v <= 0 ==> nearest_to(v).value() <= 0,
{
    lemma_nearest_to_sign(v);
    lemma_nearest_to_sign(w);
    if 0 < v {
        lemma_whole_fraction_order(v, w);
    } else if w < 0 {
        lemma_whole_fraction_order(-w, -v);
    }
}

proof fn lemma_whole_fraction_order(v: int, w: int)
    requires
        0 < v <= w,
    ensures
        crate::number::rounding::units(
            crate::number::rounding::nearest(crate::number::rounding::fraction(v, 1)),
        ) <= crate::number::rounding::units(
            crate::number::rounding::nearest(crate::number::rounding::fraction(w, 1)),
        ),
{
    let low = crate::number::rounding::fraction(v, 1);
    let high = crate::number::rounding::fraction(w, 1);
    let a = crate::number::rounding::nearest(low);
    let b = crate::number::rounding::nearest(high);
    crate::number::rounding::lemma_nearest(low);
    crate::number::rounding::lemma_nearest(high);
    crate::number::rounding::lemma_fraction_falling(w, 1);
    crate::number::rounding::lemma_nearest_monotone(low, high, a, b);
    if a < b {
        crate::number::rounding::lemma_units_ascend(a, b);
    }
}

proof fn lemma_nearest_to_sign(v: int)
    ensures
        !nearest_to(v).is_nan(),
        0 <= v ==> 0 <= nearest_to(v).value(),
        v <= 0 ==> nearest_to(v).value() <= 0,
        v != 0 ==> nearest_to(v).magnitude() == crate::number::rounding::nearest(
            crate::number::rounding::fraction(
                if v < 0 {
                    -v
                } else {
                    v
                },
                1,
            ),
        ) && (v < 0 <==> nearest_to(v).negative()),
{
    if v != 0 {
        let w = if v < 0 {
            -v
        } else {
            v
        };
        let cut = crate::number::rounding::fraction(w, 1);
        crate::number::rounding::lemma_nearest(cut);
        lemma_pack(v < 0, crate::number::rounding::nearest(cut));
    }
}

/// A finite number is the nearest to its own value.
pub proof fn lemma_nearest_to_own(x: Scalar)
    requires
        !x.is_nan(),
    ensures
        nearest_to(x.value()).value() == x.value(),
{
    let v = x.value();
    lemma_nearest_to_sign(v);
    crate::number::arithmetic::lemma_zero_units(x.magnitude());
    if v != 0 {
        crate::number::arithmetic::lemma_own_magnitude(x.magnitude());
    }
}

/// A sum of finite numbers is the number nearest to the sum of their values.
pub proof fn lemma_plus_nearest(a: Scalar, b: Scalar)
    requires
        a.finite(),
        b.finite(),
    ensures
        a.plus(b).value() == nearest_to(a.value() + b.value()).value(),
        !a.plus(b).is_nan(),
        a.plus(b).magnitude() == nearest_to(a.value() + b.value()).magnitude(),
{
    lemma_nearest_to_sign(a.value() + b.value());
    lemma_pack(a.negative() && b.negative(), 0);
}

/// Adding what is not negative does not make a number smaller.
pub proof fn lemma_plus_grows(a: Scalar, by: Scalar)
    requires
        a.finite(),
        by.finite(),
        by.value() >= 0,
    ensures
        a.at_most(a.plus(by)),
        a.minus(by).at_most(a),
{
    lemma_negated(by);
    lemma_plus_nearest(a, by);
    lemma_plus_nearest(a, by.negated());
    lemma_nearest_to_own(a);
    lemma_nearest_to_order(a.value(), a.value() + by.value());
    lemma_nearest_to_order(a.value() - by.value(), a.value());
}

/// A value on a grid is the value of a finite number.
pub proof fn lemma_grid_number(v: int, g: nat)
    requires
        within_grid(v, g),
        g <= UNIT_EXPONENT,
    ensures
        nearest_to(v).finite(),
        nearest_to(v).value() == v,
{
    let step = crate::number::rounding::two_to(g) as int;
    crate::number::rounding::lemma_two_to_positive(g);
    lemma_nearest_to_sign(v);
    if v != 0 {
        let w = if v < 0 {
            -v
        } else {
            v
        };
        assert(w % step == 0) by {
            vstd::arithmetic::div_mod::lemma_fundamental_div_mod(v, step);
            let q = v / step;
            if v < 0 {
                assert(w == step * (-q)) by (nonlinear_arith)
                    requires
                        v == step * q,
                        w == -v,
                ;
                vstd::arithmetic::div_mod::lemma_mod_multiples_basic(-q, step);
                assert((-q) * step == step * (-q)) by (nonlinear_arith);
            }
        }
        vstd::arithmetic::div_mod::lemma_fundamental_div_mod(w, step);
        let n = w / step;
        assert(0 <= n <= GRID_REACH) by (nonlinear_arith)
            requires
                w == step * n,
                0 <= w <= GRID_REACH * step,
                step >= 1,
        ;
        let mag = lemma_representable(n as nat, g);
        assert(n * step == step * n) by (nonlinear_arith);
        assert(mag <= (g + 2) * (HIDDEN as nat));
        assert((g + 2) * (HIDDEN as nat) < INFINITE) by (nonlinear_arith)
            requires
                g <= 1074,
                HIDDEN == 0x10_0000_0000_0000,
                INFINITE == 0x7ff0_0000_0000_0000,
        ;
        crate::number::arithmetic::lemma_own_magnitude(mag);
    }
}

proof fn lemma_grid_sum(v: int, w: int, g: nat)
    requires
        v % (crate::number::rounding::two_to(g) as int) == 0,
        w % (crate::number::rounding::two_to(g) as int) == 0,
    ensures
        (v + w) % (crate::number::rounding::two_to(g) as int) == 0,
        (v - w) % (crate::number::rounding::two_to(g) as int) == 0,
{
    let step = crate::number::rounding::two_to(g) as int;
    crate::number::rounding::lemma_two_to_positive(g);
    vstd::arithmetic::div_mod::lemma_fundamental_div_mod(v, step);
    vstd::arithmetic::div_mod::lemma_fundamental_div_mod(w, step);
    let p = v / step;
    let q = w / step;
    assert(v + w == (p + q) * step && v - w == (p - q) * step) by (nonlinear_arith)
        requires
            v == step * p,
            w == step * q,
    ;
    vstd::arithmetic::div_mod::lemma_mod_multiples_basic(p + q, step);
    vstd::arithmetic::div_mod::lemma_mod_multiples_basic(p - q, step);
}

/// Sums on a grid are exact, as long as they stay in its reach.
pub proof fn lemma_grid_plus(a: Scalar, b: Scalar, g: nat)
    requires
        a.finite(),
        b.finite(),
        a.value() % (crate::number::rounding::two_to(g) as int) == 0,
        b.value() % (crate::number::rounding::two_to(g) as int) == 0,
        g <= UNIT_EXPONENT,
        -(GRID_REACH * crate::number::rounding::two_to(g)) <= a.value() + b.value() <= GRID_REACH
            * crate::number::rounding::two_to(g),
    ensures
        on_grid(a.plus(b), g),
        a.plus(b).value() == a.value() + b.value(),
{
    lemma_grid_sum(a.value(), b.value(), g);
    lemma_plus_nearest(a, b);
    lemma_grid_number(a.value() + b.value(), g);
}

/// Differences on a grid are exact, as long as they stay in its reach.
pub proof fn lemma_grid_minus(a: Scalar, b: Scalar, g: nat)
    requires
        a.finite(),
        b.finite(),
        a.value() % (crate::number::rounding::two_to(g) as int) == 0,
        b.value() % (crate::number::rounding::two_to(g) as int) == 0,
        g <= UNIT_EXPONENT,
        -(GRID_REACH * crate::number::rounding::two_to(g)) <= a.value() - b.value() <= GRID_REACH
            * crate::number::rounding::two_to(g),
    ensures
        on_grid(a.minus(b), g),
        a.minus(b).value() == a.value() - b.value(),
{
    lemma_negated(b);
    crate::number::rounding::lemma_two_to_positive(g);
    vstd::arithmetic::div_mod::lemma_mod_multiples_basic(
        0,
        crate::number::rounding::two_to(g) as int,
    );
    lemma_grid_sum(0, b.value(), g);
    lemma_grid_plus(a, b.negated(), g);
}

/// A whole number is on every grid up to the exponent of one.
pub proof fn lemma_whole_on_grid(n: int, g: nat)
    requires
        g <= UNIT_EXPONENT,
    ensures
        (n * crate::number::rounding::one_in_units()) % (crate::number::rounding::two_to(g) as int)
            == 0,
        crate::number::rounding::two_to(g) <= crate::number::rounding::one_in_units(),
{
    let step = crate::number::rounding::two_to(g) as int;
    let rest = (UNIT_EXPONENT - g) as nat;
    let k = crate::number::rounding::two_to(rest) as int;
    let one = crate::number::rounding::one_in_units() as int;
    crate::number::rounding::lemma_two_to_adds(rest, g);
    assert(one == k * step);
    assert(n * one == (n * k) * step) by (nonlinear_arith)
        requires
            one == k * step,
    ;
    assert(step <= one) by (nonlinear_arith)
        requires
            one == k * step,
            k >= 1,
            step >= 1,
    ;
    vstd::arithmetic::div_mod::lemma_mod_multiples_basic(n * k, step);
}

/// A product with a factor from zero to one is from zero to the other factor.
pub proof fn lemma_times_shrinks(x: Scalar, ratio: Scalar)
    requires
        x.finite(),
        x.value() >= 0,
        ratio.finite(),
        0 <= ratio.value() <= crate::number::rounding::one_in_units(),
    ensures
        x.times(ratio).finite(),
        0 <= x.times(ratio).value() <= x.value(),
{
    let one = crate::number::rounding::one_in_units() as int;
    crate::number::rounding::lemma_two_to_positive(UNIT_EXPONENT as nat);
    let u = crate::number::rounding::units(x.magnitude()) as int;
    let r = crate::number::rounding::units(ratio.magnitude()) as int;
    crate::number::arithmetic::lemma_zero_units(x.magnitude());
    crate::number::arithmetic::lemma_zero_units(ratio.magnitude());
    let low = crate::number::rounding::fraction(u * r, one);
    let high = crate::number::rounding::fraction(u, 1);
    crate::number::rounding::lemma_nearest(low);
    crate::number::arithmetic::lemma_own_magnitude(x.magnitude());
    crate::number::rounding::lemma_nearest(high);
    crate::number::rounding::lemma_fraction_falling(u, 1);
    assert forall|h: int| 0 <= h implies (#[trigger] low(h) > 0 ==> high(h) > 0) && (low(h) == 0
        ==> high(h) >= 0) by {
        assert(u * r <= u * one) by (nonlinear_arith)
            requires
                0 <= u,
                r <= one,
        ;
        assert(low(h) == 2 * (u * r) - one * h);
        assert(high(h) == 2 * u - 1 * h);
        assert(low(h) <= one * high(h)) by (nonlinear_arith)
            requires
                low(h) == 2 * (u * r) - one * h,
                high(h) == 2 * u - 1 * h,
                u * r <= u * one,
        ;
        assert(high(h) <= 0 ==> one * high(h) <= 0) by (nonlinear_arith)
            requires
                one >= 1,
        ;
        assert(high(h) < 0 ==> one * high(h) < 0) by (nonlinear_arith)
            requires
                one >= 1,
        ;
    }
    let a = crate::number::rounding::nearest(low);
    let b = crate::number::rounding::nearest(high);
    crate::number::rounding::lemma_nearest_monotone(low, high, a, b);
    let negative = x.negative() != ratio.negative();
    lemma_pack(negative, a);
    if a < b {
        crate::number::rounding::lemma_units_ascend(a, b);
    }
    if negative {
        // One of the factors is a negative zero.
        assert(u * r == 0) by (nonlinear_arith)
            requires
                u == 0 || r == 0,
        ;
        crate::number::arithmetic::lemma_nothing(one);
        assert(a == 0);
    }
}

/// Rounding a number from zero up to a whole one is exact within reach.
pub proof fn lemma_round_whole(x: Scalar)
    requires
        x.finite(),
        0 <= x.value() <= GRID_REACH * crate::number::rounding::one_in_units(),
    ensures
        x.round().finite(),
        x.round().value() == x.nearest_whole() * crate::number::rounding::one_in_units(),
        x.nearest_whole() <= GRID_REACH,
        -(crate::number::rounding::one_in_units() as int) <= 2 * (x.round().value() - x.value())
            <= crate::number::rounding::one_in_units(),
{
    let one = crate::number::rounding::one_in_units() as int;
    crate::number::rounding::lemma_two_to_positive(UNIT_EXPONENT as nat);
    let u = crate::number::rounding::units(x.magnitude()) as int;
    crate::number::arithmetic::lemma_zero_units(x.magnitude());
    let n = x.nearest_whole() as int;
    vstd::arithmetic::div_mod::lemma_fundamental_div_mod(2 * u + one, 2 * one);
    vstd::arithmetic::div_mod::lemma_mod_bound(2 * u + one, 2 * one);
    let rest = (2 * u + one) % (2 * one);
    let q = (2 * u + one) / (2 * one);
    assert(q >= 0) by (nonlinear_arith)
        requires
            2 * u + one == (2 * one) * q + rest,
            rest < 2 * one,
            u >= 0,
            one >= 1,
    ;
    assert(n == q);
    assert(n <= GRID_REACH) by (nonlinear_arith)
        requires
            2 * u + one == (2 * one) * n + rest,
            0 <= rest,
            u <= GRID_REACH * one,
            one >= 1,
    ;
    assert(-one <= 2 * (n * one - u) <= one) by (nonlinear_arith)
        requires
            2 * u + one == (2 * one) * n + rest,
            0 <= rest < 2 * one,
    ;
    let mag = lemma_representable(n as nat, UNIT_EXPONENT as nat);
    assert(mag <= INFINITE);
    crate::number::arithmetic::lemma_own_magnitude(mag);
    lemma_pack(x.negative(), mag);
    assert(crate::number::rounding::units(mag) == n * one);
    if x.negative() {
        // A negative zero.
        assert(u == 0);
        assert(n == 0) by (nonlinear_arith)
            requires
                2 * u + one == (2 * one) * n + rest,
                0 <= rest < 2 * one,
                u == 0,
                n >= 0,
                one >= 1,
        ;
        assert(n * one == 0) by (nonlinear_arith)
            requires
                n == 0,
        ;
    }
}

/// The order of whole numbers survives rounding.
pub proof fn lemma_whole_ascend(a: u64, b: u64)
    requires
        a <= b,
    ensures
        Scalar::from_whole(a).at_most(Scalar::from_whole(b)),
        Scalar::from_whole(b).finite(),
        !Scalar::from_whole(a).negative(),
        0 < a ==> Scalar::from_whole(a).value() > 0,
{
    let one = crate::number::rounding::one_in_units() as int;
    crate::number::rounding::lemma_two_to_positive(UNIT_EXPONENT as nat);
    assert(a * one <= b * one) by (nonlinear_arith)
        requires
            a <= b,
            one >= 1,
    ;
    assert(0 < a ==> one <= a * one) by (nonlinear_arith)
        requires
            one >= 1,
    ;
    assert(0 <= a * one) by (nonlinear_arith)
        requires
            one >= 1,
    ;
    // All of them are at most two to the power 64.
    let top = lemma_representable(0x8_0000, (UNIT_EXPONENT + 45) as nat);
    let high = crate::number::rounding::two_to((UNIT_EXPONENT + 45) as nat) as int;
    crate::number::rounding::lemma_two_to_adds(45, UNIT_EXPONENT as nat);
    assert(crate::number::rounding::two_to(45) == 0x2000_0000_0000) by {
        reveal_with_fuel(crate::number::rounding::two_to, 46);
    }
    assert(b * one <= 0x8_0000 * high) by (nonlinear_arith)
        requires
            b <= 0xffff_ffff_ffff_ffff,
            high == 0x2000_0000_0000 * one,
            one >= 1,
    ;
    assert(top < INFINITE);
    let n = Scalar::from_whole(a);
    let m = Scalar::from_whole(b);
    lemma_from_whole_nearest(a);
    lemma_from_whole_nearest(b);
    lemma_nearest_to_order(a * one, b * one);
    lemma_nearest_to_order(b * one, 0x8_0000 * high);
    lemma_pack(false, top);
    let ceiling = Scalar::pack(false, top);
    assert(ceiling.value() == 0x8_0000 * high);
    lemma_nearest_to_own(ceiling);
    if m.magnitude() > top {
        crate::number::rounding::lemma_units_ascend(top, m.magnitude());
    }
    if a > 0 {
        lemma_from_whole(1);
        lemma_from_whole_nearest(1);
        lemma_nearest_to_order(1 * one, a * one);
    }
}

proof fn lemma_from_whole_nearest(n: u64)
    ensures
        Scalar::from_whole(n) == nearest_to(n * crate::number::rounding::one_in_units()),
        !Scalar::from_whole(n).negative(),
{
    let one = crate::number::rounding::one_in_units() as int;
    crate::number::rounding::lemma_two_to_positive(UNIT_EXPONENT as nat);
    assert(n * one >= 0) by (nonlinear_arith)
        requires
            one >= 1,
    ;
    if n * one == 0 {
        crate::number::arithmetic::lemma_nothing(1);
    } else {
        lemma_nearest_to_sign(n * one);
    }
}

/// A quotient of what is not negative by something no less is from zero to one.
pub proof fn lemma_over_at_most_one(a: Scalar, b: Scalar)
    requires
        a.finite(),
        b.finite(),
        !a.negative(),
        !b.negative(),
        a.value() <= b.value(),
        0 < b.value(),
    ensures
        a.over(b).finite(),
        0 <= a.over(b).value() <= crate::number::rounding::one_in_units(),
{
    let one = crate::number::rounding::one_in_units() as int;
    crate::number::rounding::lemma_two_to_positive(UNIT_EXPONENT as nat);
    crate::number::arithmetic::lemma_zero_units(b.magnitude());
    let u = a.value();
    let w = b.value();
    let low = crate::number::rounding::fraction(u * one, w);
    let high = crate::number::rounding::fraction(one, 1);
    crate::number::rounding::lemma_nearest(low);
    let top = lemma_representable(1, UNIT_EXPONENT as nat);
    assert(crate::number::rounding::units(top) == one);
    assert(top < INFINITE);
    crate::number::arithmetic::lemma_own_magnitude(top);
    crate::number::rounding::lemma_nearest(high);
    crate::number::rounding::lemma_fraction_falling(one, 1);
    assert forall|h: int| 0 <= h implies (#[trigger] low(h) > 0 ==> high(h) > 0) && (low(h) == 0
        ==> high(h) >= 0) by {
        assert(low(h) == 2 * (u * one) - w * h);
        assert(high(h) == 2 * one - 1 * h);
        assert(low(h) <= w * high(h)) by (nonlinear_arith)
            requires
                low(h) == 2 * (u * one) - w * h,
                high(h) == 2 * one - 1 * h,
                u <= w,
                one >= 1,
        ;
        assert(high(h) <= 0 ==> w * high(h) <= 0) by (nonlinear_arith)
            requires
                w >= 1,
        ;
        assert(high(h) < 0 ==> w * high(h) < 0) by (nonlinear_arith)
            requires
                w >= 1,
        ;
    }
    let x = crate::number::rounding::nearest(low);
    crate::number::rounding::lemma_nearest_monotone(low, high, x, top);
    lemma_pack(false, x);
    if x < top {
        crate::number::rounding::lemma_units_ascend(x, top);
    }
}

/// How far a fraction is from the magnitude it rounds to: half a gap at most.
pub proof fn lemma_rounding_error(num: int, den: int)
    requires
        num >= 0,
        den > 0,
        crate::number::rounding::nearest(crate::number::rounding::fraction(num, den)) < INFINITE,
    ensures
        ({
            let mag = crate::number::rounding::nearest(
                crate::number::rounding::fraction(num, den),
            );
            let u = crate::number::rounding::units(mag) as int;
            let gap = crate::number::rounding::gap(mag) as int;
            &&& -(den * gap) <= 2 * (den * u - num) <= den * gap
            &&& gap == 1 || gap * HIDDEN <= u
            &&& gap >= 1
        }),
{
    let cut = crate::number::rounding::fraction(num, den);
    crate::number::rounding::lemma_nearest(cut);
    let mag = crate::number::rounding::nearest(cut);
    let u = crate::number::rounding::units(mag) as int;
    let gap = crate::number::rounding::gap(mag) as int;
    crate::number::rounding::lemma_units_step(mag);
    let up = crate::number::rounding::upper_edge(mag);
    assert(up == 2 * u + gap);
    assert(cut(up) <= 0);
    assert(2 * num <= den * (2 * u + gap));
    assert(-(den * gap) <= 2 * (den * u - num)) by (nonlinear_arith)
        requires
            2 * num <= den * (2 * u + gap),
    ;
    if mag > 0 {
        let below = crate::number::rounding::gap((mag - 1) as nat) as int;
        crate::number::rounding::lemma_units_step((mag - 1) as nat);
        let down = crate::number::rounding::upper_edge((mag - 1) as nat);
        assert(down == 2 * u - below);
        assert(cut(down) >= 0);
        assert(2 * num >= den * (2 * u - below));
        lemma_gaps_ascend(mag);
        assert(2 * (den * u - num) <= den * gap) by (nonlinear_arith)
            requires
                2 * num >= den * (2 * u - below),
                below <= gap,
                den > 0,
        ;
    } else {
        assert(2 * (den * u - num) <= den * gap) by (nonlinear_arith)
            requires
                u == 0,
                num >= 0,
                den > 0,
                gap >= 1,
        ;
    }
    if mag >= HIDDEN {
        let h = HIDDEN as int;
        let r = (mag % (HIDDEN as nat)) as int;
        assert(gap * h <= (h + r) * gap) by (nonlinear_arith)
            requires
                r >= 0,
                gap >= 1,
        ;
    }
}

pub proof fn lemma_gaps_ascend(mag: nat)
    requires
        mag > 0,
    ensures
        crate::number::rounding::gap((mag - 1) as nat) <= crate::number::rounding::gap(mag),
{
    let h = HIDDEN as nat;
    if mag < HIDDEN {
    } else if mag == HIDDEN {
        crate::number::rounding::lemma_two_to_positive((mag / h - 1) as nat);
    } else {
        let p = ((mag - 1) as nat / h - 1) as nat;
        let q = (mag / h - 1) as nat;
        assert(p == q || p + 1 == q) by {
            assert(mag / h == (mag - 1) as nat / h || mag / h == (mag - 1) as nat / h + 1);
        }
        crate::number::rounding::lemma_two_to_positive(p);
    }
}

/// Rounding a large number is no rounding at all.
pub proof fn lemma_round_large(x: Scalar)
    requires
        x.finite(),
        x.value() >= GRID_REACH * crate::number::rounding::one_in_units(),
    ensures
        x.round().finite(),
        x.round().value() == x.value(),
{
    let one = crate::number::rounding::one_in_units() as int;
    crate::number::rounding::lemma_two_to_positive(UNIT_EXPONENT as nat);
    let h = HIDDEN as nat;
    let m = x.magnitude();
    let u = crate::number::rounding::units(m) as int;
    crate::number::arithmetic::lemma_zero_units(m);
    assert(GRID_REACH * one >= one) by (nonlinear_arith)
        requires
            one >= 1,
            GRID_REACH >= 1,
    ;
    assert(x.value() == u);
    assert(one >= h) by {
        crate::number::rounding::lemma_two_to_adds(1022, 52);
        crate::number::significand::lemma_known_powers();
        let k = crate::number::rounding::two_to(1022) as int;
        assert(k * h >= h) by (nonlinear_arith)
            requires
                k >= 1,
                h >= 0,
        ;
    }
    assert(m >= HIDDEN) by {
        if m < HIDDEN {
            assert(GRID_REACH * one >= h) by (nonlinear_arith)
                requires
                    one >= h,
                    GRID_REACH >= 1,
            ;
        }
    }
    let e = (m / h - 1) as nat;
    let n = (h + m % h) as int;
    let step = crate::number::rounding::two_to(e) as int;
    assert(u == n * step);
    if e < UNIT_EXPONENT {
        let d = (UNIT_EXPONENT - e) as nat;
        crate::number::rounding::lemma_two_to_adds(d, e);
        crate::number::rounding::lemma_two_to_positive(d);
        let k = crate::number::rounding::two_to(d) as int;
        assert(u < GRID_REACH * one) by (nonlinear_arith)
            requires
                u == n * step,
                n < GRID_REACH,
                one == k * step,
                k >= 1,
                step >= 1,
        ;
    }
    let d = (e - UNIT_EXPONENT) as nat;
    crate::number::rounding::lemma_two_to_adds(d, UNIT_EXPONENT as nat);
    let k = crate::number::rounding::two_to(d) as int;
    let whole = n * k;
    assert(u == whole * one && whole >= 0) by (nonlinear_arith)
        requires
            u == n * step,
            step == k * one,
            whole == n * k,
            n >= 0,
            k >= 1,
    ;
    assert(2 * u + one == whole * (2 * one) + one) by (nonlinear_arith)
        requires
            u == whole * one,
    ;
    vstd::arithmetic::div_mod::lemma_fundamental_div_mod_converse(2 * u + one, 2 * one, whole, one);
    assert(x.nearest_whole() == whole);
    crate::number::arithmetic::lemma_own_magnitude(m);
}

/// A product depends on the values of its factors, up to the sign of a zero.
pub proof fn lemma_times_value(x: Scalar, y: Scalar)
    requires
        x.finite(),
        y.finite(),
    ensures
        !x.times(y).is_nan(),
        crate::number::rounding::units(x.times(y).magnitude()) == crate::number::rounding::units(
            crate::number::rounding::nearest(
                crate::number::rounding::fraction(
                    crate::number::rounding::units(x.magnitude()) as int
                        * crate::number::rounding::units(y.magnitude()) as int,
                    crate::number::rounding::one_in_units() as int,
                ),
            ),
        ),
        x.value() == 0 || y.value() == 0 ==> x.times(y).value() == 0 && x.times(y).finite(),
        x.times(y).value() >= 0 <== x.value() >= 0 && y.value() >= 0,
        x.times(y).value() <= 0 <== x.value() >= 0 && y.value() <= 0,
{
    let one = crate::number::rounding::one_in_units() as int;
    crate::number::rounding::lemma_two_to_positive(UNIT_EXPONENT as nat);
    let u = crate::number::rounding::units(x.magnitude()) as int;
    let w = crate::number::rounding::units(y.magnitude()) as int;
    let cut = crate::number::rounding::fraction(u * w, one);
    crate::number::rounding::lemma_nearest(cut);
    let m = crate::number::rounding::nearest(cut);
    lemma_pack(x.negative() != y.negative(), m);
    crate::number::arithmetic::lemma_zero_units(x.magnitude());
    crate::number::arithmetic::lemma_zero_units(y.magnitude());
    if u == 0 || w == 0 {
        assert(u * w == 0) by (nonlinear_arith)
            requires
                u == 0 || w == 0,
        ;
        crate::number::arithmetic::lemma_nothing(one);
        assert(crate::number::rounding::units(0) == 0);
    }
}

/// Factors of the same values give products of the same value.
pub proof fn lemma_times_by_value(x: Scalar, y: Scalar, v: Scalar, w: Scalar)
    requires
        x.finite(),
        y.finite(),
        v.finite(),
        w.finite(),
        x.value() == v.value(),
        y.value() == w.value(),
    ensures
        x.times(y).value() == v.times(w).value(),
        x.times(y).finite() == v.times(w).finite(),
{
    lemma_same_magnitude(x, v);
    lemma_same_magnitude(y, w);
    lemma_times_value(x, y);
    lemma_times_value(v, w);
    crate::number::arithmetic::lemma_zero_units(x.magnitude());
    crate::number::arithmetic::lemma_zero_units(y.magnitude());
    if x.value() != 0 && y.value() != 0 {
        assert(x.negative() == v.negative() && y.negative() == w.negative());
    }
}

proof fn lemma_same_magnitude(x: Scalar, v: Scalar)
    requires
        x.finite(),
        v.finite(),
        x.value() == v.value(),
    ensures
        x.magnitude() == v.magnitude(),
        x.value() != 0 ==> x.negative() == v.negative(),
{
    crate::number::arithmetic::lemma_zero_units(x.magnitude());
    crate::number::arithmetic::lemma_zero_units(v.magnitude());
    if x.magnitude() < v.magnitude() {
        crate::number::rounding::lemma_units_ascend(x.magnitude(), v.magnitude());
    } else if v.magnitude() < x.magnitude() {
        crate::number::rounding::lemma_units_ascend(v.magnitude(), x.magnitude());
    }
}

/// A negated factor negates the product.
pub proof fn lemma_times_negated(x: Scalar, y: Scalar)
    requires
        x.finite(),
        y.finite(),
    ensures
        x.times(y.negated()).value() == -x.times(y).value(),
        x.times(y.negated()).finite() == x.times(y).finite(),
{
    let one = crate::number::rounding::one_in_units() as int;
    let u = crate::number::rounding::units(x.magnitude()) as int;
    let w = crate::number::rounding::units(y.magnitude()) as int;
    let cut = crate::number::rounding::fraction(u * w, one);
    crate::number::rounding::lemma_nearest(cut);
    let m = crate::number::rounding::nearest(cut);
    lemma_negated(y);
    lemma_pack(x.negative() != y.negative(), m);
    lemma_pack(x.negative() != y.negated().negative(), m);
}

/// Multiplying by one changes nothing.
pub proof fn lemma_times_one(x: Scalar)
    requires
        x.finite(),
    ensures
        Scalar::from_whole(1).times(x).finite(),
        Scalar::from_whole(1).times(x).value() == x.value(),
        x.times(Scalar::from_whole(1)).finite(),
        x.times(Scalar::from_whole(1)).value() == x.value(),
{
    let one = crate::number::rounding::one_in_units() as int;
    crate::number::rounding::lemma_two_to_positive(UNIT_EXPONENT as nat);
    lemma_from_whole(1);
    let unit = Scalar::from_whole(1);
    let u = crate::number::rounding::units(x.magnitude()) as int;
    assert(crate::number::rounding::units(unit.magnitude()) == 1 * one);
    assert(1 * one == one);
    lemma_whole_fraction(u, one, x.magnitude());
    assert(one * u == u * one) by (nonlinear_arith);
    lemma_pack(unit.negative() != x.negative(), x.magnitude());
    lemma_pack(x.negative() != unit.negative(), x.magnitude());
}

/// `u * den / den` is `u`.
proof fn lemma_whole_fraction(u: int, den: int, mag: nat)
    requires
        den > 0,
        mag <= INFINITE,
        u == crate::number::rounding::units(mag),
    ensures
        crate::number::rounding::nearest(crate::number::rounding::fraction(u * den, den)) == mag,
{
    let cut = crate::number::rounding::fraction(u * den, den);
    crate::number::rounding::lemma_fraction_falling(u * den, den);
    assert(cut(2 * u) == 2 * (u * den) - den * (2 * u));
    assert(2 * (u * den) == den * (2 * u)) by (nonlinear_arith);
    crate::number::rounding::lemma_nearest_exact(cut, mag);
}

/// A number over one of the same value is one.
pub proof fn lemma_over_same(x: Scalar, y: Scalar)
    requires
        x.finite(),
        y.finite(),
        x.value() == y.value(),
        x.value() > 0,
    ensures
        x.over(y).finite(),
        x.over(y).value() == crate::number::rounding::one_in_units(),
{
    let one = crate::number::rounding::one_in_units() as int;
    crate::number::rounding::lemma_two_to_positive(UNIT_EXPONENT as nat);
    lemma_same_magnitude(x, y);
    crate::number::arithmetic::lemma_zero_units(x.magnitude());
    let u = crate::number::rounding::units(x.magnitude()) as int;
    let mag = lemma_representable(1, UNIT_EXPONENT as nat);
    assert(crate::number::rounding::units(mag) == one);
    assert(mag < INFINITE);
    lemma_whole_fraction(one, u, mag);
    assert(u * one == one * u) by (nonlinear_arith);
    lemma_pack(false, mag);
}

/// Adding a zero changes no value.
pub proof fn lemma_plus_nothing(x: Scalar, z: Scalar)
    requires
        x.finite(),
        z.finite(),
        z.value() == 0,
    ensures
        x.plus(z).finite(),
        x.plus(z).value() == x.value(),
        z.plus(x).finite(),
        z.plus(x).value() == x.value(),
{
    lemma_plus_nearest(x, z);
    lemma_plus_nearest(z, x);
    lemma_nearest_to_sign(x.value());
    crate::number::arithmetic::lemma_zero_units(x.magnitude());
    if x.value() != 0 {
        crate::number::arithmetic::lemma_own_magnitude(x.magnitude());
    }
}

/// Sums depend on the values of their terms only.
pub proof fn lemma_plus_by_value(x: Scalar, y: Scalar, v: Scalar, w: Scalar)
    requires
        x.finite(),
        y.finite(),
        v.finite(),
        w.finite(),
        x.value() == v.value(),
        y.value() == w.value(),
    ensures
        x.plus(y).value() == v.plus(w).value(),
        x.plus(y).finite() == v.plus(w).finite(),
{
    lemma_plus_nearest(x, y);
    lemma_plus_nearest(v, w);
}

/// The value of a finite number as a significand and an exponent.
proof fn lemma_parts(x: Scalar) -> (r: (nat, nat))
    requires
        x.finite(),
    ensures
        crate::number::rounding::units(x.magnitude()) == r.0 * crate::number::rounding::two_to(r.1),
        r.0 < GRID_REACH,
        r.1 > 0 ==> r.0 >= HIDDEN,
{
    let h = HIDDEN as nat;
    let m = x.magnitude();
    if m < HIDDEN {
        assert(crate::number::rounding::two_to(0) == 1);
        assert(m * 1 == m);
        (m, 0)
    } else {
        (h + m % h, (m / h - 1) as nat)
    }
}

/// A difference of two numbers of which neither is more than twice the other is exact.
pub proof fn lemma_close_difference(x: Scalar, y: Scalar)
    requires
        x.finite(),
        y.finite(),
        0 <= x.value() <= 2 * y.value(),
        y.value() <= 2 * x.value(),
    ensures
        x.minus(y).finite(),
        x.minus(y).value() == x.value() - y.value(),
{
    let u = x.value();
    let w = y.value();
    crate::number::arithmetic::lemma_zero_units(x.magnitude());
    crate::number::arithmetic::lemma_zero_units(y.magnitude());
    let (n, e) = lemma_parts(x);
    let (m, k) = lemma_parts(y);
    let d = if u >= w {
        u - w
    } else {
        w - u
    };
    let t = if e <= k {
        e
    } else {
        k
    };
    let step = crate::number::rounding::two_to(t) as int;
    crate::number::rounding::lemma_two_to_positive(t);
    let a = crate::number::rounding::two_to((e - t) as nat) as int;
    let b = crate::number::rounding::two_to((k - t) as nat) as int;
    crate::number::rounding::lemma_two_to_adds((e - t) as nat, t);
    crate::number::rounding::lemma_two_to_adds((k - t) as nat, t);
    let c = if u >= w {
        n * a - m * b
    } else {
        m * b - n * a
    };
    assert(d == c * step) by (nonlinear_arith)
        requires
            u == n * (a * step),
            w == m * (b * step),
            d == (if u >= w {
                u - w
            } else {
                w - u
            }),
            c == (if u >= w {
                n * a - m * b
            } else {
                m * b - n * a
            }),
    ;
    let smaller: int = if e <= k {
        n as int
    } else {
        m as int
    };
    assert(d <= smaller * step) by {
        if e <= k {
            assert(crate::number::rounding::two_to(0) == 1);
            assert(a == 1);
            assert(n * (1 * step) == n * step) by (nonlinear_arith);
        } else {
            assert(b == 1);
            assert(m * (1 * step) == m * step) by (nonlinear_arith);
        }
    }
    assert(0 <= c <= GRID_REACH) by (nonlinear_arith)
        requires
            d == c * step,
            0 <= d <= smaller * step,
            smaller < GRID_REACH,
            step >= 1,
    ;
    let mag = lemma_representable(c as nat, t);
    // No larger than one of the two numbers, and so finite.
    assert(mag < INFINITE) by {
        let larger = if x.magnitude() >= y.magnitude() {
            x.magnitude()
        } else {
            y.magnitude()
        };
        if larger < mag {
            crate::number::rounding::lemma_units_ascend(larger, mag);
            if x.magnitude() < larger {
                crate::number::rounding::lemma_units_ascend(x.magnitude(), larger);
            }
            if y.magnitude() < larger {
                crate::number::rounding::lemma_units_ascend(y.magnitude(), larger);
            }
        }
    }
    crate::number::arithmetic::lemma_own_magnitude(mag);
    lemma_negated(y);
    lemma_plus_nearest(x, y.negated());
    lemma_nearest_to_sign(u - w);
    lemma_pack(u < w, mag);
}

/// Rounding treats both signs alike.
pub proof fn lemma_nearest_to_mirrored(v: int)
    ensures
        nearest_to(-v).value() == -nearest_to(v).value(),
        nearest_to(-v).magnitude() == nearest_to(v).magnitude(),
{
    lemma_nearest_to_sign(v);
    lemma_nearest_to_sign(-v);
}

/// A fraction that is at most a magnitude rounds to no more.
pub proof fn lemma_rounds_below(num: int, den: int, m: nat, top: nat)
    requires
        den > 0,
        m == crate::number::rounding::nearest(crate::number::rounding::fraction(num, den)),
        top <= INFINITE,
        num <= den * crate::number::rounding::units(top),
    ensures
        crate::number::rounding::units(m) <= crate::number::rounding::units(top),
{
    let low = crate::number::rounding::fraction(num, den);
    let t = crate::number::rounding::units(top) as int;
    let high = crate::number::rounding::fraction(t, 1);
    crate::number::rounding::lemma_nearest(low);
    crate::number::arithmetic::lemma_own_magnitude(top);
    crate::number::rounding::lemma_nearest(high);
    crate::number::rounding::lemma_fraction_falling(t, 1);
    assert forall|h: int| 0 <= h implies (#[trigger] low(h) > 0 ==> high(h) > 0) && (low(h) == 0
        ==> high(h) >= 0) by {
        lemma_compare(num, den, t, h);
    }
    crate::number::rounding::lemma_nearest_monotone(low, high, m, top);
    if m < top {
        crate::number::rounding::lemma_units_ascend(m, top);
    }
}

proof fn lemma_compare(num: int, den: int, t: int, h: int)
    requires
        den > 0,
        num <= den * t,
    ensures
        2 * num - den * h > 0 ==> 2 * t - h > 0,
        2 * num - den * h == 0 ==> 2 * t - h >= 0,
{
    assert(2 * num - den * h <= den * (2 * t - h)) by (nonlinear_arith)
        requires
            num <= den * t,
    ;
    assert(2 * t - h <= 0 ==> den * (2 * t - h) <= 0) by (nonlinear_arith)
        requires
            den > 0,
    ;
    assert(2 * t - h < 0 ==> den * (2 * t - h) < 0) by (nonlinear_arith)
        requires
            den > 0,
    ;
}

/// A fraction that is at least a magnitude rounds to no less.
pub proof fn lemma_rounds_above(num: int, den: int, m: nat, floor: nat)
    requires
        den > 0,
        m == crate::number::rounding::nearest(crate::number::rounding::fraction(num, den)),
        floor <= INFINITE,
        den * crate::number::rounding::units(floor) <= num,
    ensures
        crate::number::rounding::units(floor) <= crate::number::rounding::units(m),
{
    let high = crate::number::rounding::fraction(num, den);
    let t = crate::number::rounding::units(floor) as int;
    let low = crate::number::rounding::fraction(t, 1);
    crate::number::rounding::lemma_nearest(high);
    crate::number::arithmetic::lemma_own_magnitude(floor);
    crate::number::rounding::lemma_nearest(low);
    crate::number::rounding::lemma_fraction_falling(num, den);
    assert forall|h: int| 0 <= h implies (#[trigger] low(h) > 0 ==> high(h) > 0) && (low(h) == 0
        ==> high(h) >= 0) by {
        assert(low(h) == 2 * t - 1 * h);
        assert(high(h) == 2 * num - den * h);
        assert(den * (2 * t - h) <= 2 * num - den * h) by (nonlinear_arith)
            requires
                den * t <= num,
        ;
        assert(2 * t - h > 0 ==> den * (2 * t - h) > 0) by (nonlinear_arith)
            requires
                den > 0,
        ;
        assert(2 * t - h == 0 ==> den * (2 * t - h) == 0) by (nonlinear_arith);
    }
    crate::number::rounding::lemma_nearest_monotone(low, high, floor, m);
    if floor < m {
        crate::number::rounding::lemma_units_ascend(floor, m);
    }
}

/// The weight of the hidden bit is a power of two.
pub proof fn lemma_known_power()
    ensures
        crate::number::rounding::two_to(52) == HIDDEN,
{
    crate::number::significand::lemma_known_powers();
}

/// A number that is not negative is the whole number of the same value.
proof fn lemma_is_whole(x: Scalar, n: u64)
    requires
        n <= GRID_REACH,
        x.finite(),
        !x.negative(),
        x.value() == n * crate::number::rounding::one_in_units(),
    ensures
        x == Scalar::from_whole(n),
{
    lemma_from_whole(n);
    lemma_same_magnitude(x, Scalar::from_whole(n));
    assert(x.bits == x.magnitude());
    assert(Scalar::from_whole(n).bits == Scalar::from_whole(n).magnitude());
}

/// Whole numbers of up to 53 bits add, subtract, multiply, round and compare as such.
pub proof fn law_whole_numbers_are_exact(a: u64, b: u64)
    requires
        a <= GRID_REACH,
        b <= GRID_REACH,
    ensures
        a + b <= GRID_REACH ==> Scalar::from_whole(a).plus(Scalar::from_whole(b))
            == Scalar::from_whole((a + b) as u64),
        b <= a ==> Scalar::from_whole(a).minus(Scalar::from_whole(b)) == Scalar::from_whole(
            (a - b) as u64,
        ),
        a * b <= GRID_REACH ==> Scalar::from_whole(a).times(Scalar::from_whole(b))
            == Scalar::from_whole((a * b) as u64),
        Scalar::from_whole(a).round() == Scalar::from_whole(a),
        Scalar::from_whole(a).less(Scalar::from_whole(b)) <==> a < b,
        Scalar::from_whole(a).at_most(Scalar::from_whole(b)) <==> a <= b,
        Scalar::from_whole(a).same(Scalar::from_whole(b)) <==> a == b,
{
    let one = crate::number::rounding::one_in_units() as int;
    crate::number::rounding::lemma_two_to_positive(UNIT_EXPONENT as nat);
    let x = Scalar::from_whole(a);
    let y = Scalar::from_whole(b);
    lemma_from_whole(a);
    lemma_from_whole(b);
    crate::number::arithmetic::lemma_zero_units(x.magnitude());
    crate::number::arithmetic::lemma_zero_units(y.magnitude());
    assert((a < b <==> a * one < b * one) && (a <= b <==> a * one <= b * one) && (a == b <==> a
        * one == b * one)) by (nonlinear_arith)
        requires
            one >= 1,
    ;
    let g = UNIT_EXPONENT as nat;
    lemma_whole_on_grid(a as int, g);
    lemma_whole_on_grid(b as int, g);
    if a + b <= GRID_REACH {
        let n = (a + b) as u64;
        assert(n * one == a * one + b * one && 0 <= n * one <= GRID_REACH * one)
            by (nonlinear_arith)
            requires
                n == a + b,
                n <= GRID_REACH,
                one >= 1,
        ;
        lemma_grid_plus(x, y, g);
        let sum = x.plus(y);
        lemma_plus_sign(x, y);
        lemma_is_whole(sum, n);
    }
    if b <= a {
        let n = (a - b) as u64;
        assert(n * one == a * one - b * one && 0 <= n * one <= GRID_REACH * one)
            by (nonlinear_arith)
            requires
                n == a - b,
                n <= GRID_REACH,
                one >= 1,
        ;
        lemma_grid_minus(x, y, g);
        lemma_plus_sign(x, y.negated());
        lemma_is_whole(x.minus(y), n);
    }
    if a * b <= GRID_REACH {
        let n = (a * b) as u64;
        let mag = lemma_representable(n as nat, g);
        assert(mag < INFINITE);
        assert((a * one) * (b * one) == (n * one) * one) by (nonlinear_arith)
            requires
                n == a * b,
        ;
        lemma_whole_fraction(n * one, one, mag);
        lemma_pack(false, mag);
        lemma_is_whole(x.times(y), n);
    }
    assert(0 <= a * one <= GRID_REACH * one) by (nonlinear_arith)
        requires
            a <= GRID_REACH,
            one >= 1,
    ;
    lemma_round_whole(x);
    assert(one == 2 * crate::number::rounding::two_to(1073));
    crate::number::rounding::lemma_two_to_positive(1073);
    let n = x.nearest_whole() as int;
    assert(n == a) by (nonlinear_arith)
        requires
            -one <= 2 * (n * one - a * one) <= one,
            one >= 2,
    ;
    let mag = lemma_representable(a as nat, g);
    assert(mag < INFINITE);
    crate::number::arithmetic::lemma_own_magnitude(mag);
    lemma_pack(false, mag);
    lemma_is_whole(x.round(), a);
}

/// A sum that is not negative has no sign, unless both terms have.
proof fn lemma_plus_sign(x: Scalar, y: Scalar)
    requires
        x.finite(),
        y.finite(),
        x.value() + y.value() >= 0,
        !x.negative() || !y.negative(),
    ensures
        !x.plus(y).negative(),
{
    let v = x.value() + y.value();
    lemma_pack(false, 0);
    if v != 0 {
        lemma_nearest_to_sign(v);
    }
}

} // verus!
