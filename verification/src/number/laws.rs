//! What the operations on numbers come to.

use vstd::prelude::*;

use crate::number::exact::GRID_REACH;
use crate::number::rounding::{INFINITE, UNIT_EXPONENT};
use crate::number::scalar::Scalar;

verus! {

/// Numbers compare by value, and what is not a number compares with nothing.
pub proof fn law_numbers_compare_by_value(x: Scalar, y: Scalar)
    ensures
        !x.is_nan() && !y.is_nan() ==> {
            &&& x.less(y) <==> x.value() < y.value()
            &&& x.at_most(y) <==> x.value() <= y.value()
            &&& x.same(y) <==> x.value() == y.value()
        },
        x.is_nan() || y.is_nan() ==> !x.less(y) && !x.at_most(y) && !x.same(y),
{
}

/// The smaller and the larger of two numbers are those two, in order. Where one of them is
/// not a number both are the other.
pub proof fn law_smaller_and_larger(x: Scalar, y: Scalar)
    ensures
        !x.is_nan() && !y.is_nan() ==> {
            let low = x.min(y);
            let high = x.max(y);
            &&& low == x || low == y
            &&& high == x || high == y
            &&& low.value() <= x.value() <= high.value()
            &&& low.value() <= y.value() <= high.value()
        },
        x.is_nan() ==> x.min(y) == y && x.max(y) == y,
        !x.is_nan() && y.is_nan() ==> x.min(y) == x && x.max(y) == x,
{
}

/// A clamped number is the nearest to it between two others.
pub proof fn law_clamped_is_the_nearest_between(x: Scalar, low: Scalar, high: Scalar)
    requires
        low.at_most(high),
    ensures
        ({
            let got = x.clamp(low, high);
            &&& !x.is_nan() ==> low.value() <= got.value() <= high.value()
            &&& !x.is_nan() && low.value() <= x.value() <= high.value() ==> got.value() == x.value()
            &&& !x.is_nan() && x.value() < low.value() ==> got.value() == low.value()
            &&& !x.is_nan() && high.value() < x.value() ==> got.value() == high.value()
            &&& x.is_nan() ==> got.is_nan()
        }),
{
}

/// Negating a number changes its sign and nothing else; its magnitude is the number without
/// it.
pub proof fn law_sign_and_magnitude(x: Scalar)
    ensures
        x.negated().value() == -x.value(),
        x.negated().negated() == x,
        x.negated().is_nan() == x.is_nan(),
        x.negated().finite() == x.finite(),
        x.abs().value() == (if x.value() < 0 {
            -x.value()
        } else {
            x.value()
        }),
        x.abs().is_nan() == x.is_nan(),
        x.abs().finite() == x.finite(),
{
    crate::number::exact::lemma_negated(x);
    crate::number::exact::lemma_negated(x.negated());
    crate::number::arithmetic::lemma_zero_units(x.magnitude());
}

/// No magnitude is nearer to a fraction than the one that it rounds to.
proof fn lemma_none_is_nearer(num: int, den: int, k: nat)
    requires
        num >= 0,
        den > 0,
        k <= INFINITE,
        crate::number::rounding::nearest(crate::number::rounding::fraction(num, den)) < INFINITE,
    ensures
        ({
            let m = crate::number::rounding::nearest(crate::number::rounding::fraction(num, den));
            crate::number::error::far(den * crate::number::rounding::units(m) - num)
                <= crate::number::error::far(den * crate::number::rounding::units(k) - num)
        }),
{
    let cut = crate::number::rounding::fraction(num, den);
    let m = crate::number::rounding::nearest(cut);
    crate::number::rounding::lemma_nearest(cut);
    let u = crate::number::rounding::units(m) as int;
    let v = crate::number::rounding::units(k) as int;
    if k > m {
        let w = crate::number::rounding::units(m + 1) as int;
        if k > m + 1 {
            crate::number::rounding::lemma_units_ascend(m + 1, k);
        }
        assert(cut(crate::number::rounding::upper_edge(m)) <= 0);
        assert(2 * num <= den * (u + w));
        assert(den * w <= den * v && den * (u + w) == den * u + den * w) by (nonlinear_arith)
            requires
                w <= v,
                den > 0,
        ;
        crate::number::rounding::lemma_units_ascend(m, m + 1);
        assert(den * u <= den * w) by (nonlinear_arith)
            requires
                u <= w,
                den > 0,
        ;
    } else if k < m {
        let w = crate::number::rounding::units((m - 1) as nat) as int;
        if k < m - 1 {
            crate::number::rounding::lemma_units_ascend(k, (m - 1) as nat);
        }
        assert(cut(crate::number::rounding::upper_edge((m - 1) as nat)) >= 0);
        assert(2 * num >= den * (w + u));
        assert(den * v <= den * w && den * (w + u) == den * w + den * u) by (nonlinear_arith)
            requires
                v <= w,
                den > 0,
        ;
        crate::number::rounding::lemma_units_ascend((m - 1) as nat, m);
        assert(den * w <= den * u) by (nonlinear_arith)
            requires
                w <= u,
                den > 0,
        ;
    }
}

/// The same for numbers with a sign.
proof fn lemma_no_number_is_nearer(exact: int, den: int, got: Scalar, z: Scalar)
    requires
        den > 0,
        got.finite(),
        z.finite(),
        ({
            let m = crate::number::rounding::nearest(
                crate::number::rounding::fraction(crate::number::error::far(exact), den),
            );
            &&& got.magnitude() == m
            &&& exact > 0 ==> !got.negative()
            &&& exact < 0 ==> got.negative()
        }),
    ensures
        crate::number::error::far(den * got.value() - exact) <= crate::number::error::far(
            den * z.value() - exact,
        ),
{
    let w = crate::number::error::far(exact);
    let m = got.magnitude();
    let u = crate::number::rounding::units(m) as int;
    let v = crate::number::rounding::units(z.magnitude()) as int;
    lemma_none_is_nearer(w, den, z.magnitude());
    lemma_none_is_nearer(w, den, 0);
    crate::number::arithmetic::lemma_zero_units(0);
    assert(den * 0 == 0);
    assert(den * v >= 0 && den * u >= 0) by (nonlinear_arith)
        requires
            den > 0,
            v >= 0,
            u >= 0,
    ;
    assert(den * (-v) == -(den * v) && den * (-u) == -(den * u)) by (nonlinear_arith);
    if exact == 0 {
        assert(den * u == 0);
    }
}

/// A sum is the number nearest to the exact sum: none is nearer.
pub proof fn law_sum_is_the_nearest_number(x: Scalar, y: Scalar, z: Scalar)
    requires
        x.finite(),
        y.finite(),
        z.finite(),
        x.plus(y).finite(),
    ensures
        crate::number::error::far(x.plus(y).value() - (x.value() + y.value()))
            <= crate::number::error::far(z.value() - (x.value() + y.value())),
{
    let v = x.value() + y.value();
    crate::number::exact::lemma_plus_nearest(x, y);
    if v != 0 {
        let w = crate::number::error::far(v);
        let m = crate::number::rounding::nearest(crate::number::rounding::fraction(w, 1));
        crate::number::rounding::lemma_nearest(crate::number::rounding::fraction(w, 1));
        crate::number::exact::lemma_pack(v < 0, m);
        lemma_no_number_is_nearer(v, 1, crate::number::exact::nearest_to(v), z);
        assert(1 * x.plus(y).value() == x.plus(y).value());
    } else {
        crate::number::arithmetic::lemma_zero_units(0);
    }
}

/// A difference is the number nearest to the exact difference.
pub proof fn law_difference_is_the_nearest_number(x: Scalar, y: Scalar, z: Scalar)
    requires
        x.finite(),
        y.finite(),
        z.finite(),
        x.minus(y).finite(),
    ensures
        crate::number::error::far(x.minus(y).value() - (x.value() - y.value()))
            <= crate::number::error::far(z.value() - (x.value() - y.value())),
{
    crate::number::exact::lemma_negated(y);
    law_sum_is_the_nearest_number(x, y.negated(), z);
}

/// A product is the number nearest to the exact product.
pub proof fn law_product_is_the_nearest_number(x: Scalar, y: Scalar, z: Scalar)
    requires
        x.finite(),
        y.finite(),
        z.finite(),
        x.times(y).finite(),
    ensures
        ({
            let one = crate::number::rounding::one_in_units() as int;
            let exact = x.value() * y.value();
            crate::number::error::far(one * x.times(y).value() - exact)
                <= crate::number::error::far(one * z.value() - exact)
        }),
{
    let one = crate::number::rounding::one_in_units() as int;
    crate::number::rounding::lemma_two_to_positive(UNIT_EXPONENT as nat);
    let u = crate::number::rounding::units(x.magnitude()) as int;
    let w = crate::number::rounding::units(y.magnitude()) as int;
    let exact = x.value() * y.value();
    crate::number::error::lemma_far_times(x.value(), y.value());
    assert(crate::number::error::far(exact) == u * w);
    let cut = crate::number::rounding::fraction(u * w, one);
    let m = crate::number::rounding::nearest(cut);
    crate::number::rounding::lemma_nearest(cut);
    crate::number::exact::lemma_pack(x.negative() != y.negative(), m);
    assert(x.negative() != y.negative() ==> exact <= 0) by (nonlinear_arith)
        requires
            exact == x.value() * y.value(),
            x.negative() ==> x.value() <= 0,
            !x.negative() ==> x.value() >= 0,
            y.negative() ==> y.value() <= 0,
            !y.negative() ==> y.value() >= 0,
    ;
    assert(x.negative() == y.negative() ==> exact >= 0) by (nonlinear_arith)
        requires
            exact == x.value() * y.value(),
            x.negative() ==> x.value() <= 0,
            !x.negative() ==> x.value() >= 0,
            y.negative() ==> y.value() <= 0,
            !y.negative() ==> y.value() >= 0,
    ;
    lemma_no_number_is_nearer(exact, one, x.times(y), z);
}

/// A quotient is the number nearest to the exact quotient.
pub proof fn law_quotient_is_the_nearest_number(x: Scalar, y: Scalar, z: Scalar)
    requires
        x.finite(),
        y.finite(),
        y.value() > 0,
        z.finite(),
        x.over(y).finite(),
    ensures
        ({
            let exact = x.value() * crate::number::rounding::one_in_units();
            crate::number::error::far(y.value() * x.over(y).value() - exact)
                <= crate::number::error::far(y.value() * z.value() - exact)
        }),
{
    let one = crate::number::rounding::one_in_units() as int;
    crate::number::rounding::lemma_two_to_positive(UNIT_EXPONENT as nat);
    crate::number::arithmetic::lemma_zero_units(y.magnitude());
    let u = crate::number::rounding::units(x.magnitude()) as int;
    let w = y.value();
    let exact = x.value() * one;
    crate::number::error::lemma_far_times(x.value(), one);
    assert(crate::number::error::far(exact) == u * one);
    let cut = crate::number::rounding::fraction(u * one, w);
    let m = crate::number::rounding::nearest(cut);
    crate::number::rounding::lemma_nearest(cut);
    crate::number::exact::lemma_pack(x.negative(), m);
    assert(x.negative() ==> exact <= 0) by (nonlinear_arith)
        requires
            exact == x.value() * one,
            x.negative() ==> x.value() <= 0,
            one >= 1,
    ;
    assert(!x.negative() ==> exact >= 0) by (nonlinear_arith)
        requires
            exact == x.value() * one,
            !x.negative() ==> x.value() >= 0,
            one >= 1,
    ;
    lemma_no_number_is_nearer(exact, w, x.over(y), z);
}

/// A quotient by a negated number is the negated quotient.
pub proof fn law_quotient_has_both_signs(x: Scalar, y: Scalar)
    requires
        x.finite(),
        y.finite(),
        y.value() != 0,
    ensures
        x.over(y.negated()).value() == -x.over(y).value(),
        x.negated().over(y).value() == -x.over(y).value(),
        x.over(y.negated()).finite() == x.over(y).finite(),
{
    let one = crate::number::rounding::one_in_units() as int;
    let u = crate::number::rounding::units(x.magnitude()) as int;
    let w = crate::number::rounding::units(y.magnitude()) as int;
    crate::number::arithmetic::lemma_zero_units(y.magnitude());
    crate::number::exact::lemma_negated(x);
    crate::number::exact::lemma_negated(y);
    let cut = crate::number::rounding::fraction(u * one, w);
    let m = crate::number::rounding::nearest(cut);
    crate::number::rounding::lemma_nearest(cut);
    crate::number::exact::lemma_pack(x.negative() != y.negative(), m);
    crate::number::exact::lemma_pack(x.negative() == y.negative(), m);
}

/// Rounding gives the nearest whole number, of two that are equally near the one further from
/// zero; and it is the same either side of zero.
pub proof fn law_round_is_the_nearest_whole(x: Scalar)
    requires
        x.finite(),
        0 <= x.value() <= GRID_REACH * crate::number::rounding::one_in_units(),
    ensures
        ({
            let one = crate::number::rounding::one_in_units() as int;
            let got = x.round().value();
            &&& x.round().finite()
            &&& got % one == 0
            &&& 2 * (x.value() - got) < one
            &&& 2 * (got - x.value()) <= one
            &&& x.negated().round().value() == -got
        }),
{
    let one = crate::number::rounding::one_in_units() as int;
    crate::number::rounding::lemma_two_to_positive(UNIT_EXPONENT as nat);
    crate::number::exact::lemma_round_whole(x);
    let n = x.nearest_whole() as int;
    vstd::arithmetic::div_mod::lemma_mod_multiples_basic(n, one);
    crate::number::arithmetic::lemma_zero_units(x.magnitude());
    let u = crate::number::rounding::units(x.magnitude()) as int;
    assert(x.value() == u);
    vstd::arithmetic::div_mod::lemma_fundamental_div_mod(2 * u + one, 2 * one);
    vstd::arithmetic::div_mod::lemma_mod_bound(2 * u + one, 2 * one);
    let q = (2 * u + one) / (2 * one);
    let rest = (2 * u + one) % (2 * one);
    assert(q >= 0) by (nonlinear_arith)
        requires
            2 * u + one == (2 * one) * q + rest,
            0 <= rest < 2 * one,
            u >= 0,
            one >= 1,
    ;
    assert(q == n);
    assert((2 * one) * q == 2 * (n * one)) by (nonlinear_arith)
        requires
            q == n,
    ;
    assert(2 * (u - n * one) == rest - one);
    // The other side.
    crate::number::exact::lemma_negated(x);
    let cut = crate::number::rounding::fraction(x.nearest_whole() * one, 1);
    let m = crate::number::rounding::nearest(cut);
    crate::number::rounding::lemma_nearest(cut);
    crate::number::exact::lemma_pack(x.negative(), m);
    crate::number::exact::lemma_pack(!x.negative(), m);
    crate::number::arithmetic::lemma_zero_units(m);
}

/// The square root of a number, squared, is that number, off by two parts in two to the power
/// 52 at most.
pub proof fn law_root_squares_back(x: Scalar)
    requires
        x.finite(),
        x.value() > 0,
    ensures
        ({
            let root = crate::number::error::real_of(x.sqrt());
            &&& x.sqrt().finite()
            &&& root > 0real
            &&& crate::number::error::size(root * root - crate::number::error::real_of(x))
                <= 2real * crate::number::error::grain() * (root * root)
        }),
{
    crate::number::error::lemma_real_root(x);
}

} // verus!
