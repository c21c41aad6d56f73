//! How far results are from the exact ones.

use vstd::prelude::*;

use crate::number::rounding::{HIDDEN, INFINITE, UNIT_EXPONENT};
use crate::number::scalar::Scalar;

verus! {

/// The distance from zero.
pub open spec fn far(x: int) -> int {
    if x < 0 {
        -x
    } else {
        x
    }
}

/// How far a product is from the exact one.
pub proof fn lemma_product_error(x: Scalar, y: Scalar)
    requires
        x.finite(),
        y.finite(),
        x.times(y).finite(),
    ensures
        ({
            let one = crate::number::rounding::one_in_units() as int;
            let exact = x.value() * y.value();
            HIDDEN * far(x.times(y).value() * one - exact) <= far(exact) + HIDDEN * one
        }),
{
    let one = crate::number::rounding::one_in_units() as int;
    let h = HIDDEN as int;
    crate::number::rounding::lemma_two_to_positive(UNIT_EXPONENT as nat);
    let u = crate::number::rounding::units(x.magnitude()) as int;
    let w = crate::number::rounding::units(y.magnitude()) as int;
    let cut = crate::number::rounding::fraction(u * w, one);
    let m = crate::number::rounding::nearest(cut);
    crate::number::rounding::lemma_nearest(cut);
    crate::number::exact::lemma_pack(x.negative() != y.negative(), m);
    let p = x.times(y);
    assert(p.magnitude() == m);
    assert(u * w >= 0) by (nonlinear_arith)
        requires
            u >= 0,
            w >= 0,
    ;
    crate::number::exact::lemma_rounding_error(u * w, one);
    let v = crate::number::rounding::units(m) as int;
    let gap = crate::number::rounding::gap(m) as int;
    let e = one * v - u * w;
    lemma_relative(far(e), u * w, one, v, gap, h, e);
    // The signs.
    let exact = x.value() * y.value();
    assert(exact == (if p.negative() {
        -(u * w)
    } else {
        u * w
    })) by (nonlinear_arith)
        requires
            x.value() == (if x.negative() {
                -u
            } else {
                u
            }),
            y.value() == (if y.negative() {
                -w
            } else {
                w
            }),
            p.negative() == (x.negative() != y.negative()),
            exact == x.value() * y.value(),
    ;
    assert(p.value() * one == (if p.negative() {
        -(one * v)
    } else {
        one * v
    })) by (nonlinear_arith)
        requires
            p.value() == (if p.negative() {
                -v
            } else {
                v
            }),
    ;
    assert(far(p.value() * one - exact) == far(e));
}

/// From half a gap to a part of the whole.
pub proof fn lemma_relative(size: int, exact: int, den: int, v: int, gap: int, h: int, e: int)
    requires
        size == far(e),
        e == den * v - exact,
        exact >= 0,
        den >= 1,
        v >= 0,
        gap >= 1,
        h >= 1,
        gap == 1 || gap * h <= v,
        -(den * gap) <= 2 * e <= den * gap,
    ensures
        h * size <= exact + h * den,
{
    assert(2 * size <= den * gap);
    if gap == 1 {
        assert(h * size <= h * den) by (nonlinear_arith)
            requires
                2 * size <= den * gap,
                gap == 1,
                h >= 1,
                den >= 1,
        ;
        assert(exact >= 0);
    } else {
        assert(h * (2 * size) <= den * v) by (nonlinear_arith)
            requires
                2 * size <= den * gap,
                gap * h <= v,
                h >= 1,
                den >= 1,
        ;
        assert(den * v <= exact + size);
        assert(size >= 0);
        assert(h * size + size <= h * (2 * size)) by (nonlinear_arith)
            requires
                size >= 0,
                h >= 1,
        ;
        assert(h * den >= 0) by (nonlinear_arith)
            requires
                h >= 1,
                den >= 1,
        ;
    }
}

/// How far a quotient is from the exact one.
pub proof fn lemma_quotient_error(x: Scalar, y: Scalar)
    requires
        x.finite(),
        y.finite(),
        y.value() != 0,
        x.over(y).finite(),
    ensures
        ({
            let one = crate::number::rounding::one_in_units() as int;
            let exact = x.value() * one;
            HIDDEN * far(x.over(y).value() * y.value() - exact) <= far(exact) + HIDDEN * far(
                y.value(),
            )
        }),
{
    let one = crate::number::rounding::one_in_units() as int;
    let h = HIDDEN as int;
    crate::number::rounding::lemma_two_to_positive(UNIT_EXPONENT as nat);
    let u = crate::number::rounding::units(x.magnitude()) as int;
    let w = crate::number::rounding::units(y.magnitude()) as int;
    crate::number::arithmetic::lemma_zero_units(y.magnitude());
    assert(w >= 1 && y.magnitude() != 0);
    let cut = crate::number::rounding::fraction(u * one, w);
    let m = crate::number::rounding::nearest(cut);
    crate::number::rounding::lemma_nearest(cut);
    crate::number::exact::lemma_pack(x.negative() != y.negative(), m);
    let p = x.over(y);
    assert(p.magnitude() == m);
    assert(u * one >= 0) by (nonlinear_arith)
        requires
            u >= 0,
            one >= 0,
    ;
    crate::number::exact::lemma_rounding_error(u * one, w);
    let v = crate::number::rounding::units(m) as int;
    let gap = crate::number::rounding::gap(m) as int;
    let e = w * v - u * one;
    lemma_relative(far(e), u * one, w, v, gap, h, e);
    // The signs.
    let exact = x.value() * one;
    assert(exact == (if x.negative() {
        -(u * one)
    } else {
        u * one
    })) by (nonlinear_arith)
        requires
            x.value() == (if x.negative() {
                -u
            } else {
                u
            }),
            exact == x.value() * one,
    ;
    assert(p.value() * y.value() == (if x.negative() {
        -(w * v)
    } else {
        w * v
    })) by (nonlinear_arith)
        requires
            p.value() == (if p.negative() {
                -v
            } else {
                v
            }),
            y.value() == (if y.negative() {
                -w
            } else {
                w
            }),
            p.negative() == (x.negative() != y.negative()),
    ;
    assert(far(p.value() * y.value() - exact) == far(e));
    assert(far(exact) == u * one);
    assert(far(y.value()) == w);
}

/// How far a sum is from the exact one.
pub proof fn lemma_sum_error(x: Scalar, y: Scalar)
    requires
        x.finite(),
        y.finite(),
        x.plus(y).finite(),
    ensures
        ({
            let exact = x.value() + y.value();
            HIDDEN * far(x.plus(y).value() - exact) <= far(exact) + HIDDEN
        }),
{
    let h = HIDDEN as int;
    let exact = x.value() + y.value();
    crate::number::exact::lemma_plus_nearest(x, y);
    if exact == 0 {
        assert(h * 0 == 0);
    } else {
        let w = far(exact);
        let cut = crate::number::rounding::fraction(w, 1);
        let m = crate::number::rounding::nearest(cut);
        crate::number::rounding::lemma_nearest(cut);
        crate::number::exact::lemma_pack(exact < 0, m);
        crate::number::exact::lemma_rounding_error(w, 1);
        let v = crate::number::rounding::units(m) as int;
        let gap = crate::number::rounding::gap(m) as int;
        let e = 1 * v - w;
        lemma_relative(far(e), w, 1, v, gap, h, e);
        assert(far(x.plus(y).value() - exact) == far(e));
    }
}

pub proof fn lemma_far_times(x: int, y: int)
    ensures
        far(x * y) == far(x) * far(y),
{
    assert(far(x * y) == far(x) * far(y)) by (nonlinear_arith)
        requires
            far(x) == (if x < 0 {
                -x
            } else {
                x
            }),
            far(y) == (if y < 0 {
                -y
            } else {
                y
            }),
            far(x * y) == (if x * y < 0 {
                -(x * y)
            } else {
                x * y
            }),
    ;
}

/// How far from zero results are sure to be finite: two to the power 100 pixels, in units.
pub open spec fn breadth() -> int {
    (crate::number::rounding::two_to(100) * crate::number::rounding::one_in_units()) as int
}

/// The magnitude of a power of two, and of the number below it.
pub proof fn lemma_power(k: nat) -> (top: nat)
    requires
        53 <= k <= 2000,
    ensures
        0 < top < INFINITE,
        top == (k - 51) * HIDDEN,
        crate::number::rounding::units(top) == crate::number::rounding::two_to(k),
        crate::number::rounding::units((top - 1) as nat) == crate::number::rounding::two_to(k)
            - crate::number::rounding::two_to((k - 53) as nat),
{
    let h = HIDDEN as nat;
    let low = (k - 53) as nat;
    crate::number::exact::lemma_known_power();
    crate::number::rounding::lemma_two_to_adds(52, low);
    let p = crate::number::rounding::two_to(low);
    assert(crate::number::rounding::two_to(k) == 2 * crate::number::rounding::two_to(
        (k - 1) as nat,
    ));
    crate::number::rounding::lemma_units_of_parts(low, 2 * h);
    crate::number::rounding::lemma_units_of_parts(low, (2 * h - 1) as nat);
    let top = low * h + 2 * h;
    assert(top == (k - 51) * HIDDEN) by (nonlinear_arith)
        requires
            top == low * h + 2 * h,
            low == k - 53,
            h == HIDDEN,
    ;
    assert((2 * h) * p == 2 * (h * p)) by (nonlinear_arith);
    assert((2 * h - 1) * p == 2 * (h * p) - p) by (nonlinear_arith);
    top
}

/// How far a fraction is from what it rounds to, below a power of two.
pub proof fn lemma_error_below(num: int, den: int, k: nat)
    requires
        0 <= num <= den * crate::number::rounding::two_to(k),
        den > 0,
        53 <= k <= 2000,
    ensures
        ({
            let m = crate::number::rounding::nearest(crate::number::rounding::fraction(num, den));
            let u = crate::number::rounding::units(m) as int;
            &&& m < INFINITE
            &&& u <= crate::number::rounding::two_to(k)
            &&& 2 * far(den * u - num) <= den * crate::number::rounding::two_to((k - 53) as nat)
        }),
{
    let h = HIDDEN as nat;
    let top = lemma_power(k);
    let step = crate::number::rounding::two_to((k - 53) as nat) as int;
    let cut = crate::number::rounding::fraction(num, den);
    let m = crate::number::rounding::nearest(cut);
    crate::number::rounding::lemma_nearest(cut);
    crate::number::exact::lemma_rounds_below(num, den, m, top);
    if m > top {
        crate::number::rounding::lemma_units_ascend(top, m);
    }
    let u = crate::number::rounding::units(m) as int;
    if m < top {
        crate::number::exact::lemma_rounding_error(num, den);
        let gap = crate::number::rounding::gap(m) as int;
        assert(gap <= step) by {
            if m < HIDDEN {
                crate::number::rounding::lemma_two_to_positive((k - 53) as nat);
            } else {
                assert(m / h < k - 51) by (nonlinear_arith)
                    requires
                        m < (k - 51) * h,
                        h > 0,
                ;
                crate::number::significand::lemma_two_to_ascends(
                    (m / h - 1) as nat,
                    (k - 53) as nat,
                );
            }
        }
        assert(den * gap <= den * step) by (nonlinear_arith)
            requires
                gap <= step,
                den > 0,
        ;
    } else {
        let under = crate::number::rounding::units((m - 1) as nat) as int;
        assert(under + u == crate::number::rounding::upper_edge((m - 1) as nat));
        assert(2 * num - den * (under + u) >= 0);
        assert(2 * (den * u - num) <= den * step) by (nonlinear_arith)
            requires
                2 * num - den * (under + u) >= 0,
                u - under == step,
        ;
    }
}

/// The number at that distance from zero.
proof fn lemma_breadth() -> (top: nat)
    ensures
        top < INFINITE,
        crate::number::rounding::units(top) == breadth(),
{
    crate::number::rounding::lemma_two_to_adds(100, 1074);
    lemma_power(1174)
}

/// A fraction within that distance rounds to what is finite.
proof fn lemma_fraction_is_finite(num: int, den: int, negative: bool)
    requires
        0 <= num <= den * breadth(),
        den > 0,
    ensures
        ({
            let m = crate::number::rounding::nearest(crate::number::rounding::fraction(num, den));
            &&& m < INFINITE
            &&& Scalar::pack(negative, m).finite()
        }),
{
    let top = lemma_breadth();
    let m = crate::number::rounding::nearest(crate::number::rounding::fraction(num, den));
    crate::number::exact::lemma_rounds_below(num, den, m, top);
    crate::number::rounding::lemma_fraction_falling(num, den);
    crate::number::rounding::lemma_nearest(crate::number::rounding::fraction(num, den));
    if m > top {
        crate::number::rounding::lemma_units_ascend(top, m);
    }
    crate::number::exact::lemma_pack(negative, m);
}

/// A product within that distance is finite.
pub proof fn lemma_product_is_finite(x: Scalar, y: Scalar)
    requires
        x.finite(),
        y.finite(),
        far(x.value() * y.value()) <= crate::number::rounding::one_in_units() * breadth(),
    ensures
        x.times(y).finite(),
{
    let one = crate::number::rounding::one_in_units() as int;
    crate::number::rounding::lemma_two_to_positive(UNIT_EXPONENT as nat);
    let u = crate::number::rounding::units(x.magnitude()) as int;
    let w = crate::number::rounding::units(y.magnitude()) as int;
    lemma_far_times(x.value(), y.value());
    assert(far(x.value()) == u && far(y.value()) == w);
    assert(u * w >= 0) by (nonlinear_arith)
        requires
            u >= 0,
            w >= 0,
    ;
    lemma_fraction_is_finite(u * w, one, x.negative() != y.negative());
}

/// A quotient within that distance is finite.
pub proof fn lemma_quotient_is_finite(x: Scalar, y: Scalar)
    requires
        x.finite(),
        y.finite(),
        y.value() != 0,
        far(x.value()) * crate::number::rounding::one_in_units() <= far(y.value()) * breadth(),
    ensures
        x.over(y).finite(),
{
    let one = crate::number::rounding::one_in_units() as int;
    crate::number::rounding::lemma_two_to_positive(UNIT_EXPONENT as nat);
    let u = crate::number::rounding::units(x.magnitude()) as int;
    let w = crate::number::rounding::units(y.magnitude()) as int;
    crate::number::arithmetic::lemma_zero_units(y.magnitude());
    assert(far(x.value()) == u && far(y.value()) == w);
    assert(u * one >= 0) by (nonlinear_arith)
        requires
            u >= 0,
            one >= 1,
    ;
    lemma_fraction_is_finite(u * one, w, x.negative() != y.negative());
}

/// A sum within that distance is finite.
pub proof fn lemma_sum_is_finite(x: Scalar, y: Scalar)
    requires
        x.finite(),
        y.finite(),
        far(x.value() + y.value()) <= breadth(),
    ensures
        x.plus(y).finite(),
{
    let v = x.value() + y.value();
    crate::number::exact::lemma_plus_nearest(x, y);
    if v != 0 {
        lemma_fraction_is_finite(far(v), 1, v < 0);
        let m = crate::number::rounding::nearest(crate::number::rounding::fraction(far(v), 1));
        crate::number::exact::lemma_pack(v < 0, m);
    }
}

/// A number as a real one, in pixels.
pub open spec fn real_of(x: Scalar) -> real {
    (x.value() as real) / (crate::number::rounding::one_in_units() as real)
}

/// The distance of a real number from zero.
pub open spec fn size(x: real) -> real {
    if x < 0real {
        -x
    } else {
        x
    }
}

/// The part of itself that a result may be off by.
pub open spec fn grain() -> real {
    1real / (HIDDEN as real)
}

/// What any result may be off by, however small: the smallest positive number.
pub open spec fn dust() -> real {
    1real / (crate::number::rounding::one_in_units() as real)
}

/// The distance from zero within which results are sure to be finite, in pixels.
pub open spec fn wide() -> real {
    1267650600228229401496703205376real
}

/// How small the errors are.
pub proof fn lemma_grain()
    ensures
        0real < dust(),
        dust() * 1208925819614629174706176real <= grain(),
        grain() * 4503599627370496real == 1real,
        wide() * (crate::number::rounding::one_in_units() as real) == breadth() as real,
        crate::number::rounding::one_in_units() >= 1,
{
    let one = crate::number::rounding::one_in_units() as int;
    let o = one as real;
    crate::number::rounding::lemma_two_to_positive(UNIT_EXPONENT as nat);
    crate::number::rounding::lemma_two_to_adds(132, 942);
    crate::number::rounding::lemma_two_to_adds(80, 52);
    crate::number::rounding::lemma_two_to_adds(40, 40);
    crate::number::rounding::lemma_two_to_positive(942);
    crate::number::exact::lemma_known_power();
    assert(crate::number::rounding::two_to(40) == 1099511627776) by {
        reveal_with_fuel(crate::number::rounding::two_to, 41);
    }
    let k = crate::number::rounding::two_to(942) as int;
    let p = 1208925819614629174706176int;
    assert(crate::number::rounding::two_to(80) == p) by (nonlinear_arith)
        requires
            crate::number::rounding::two_to(80) == crate::number::rounding::two_to(40)
                * crate::number::rounding::two_to(40),
            crate::number::rounding::two_to(40) == 1099511627776,
            p == 1208925819614629174706176int,
    ;
    assert(one >= p * HIDDEN) by (nonlinear_arith)
        requires
            one == (p * HIDDEN) * k,
            k >= 1,
            p >= 1,
    ;
    let h = HIDDEN as real;
    let pr = 1208925819614629174706176real;
    assert(o >= pr * h) by {
        assert((p * HIDDEN) as real == pr * h) by (nonlinear_arith)
            requires
                p as real == pr,
                h == HIDDEN as real,
        ;
    }
    assert(dust() * o == 1real && 0real < dust()) by (nonlinear_arith)
        requires
            dust() == 1real / o,
            o >= 1real,
    ;
    assert(grain() * h == 1real && 0real < grain()) by (nonlinear_arith)
        requires
            grain() == 1real / h,
            h >= 1real,
    ;
    assert(dust() * pr <= grain()) by (nonlinear_arith)
        requires
            dust() * o == 1real,
            grain() * h == 1real,
            o >= pr * h,
            h >= 1real,
            0real < dust(),
    ;
    assert(wide() * o == breadth() as real) by {
        let r = 1267650600228229401496703205376int;
        crate::number::rounding::lemma_two_to_adds(80, 20);
        assert(crate::number::rounding::two_to(20) == 1048576) by {
            reveal_with_fuel(crate::number::rounding::two_to, 21);
        }
        assert(crate::number::rounding::two_to(100) == r) by (nonlinear_arith)
            requires
                crate::number::rounding::two_to(100) == crate::number::rounding::two_to(80)
                    * crate::number::rounding::two_to(20),
                crate::number::rounding::two_to(80) == p,
                crate::number::rounding::two_to(20) == 1048576,
                p == 1208925819614629174706176int,
                r == 1267650600228229401496703205376int,
        ;
        assert((r * one) as real == (r as real) * o) by (nonlinear_arith)
            requires
                o == one as real,
        ;
    }
}

/// A number and its value.
pub proof fn lemma_real_of(x: Scalar)
    ensures
        real_of(x) * (crate::number::rounding::one_in_units() as real) == x.value() as real,
        x.value() == 0 <==> real_of(x) == 0real,
{
    lemma_grain();
    let o = crate::number::rounding::one_in_units() as real;
    let v = x.value() as real;
    let r = real_of(x);
    assert(r * o == v && (v == 0real <==> r == 0real)) by (nonlinear_arith)
        requires
            r == v / o,
            o >= 1real,
    ;
}

pub proof fn lemma_size_times(x: real, y: real)
    ensures
        size(x * y) == size(x) * size(y),
{
    assert(size(x * y) == size(x) * size(y)) by (nonlinear_arith)
        requires
            size(x) == (if x < 0real {
                -x
            } else {
                x
            }),
            size(y) == (if y < 0real {
                -y
            } else {
                y
            }),
            size(x * y) == (if x * y < 0real {
                -(x * y)
            } else {
                x * y
            }),
    ;
}

proof fn lemma_real_times(x: int, y: int)
    ensures
        (x * y) as real == (x as real) * (y as real),
{
    assert((x * y) as real == (x as real) * (y as real)) by (nonlinear_arith);
}

/// A whole number of pixels.
pub proof fn lemma_real_whole(n: u64)
    requires
        n <= 2 * HIDDEN,
    ensures
        Scalar::from_whole(n).finite(),
        real_of(Scalar::from_whole(n)) == n as real,
{
    crate::number::exact::lemma_from_whole(n);
    lemma_grain();
    lemma_real_of(Scalar::from_whole(n));
    let one = crate::number::rounding::one_in_units() as int;
    lemma_real_times(n as int, one);
    let o = one as real;
    let r = real_of(Scalar::from_whole(n));
    assert(r == n as real) by (nonlinear_arith)
        requires
            r * o == (n as real) * o,
            o >= 1real,
    ;
}

/// A negated number, in pixels.
pub proof fn lemma_real_negated(x: Scalar)
    ensures
        real_of(x.negated()) == -real_of(x),
{
    crate::number::exact::lemma_negated(x);
    lemma_grain();
    lemma_real_of(x);
    lemma_real_of(x.negated());
    let one = crate::number::rounding::one_in_units() as real;
    assert(real_of(x.negated()) == -real_of(x)) by (nonlinear_arith)
        requires
            real_of(x.negated()) * one == -(x.value() as real),
            real_of(x) * one == x.value() as real,
            one >= 1real,
    ;
}

/// A quotient of whole numbers, in pixels.
pub proof fn lemma_real_ratio(num: u64, den: u64)
    requires
        num <= 2 * HIDDEN,
        0 < den <= 2 * HIDDEN,
    ensures
        Scalar::ratio(num, den).finite(),
        size(real_of(Scalar::ratio(num, den)) * (den as real) - (num as real)) <= grain() * (
        num as real) + dust() * (den as real),
{
    lemma_real_whole(num);
    lemma_real_whole(den);
    lemma_grain();
    let n = Scalar::from_whole(num);
    let d = Scalar::from_whole(den);
    lemma_real_of(d);
    assert(size(real_of(n)) <= wide() * size(real_of(d))) by (nonlinear_arith)
        requires
            real_of(n) == num as real,
            real_of(d) == den as real,
            size(real_of(n)) == num as real,
            size(real_of(d)) == den as real,
            num as real <= 9007199254740992real,
            den as real >= 1real,
            wide() == 1267650600228229401496703205376real,
    ;
    lemma_real_quotient(n, d);
}

/// Numbers are ordered as the real ones that they are.
pub proof fn lemma_real_order(x: Scalar, y: Scalar)
    ensures
        x.value() <= y.value() <==> real_of(x) <= real_of(y),
        x.value() < y.value() <==> real_of(x) < real_of(y),
        x.value() == y.value() <==> real_of(x) == real_of(y),
{
    lemma_real_of(x);
    lemma_real_of(y);
    lemma_grain();
    let o = crate::number::rounding::one_in_units() as real;
    let a = real_of(x);
    let b = real_of(y);
    let v = x.value() as real;
    let w = y.value() as real;
    assert((v <= w <==> a <= b) && (v < w <==> a < b) && (v == w <==> a == b))
        by (nonlinear_arith)
        requires
            a * o == v,
            b * o == w,
            o >= 1real,
    ;
}

/// A square root, squared: off by two parts in two to the power 52.
pub proof fn lemma_root_error(x: Scalar)
    requires
        x.finite(),
        x.value() > 0,
    ensures
        x.sqrt().finite(),
        x.sqrt().value() > 0,
        ({
            let one = crate::number::rounding::one_in_units() as int;
            let v = x.sqrt().value();
            HIDDEN * far(v * v - x.value() * one) <= 2 * (v * v)
        }),
{
    let one = crate::number::rounding::one_in_units() as int;
    let h = HIDDEN as int;
    crate::number::rounding::lemma_two_to_positive(UNIT_EXPONENT as nat);
    let w = x.value();
    crate::number::arithmetic::lemma_zero_units(x.magnitude());
    assert(crate::number::rounding::units(x.magnitude()) == w);
    let n = w * one;
    let cut = crate::number::rounding::root(n);
    let m = crate::number::rounding::nearest(cut);
    crate::number::rounding::lemma_nearest(cut);
    let v = crate::number::rounding::units(m) as int;
    // It is finite.
    let unit = crate::number::exact::lemma_representable(1, UNIT_EXPONENT as nat);
    assert(1 * one == one);
    let top: nat = if w >= one {
        x.magnitude()
    } else {
        unit
    };
    let large = crate::number::rounding::units(top) as int;
    assert(top < INFINITE);
    assert(n <= large * large) by (nonlinear_arith)
        requires
            n == w * one,
            large == (if w >= one {
                w
            } else {
                one
            }),
            w >= 1,
            one >= 1,
    ;
    let high = crate::number::rounding::fraction(large, 1);
    crate::number::rounding::lemma_fraction_falling(large, 1);
    crate::number::arithmetic::lemma_own_magnitude(top);
    crate::number::rounding::lemma_nearest(high);
    assert forall|k: int| 0 <= k implies (#[trigger] cut(k) > 0 ==> high(k) > 0) && (cut(k) == 0
        ==> high(k) >= 0) by {
        assert(high(k) == 2 * large - 1 * k);
        assert(4 * n - k * k > 0 ==> 2 * large - k > 0) by (nonlinear_arith)
            requires
                n <= large * large,
                0 <= k,
                large >= 1,
        ;
        assert(4 * n - k * k == 0 ==> 2 * large - k >= 0) by (nonlinear_arith)
            requires
                n <= large * large,
                0 <= k,
                large >= 1,
        ;
    }
    crate::number::rounding::lemma_nearest_monotone(cut, high, m, top);
    crate::number::exact::lemma_pack(false, m);
    // It is far from the smallest numbers.
    crate::number::rounding::lemma_units_step(m);
    let gap = crate::number::rounding::gap(m) as int;
    let up = crate::number::rounding::upper_edge(m);
    assert(up == 2 * v + gap);
    assert(cut(up) <= 0);
    crate::number::rounding::lemma_two_to_adds(970, 104);
    crate::number::rounding::lemma_two_to_adds(52, 52);
    crate::number::rounding::lemma_two_to_positive(970);
    crate::number::exact::lemma_known_power();
    assert(one >= 2 * (h * h)) by {
        assert(crate::number::rounding::two_to(970) >= 2) by {
            crate::number::rounding::lemma_two_to_positive(969);
        }
        assert(one >= 2 * (h * h)) by (nonlinear_arith)
            requires
                one == crate::number::rounding::two_to(970) * (h * h),
                crate::number::rounding::two_to(970) >= 2,
                h >= 1,
        ;
    }
    assert(n >= one) by (nonlinear_arith)
        requires
            n == w * one,
            w >= 1,
            one >= 1,
    ;
    if m < HIDDEN {
        assert(up <= 2 * h);
        assert(up * up <= 4 * (h * h)) by (nonlinear_arith)
            requires
                0 <= up <= 2 * h,
        ;
        assert(false);
    }
    let r = (m % (HIDDEN as nat)) as int;
    assert(gap * h <= v) by (nonlinear_arith)
        requires
            v == (h + r) * gap,
            r >= 0,
            gap >= 1,
    ;
    // How close it is.
    let below = crate::number::rounding::gap((m - 1) as nat) as int;
    crate::number::rounding::lemma_units_step((m - 1) as nat);
    crate::number::exact::lemma_gaps_ascend(m);
    let down = crate::number::rounding::upper_edge((m - 1) as nat);
    assert(down == 2 * v - below);
    assert(cut(down) >= 0);
    assert(4 * n <= (2 * v + gap) * (2 * v + gap));
    assert(4 * n >= (2 * v - below) * (2 * v - below));
    lemma_root_distance(v, n, gap, below, h);
}

proof fn lemma_root_distance(v: int, n: int, gap: int, below: int, h: int)
    requires
        4 * n <= (2 * v + gap) * (2 * v + gap),
        4 * n >= (2 * v - below) * (2 * v - below),
        1 <= below <= gap,
        gap * h <= v,
        h >= 4,
    ensures
        h * far(v * v - n) <= 2 * (v * v),
{
    let d = v * v - n;
    assert(gap <= v) by (nonlinear_arith)
        requires
            gap * h <= v,
            h >= 4,
            gap >= 1,
    ;
    let vg = v * gap;
    assert(-4 * d <= 4 * vg + vg) by (nonlinear_arith)
        requires
            4 * n <= (2 * v + gap) * (2 * v + gap),
            d == v * v - n,
            vg == v * gap,
            1 <= gap <= v,
    ;
    assert(4 * d <= 4 * vg) by (nonlinear_arith)
        requires
            4 * n >= (2 * v - below) * (2 * v - below),
            d == v * v - n,
            vg == v * gap,
            1 <= below <= gap,
            gap <= v,
    ;
    assert(h * vg <= v * v) by (nonlinear_arith)
        requires
            vg == v * gap,
            gap * h <= v,
            v >= 0,
    ;
    let f = far(d);
    assert(4 * f <= 5 * vg);
    assert(h * f <= 2 * (v * v)) by (nonlinear_arith)
        requires
            4 * f <= 5 * vg,
            h * vg <= v * v,
            vg >= 0,
            h >= 4,
            v >= 0,
    ;
}

/// A square root, squared, in pixels.
pub proof fn lemma_real_root(x: Scalar)
    requires
        x.finite(),
        x.value() > 0,
    ensures
        x.sqrt().finite(),
        real_of(x.sqrt()) > 0real,
        size(real_of(x.sqrt()) * real_of(x.sqrt()) - real_of(x)) <= 2real * grain() * (real_of(
            x.sqrt(),
        ) * real_of(x.sqrt())),
{
    lemma_root_error(x);
    lemma_grain();
    let one = crate::number::rounding::one_in_units() as int;
    let o = one as real;
    let h = HIDDEN as real;
    let r = x.sqrt();
    lemma_real_of(x);
    lemma_real_of(r);
    let v = r.value();
    let w = x.value();
    let a = real_of(r);
    let b = real_of(x);
    lemma_real_times(v, v);
    lemma_real_times(w, one);
    let rv = v as real;
    let d = v * v - w * one;
    let f = far(d);
    lemma_real_times(HIDDEN as int, f);
    assert(h * (f as real) <= 2real * (rv * rv));
    assert(a > 0real) by (nonlinear_arith)
        requires
            a * o == rv,
            rv > 0real,
            o >= 1real,
    ;
    let e = a * a - b;
    let oo = o * o;
    assert(e * oo == rv * rv - (w as real) * o && oo >= 1real && (a * a) * oo == rv * rv)
        by (nonlinear_arith)
        requires
            e == a * a - b,
            oo == o * o,
            a * o == rv,
            b * o == w as real,
            o >= 1real,
    ;
    assert(d as real == e * oo);
    assert(size(e * oo) == f as real);
    lemma_size_times(e, oo);
    let aa = a * a;
    assert(h * size(e) <= 2real * aa) by (nonlinear_arith)
        requires
            h * (size(e) * oo) <= 2real * (aa * oo),
            oo >= 1real,
    ;
    assert(size(e) <= 2real * grain() * aa) by (nonlinear_arith)
        requires
            h * size(e) <= 2real * aa,
            grain() * h == 1real,
            h >= 1real,
    ;
}

/// A product of moderate numbers, in pixels.
pub proof fn lemma_real_product(x: Scalar, y: Scalar)
    requires
        x.finite(),
        y.finite(),
        size(real_of(x) * real_of(y)) <= wide(),
    ensures
        x.times(y).finite(),
        size(real_of(x.times(y)) - real_of(x) * real_of(y)) <= grain() * size(
            real_of(x) * real_of(y),
        ) + dust(),
{
    let one = crate::number::rounding::one_in_units() as int;
    let o = one as real;
    let h = HIDDEN as real;
    let v = x.value();
    let w = y.value();
    lemma_grain();
    lemma_real_of(x);
    lemma_real_of(y);
    let rx = real_of(x);
    let ry = real_of(y);
    let exact = rx * ry;
    lemma_real_times(v, w);
    let oo = o * o;
    assert((v as real) * (w as real) == exact * oo) by (nonlinear_arith)
        requires
            rx * o == v as real,
            ry * o == w as real,
            exact == rx * ry,
            oo == o * o,
    ;
    assert(oo > 0real) by (nonlinear_arith)
        requires
            o >= 1real,
            oo == o * o,
    ;
    lemma_size_times(exact, oo);
    assert((far(v * w)) as real == size(exact) * oo);
    assert(far(v * w) <= one * breadth()) by {
        lemma_real_times(one, breadth());
        assert(size(exact) * oo <= o * (wide() * o)) by (nonlinear_arith)
            requires
                size(exact) <= wide(),
                oo == o * o,
                oo > 0real,
        ;
    }
    lemma_product_is_finite(x, y);
    lemma_product_error(x, y);
    let p = x.times(y);
    lemma_real_of(p);
    let g = p.value();
    lemma_real_times(g, one);
    let d = g * one - v * w;
    let rp = real_of(p);
    let off = rp - exact;
    assert((d as real) == off * oo) by (nonlinear_arith)
        requires
            d as real == (g as real) * o - exact * oo,
            rp * o == g as real,
            off == rp - exact,
            oo == o * o,
    ;
    lemma_size_times(off, oo);
    assert((far(d)) as real == size(off) * oo);
    lemma_real_times(HIDDEN as int, far(d));
    lemma_real_times(HIDDEN as int, one);
    assert(h * (size(off) * oo) <= size(exact) * oo + h * o);
    assert(size(off) <= grain() * size(exact) + dust()) by (nonlinear_arith)
        requires
            h * (size(off) * oo) <= size(exact) * oo + h * o,
            oo == o * o,
            o >= 1real,
            h >= 1real,
            grain() == 1real / h,
            dust() == 1real / o,
    ;
}

/// A quotient of moderate numbers, in pixels.
pub proof fn lemma_real_quotient(x: Scalar, y: Scalar)
    requires
        x.finite(),
        y.finite(),
        y.value() != 0,
        size(real_of(x)) <= wide() * size(real_of(y)),
    ensures
        x.over(y).finite(),
        size(real_of(x.over(y)) * real_of(y) - real_of(x)) <= grain() * size(real_of(x)) + dust()
            * size(real_of(y)),
{
    let one = crate::number::rounding::one_in_units() as int;
    let o = one as real;
    let h = HIDDEN as real;
    let v = x.value();
    let w = y.value();
    lemma_grain();
    lemma_real_of(x);
    lemma_real_of(y);
    let rx = real_of(x);
    let ry = real_of(y);
    let oo = o * o;
    assert(oo > 0real) by (nonlinear_arith)
        requires
            o >= 1real,
            oo == o * o,
    ;
    lemma_size_times(rx, o);
    lemma_size_times(ry, o);
    assert((far(v)) as real == size(rx) * o);
    assert((far(w)) as real == size(ry) * o);
    assert(far(v) * one <= far(w) * breadth()) by {
        lemma_real_times(far(v), one);
        lemma_real_times(far(w), breadth());
        assert((size(rx) * o) * o <= (size(ry) * o) * (wide() * o)) by (nonlinear_arith)
            requires
                size(rx) <= wide() * size(ry),
                o >= 1real,
        ;
    }
    lemma_quotient_is_finite(x, y);
    lemma_quotient_error(x, y);
    let p = x.over(y);
    lemma_real_of(p);
    let g = p.value();
    let rp = real_of(p);
    lemma_real_times(g, w);
    lemma_real_times(v, one);
    let d = g * w - v * one;
    let off = rp * ry - rx;
    assert((g as real) * (w as real) == (rp * ry) * oo) by (nonlinear_arith)
        requires
            rp * o == g as real,
            ry * o == w as real,
            oo == o * o,
    ;
    assert((v as real) * o == rx * oo) by (nonlinear_arith)
        requires
            rx * o == v as real,
            oo == o * o,
    ;
    assert((rp * ry) * oo - rx * oo == off * oo) by (nonlinear_arith)
        requires
            off == rp * ry - rx,
    ;
    assert((d as real) == off * oo);
    lemma_size_times(off, oo);
    assert((far(d)) as real == size(off) * oo);
    lemma_far_times(v, one);
    lemma_real_times(far(v), one);
    lemma_real_times(HIDDEN as int, far(d));
    lemma_real_times(HIDDEN as int, far(w));
    assert(h * (size(off) * oo) <= (size(rx) * o) * o + h * (size(ry) * o));
    assert(size(off) <= grain() * size(rx) + dust() * size(ry)) by (nonlinear_arith)
        requires
            h * (size(off) * oo) <= (size(rx) * o) * o + h * (size(ry) * o),
            oo == o * o,
            o >= 1real,
            h >= 1real,
            grain() == 1real / h,
            dust() == 1real / o,
    ;
}

/// A sum of moderate numbers, in pixels.
pub proof fn lemma_real_sum(x: Scalar, y: Scalar)
    requires
        x.finite(),
        y.finite(),
        size(real_of(x) + real_of(y)) <= wide(),
    ensures
        x.plus(y).finite(),
        size(real_of(x.plus(y)) - (real_of(x) + real_of(y))) <= grain() * size(
            real_of(x) + real_of(y),
        ) + dust(),
{
    let one = crate::number::rounding::one_in_units() as int;
    let o = one as real;
    let h = HIDDEN as real;
    lemma_grain();
    lemma_real_of(x);
    lemma_real_of(y);
    let v = x.value() + y.value();
    let exact = real_of(x) + real_of(y);
    assert(exact * o == v as real) by (nonlinear_arith)
        requires
            exact == real_of(x) + real_of(y),
            real_of(x) * o == x.value() as real,
            real_of(y) * o == y.value() as real,
            v as real == (x.value() as real) + (y.value() as real),
    ;
    lemma_size_times(exact, o);
    assert((far(v)) as real == size(exact) * o);
    assert(far(v) <= breadth()) by {
        assert(size(exact) * o <= wide() * o) by (nonlinear_arith)
            requires
                size(exact) <= wide(),
                o >= 1real,
        ;
    }
    lemma_sum_is_finite(x, y);
    lemma_sum_error(x, y);
    let s = x.plus(y);
    lemma_real_of(s);
    let d = s.value() - v;
    let off = real_of(s) - exact;
    assert((d as real) == off * o) by (nonlinear_arith)
        requires
            d as real == (s.value() as real) - exact * o,
            real_of(s) * o == s.value() as real,
            off == real_of(s) - exact,
    ;
    lemma_size_times(off, o);
    assert((far(d)) as real == size(off) * o);
    lemma_real_times(HIDDEN as int, far(d));
    assert(h * (size(off) * o) <= size(exact) * o + h);
    assert(size(off) <= grain() * size(exact) + dust()) by (nonlinear_arith)
        requires
            h * (size(off) * o) <= size(exact) * o + h,
            o >= 1real,
            h >= 1real,
            grain() == 1real / h,
            dust() == 1real / o,
    ;
}

/// A sum below a power of two, and how far off it is.
pub proof fn lemma_sum_below(x: Scalar, y: Scalar, k: nat)
    requires
        x.finite(),
        y.finite(),
        far(x.value() + y.value()) <= crate::number::rounding::two_to(k),
        53 <= k <= 2000,
    ensures
        x.plus(y).finite(),
        far(x.plus(y).value()) <= crate::number::rounding::two_to(k),
        2 * far(x.plus(y).value() - (x.value() + y.value())) <= crate::number::rounding::two_to(
            (k - 53) as nat,
        ),
        0 <= x.value() + y.value() ==> 0 <= x.plus(y).value(),
{
    let v = x.value() + y.value();
    crate::number::exact::lemma_plus_nearest(x, y);
    crate::number::exact::lemma_nearest_to_order(v, v);
    if v != 0 {
        lemma_error_below(far(v), 1, k);
        let m = crate::number::rounding::nearest(crate::number::rounding::fraction(far(v), 1));
        crate::number::exact::lemma_pack(v < 0, m);
    }
}

/// A number from a power of two up is a multiple of the steps there.
pub proof fn lemma_above_power(x: Scalar, k: nat)
    requires
        x.finite(),
        x.value() >= crate::number::rounding::two_to(k),
        53 <= k <= 2000,
    ensures
        x.value() % (crate::number::rounding::two_to((k - 52) as nat) as int) == 0,
{
    let h = HIDDEN as nat;
    let top = lemma_power(k);
    let m = x.magnitude();
    crate::number::rounding::lemma_two_to_positive(k);
    crate::number::arithmetic::lemma_zero_units(m);
    assert(!x.negative());
    if m < top {
        crate::number::rounding::lemma_units_ascend(m, top);
    }
    let low = (k - 52) as nat;
    assert(m / h >= k - 51) by (nonlinear_arith)
        requires
            m >= (k - 51) * h,
            h > 0,
    ;
    let e = (m / h - 1) as nat;
    let over = (e - low) as nat;
    crate::number::rounding::lemma_two_to_adds(over, low);
    let p = crate::number::rounding::two_to(low) as int;
    let q = crate::number::rounding::two_to(over) as int;
    crate::number::rounding::lemma_two_to_positive(low);
    let n = (h + m % h) as int;
    assert(x.value() == (n * q) * p) by (nonlinear_arith)
        requires
            x.value() == n * (q * p),
    ;
    vstd::arithmetic::div_mod::lemma_mod_multiples_basic(n * q, p);
}

} // verus!
