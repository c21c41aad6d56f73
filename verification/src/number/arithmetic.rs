//! Sums, products, quotients and roots of coordinates.

use vstd::prelude::*;

use crate::number::rounding::{HIDDEN, INFINITE, UNIT_EXPONENT};
use crate::number::scalar::Scalar;
use crate::number::significand::{digits, power_of_two, round_parts, SCALE};

verus! {

/// The significand and exponent of a magnitude.
pub(crate) fn parts(mag: u64) -> (r: (u64, u32))
    requires
        mag <= INFINITE,
    ensures
        crate::number::rounding::units(mag as nat) == r.0 * crate::number::rounding::two_to(r.1 as nat),
        r.0 < 2 * HIDDEN,
        r.1 <= 2046,
        mag > 0 ==> r.0 > 0,
        mag >= HIDDEN ==> r.0 >= HIDDEN,
        r.1 > 0 ==> mag >= HIDDEN,
        mag == r.1 * HIDDEN + r.0,
{
    if mag < HIDDEN {
        proof {
            assert(mag * 1 == mag);
        }
        (mag, 0)
    } else {
        let sig: u64 = HIDDEN + mag % HIDDEN;
        let e: u32 = (mag / HIDDEN - 1) as u32;
        (sig, e)
    }
}

/// A fraction that is `sig` at scale `t`, or that lies next to it.
proof fn lemma_fraction_encloses(num: int, den: int, sig: nat, t: nat, inexact: bool)
    requires
        den > 0,
        !inexact ==> num * crate::number::significand::fine() == den * (sig * crate::number::rounding::two_to(t)),
        inexact ==> den * ((sig - 1) * crate::number::rounding::two_to(t)) < num
            * crate::number::significand::fine() < den * ((sig + 1) * crate::number::rounding::two_to(t)),
    ensures
        crate::number::significand::encloses(crate::number::rounding::fraction(num, den), sig, t, inexact),
{
    let b = crate::number::significand::fine() as int;
    let p = crate::number::rounding::two_to(t) as int;
    let cut = crate::number::rounding::fraction(num, den);
    crate::number::rounding::lemma_two_to_positive(SCALE as nat);
    if inexact {
        assert forall|h: int| b * h <= 2 * (sig - 1) * p implies #[trigger] cut(h) > 0 by {
            assert(den * h < 2 * num) by (nonlinear_arith)
                requires
                    b * h <= 2 * (sig - 1) * p,
                    den * ((sig - 1) * p) < num * b,
                    den > 0,
                    b >= 1,
            ;
        }
        assert forall|h: int| b * h >= 2 * (sig + 1) * p implies #[trigger] cut(h) < 0 by {
            assert(den * h > 2 * num) by (nonlinear_arith)
                requires
                    b * h >= 2 * (sig + 1) * p,
                    den * ((sig + 1) * p) > num * b,
                    den > 0,
                    b >= 1,
            ;
        }
    } else {
        assert forall|h: int| b * h < 2 * sig * p implies #[trigger] cut(h) > 0 by {
            assert(den * h < 2 * num) by (nonlinear_arith)
                requires
                    b * h < 2 * sig * p,
                    den * (sig * p) == num * b,
                    den > 0,
                    b >= 1,
            ;
        }
        assert forall|h: int| b * h == 2 * sig * p implies #[trigger] cut(h) == 0 by {
            assert(den * h == 2 * num) by (nonlinear_arith)
                requires
                    b * h == 2 * sig * p,
                    den * (sig * p) == num * b,
                    den > 0,
                    b >= 1,
            ;
        }
        assert forall|h: int| b * h > 2 * sig * p implies #[trigger] cut(h) < 0 by {
            assert(den * h > 2 * num) by (nonlinear_arith)
                requires
                    b * h > 2 * sig * p,
                    den * (sig * p) == num * b,
                    den > 0,
                    b >= 1,
            ;
        }
    }
}

pub(crate) proof fn lemma_whole_encloses(num: int, sig: nat, e: nat)
    requires
        num == sig * crate::number::rounding::two_to(e),
    ensures
        crate::number::significand::encloses(
            crate::number::rounding::fraction(num, 1),
            sig,
            e + SCALE as nat,
            false,
        ),
{
    crate::number::rounding::lemma_two_to_adds(e, SCALE as nat);
    let q = crate::number::rounding::two_to(e) as int;
    let f = crate::number::significand::fine() as int;
    assert(num * f == 1 * (sig * (q * f))) by (nonlinear_arith)
        requires
            num == sig * q,
    ;
    lemma_fraction_encloses(num, 1, sig, e + SCALE as nat, false);
}

proof fn lemma_between_encloses(num: int, sig: nat, e: nat)
    requires
        (sig - 1) * crate::number::rounding::two_to(e) < num < (sig + 1) * crate::number::rounding::two_to(e),
    ensures
        crate::number::significand::encloses(
            crate::number::rounding::fraction(num, 1),
            sig,
            e + SCALE as nat,
            true,
        ),
{
    crate::number::rounding::lemma_two_to_adds(e, SCALE as nat);
    let q = crate::number::rounding::two_to(e) as int;
    let f = crate::number::significand::fine() as int;
    assert(1 * ((sig - 1) * (q * f)) < num * f < 1 * ((sig + 1) * (q * f))) by (nonlinear_arith)
        requires
            (sig - 1) * q < num < (sig + 1) * q,
            f >= 1,
    ;
    lemma_fraction_encloses(num, 1, sig, e + SCALE as nat, true);
}

/// A fraction of nothing rounds to zero.
pub(crate) proof fn lemma_nothing(den: int)
    requires
        den > 0,
    ensures
        crate::number::rounding::nearest(crate::number::rounding::fraction(0, den)) == 0,
{
    let cut = crate::number::rounding::fraction(0, den);
    crate::number::rounding::lemma_fraction_falling(0, den);
    assert(cut(0) == 0) by (nonlinear_arith)
        requires
            cut(0) == 2 * 0 - den * 0,
    ;
    crate::number::rounding::lemma_nearest_exact(cut, 0);
}

/// The magnitude nearest to the whole number of units `units(a) + units(b)`.
fn add_magnitudes(a: u64, b: u64) -> (r: u64)
    requires
        b <= a < INFINITE,
        b > 0,
    ensures
        r == crate::number::rounding::nearest(
            crate::number::rounding::fraction(
                crate::number::rounding::units(a as nat) as int + crate::number::rounding::units(b as nat),
                1,
            ),
        ),
        r <= INFINITE,
{
    let (sa, ea) = parts(a);
    let (sb, eb) = parts(b);
    proof {
        lemma_exponents_ascend(a, b, sa, ea, sb, eb);
    }
    let ghost num = (crate::number::rounding::units(a as nat) + crate::number::rounding::units(b as nat)) as int;
    let ghost cut = crate::number::rounding::fraction(num, 1);
    let d: u32 = ea - eb;
    let r = if d <= 70 {
        let wide = power_of_two(d);
        proof {
            lemma_aligned(sa, ea, eb, d, wide);
        }
        let sig: u128 = (sa as u128) * wide + sb as u128;
        proof {
            let q = crate::number::rounding::two_to(eb as nat) as int;
            assert(num == sig * q) by (nonlinear_arith)
                requires
                    num == (sa * wide) * q + sb * q,
                    sig as int == sa as int * wide as int + sb as int,
            ;
            lemma_whole_encloses(num, sig as nat, eb as nat);
        }
        round_parts(sig, eb + SCALE, false, Ghost(cut))
    } else {
        let sig: u128 = (sa as u128) * 1024 + 1;
        proof {
            lemma_far_apart(sa, ea, sb, eb);
            let q = crate::number::rounding::two_to((ea - 10) as nat) as int;
            let small = sb * crate::number::rounding::two_to(eb as nat);
            assert((sig - 1) * q < num < (sig + 1) * q) by (nonlinear_arith)
                requires
                    num == (sa * 1024) * q + small,
                    0 < small < q,
                    sig as int == sa as int * 1024 + 1,
            ;
            lemma_between_encloses(num, sig as nat, (ea - 10) as nat);
        }
        round_parts(sig, ea - 10 + SCALE, true, Ghost(cut))
    };
    proof {
        crate::number::rounding::lemma_fraction_falling(num, 1);
        crate::number::rounding::lemma_nearest_is(cut, r as nat);
    }
    r
}

/// The magnitude nearest to the whole number of units `units(a) - units(b)`.
fn subtract_magnitudes(a: u64, b: u64) -> (r: u64)
    requires
        b < a < INFINITE,
        b > 0,
    ensures
        r == crate::number::rounding::nearest(
            crate::number::rounding::fraction(
                crate::number::rounding::units(a as nat) - crate::number::rounding::units(b as nat),
                1,
            ),
        ),
        r <= INFINITE,
{
    let (sa, ea) = parts(a);
    let (sb, eb) = parts(b);
    proof {
        lemma_exponents_ascend(a, b, sa, ea, sb, eb);
        crate::number::rounding::lemma_units_ascend(b as nat, a as nat);
    }
    let ghost num = crate::number::rounding::units(a as nat) - crate::number::rounding::units(b as nat);
    let ghost cut = crate::number::rounding::fraction(num, 1);
    let d: u32 = ea - eb;
    let r = if d <= 70 {
        let wide = power_of_two(d);
        proof {
            lemma_aligned(sa, ea, eb, d, wide);
            let q = crate::number::rounding::two_to(eb as nat) as int;
            crate::number::rounding::lemma_two_to_positive(eb as nat);
            assert(sa as int * wide as int > sb) by (nonlinear_arith)
                requires
                    (sa * wide) * q - sb * q > 0,
                    q >= 1,
            ;
        }
        let sig: u128 = (sa as u128) * wide - sb as u128;
        proof {
            let q = crate::number::rounding::two_to(eb as nat) as int;
            assert(num == sig * q) by (nonlinear_arith)
                requires
                    num == (sa * wide) * q - sb * q,
                    sig as int == sa as int * wide as int - sb as int,
            ;
            lemma_whole_encloses(num, sig as nat, eb as nat);
        }
        round_parts(sig, eb + SCALE, false, Ghost(cut))
    } else {
        let sig: u128 = (sa as u128) * 1024 - 1;
        proof {
            lemma_far_apart(sa, ea, sb, eb);
            let q = crate::number::rounding::two_to((ea - 10) as nat) as int;
            let small = sb * crate::number::rounding::two_to(eb as nat);
            assert((sig - 1) * q < num < (sig + 1) * q) by (nonlinear_arith)
                requires
                    num == (sa * 1024) * q - small,
                    0 < small < q,
                    sig as int == sa as int * 1024 - 1,
            ;
            lemma_between_encloses(num, sig as nat, (ea - 10) as nat);
        }
        round_parts(sig, ea - 10 + SCALE, true, Ghost(cut))
    };
    proof {
        crate::number::rounding::lemma_fraction_falling(num, 1);
        crate::number::rounding::lemma_nearest_is(cut, r as nat);
    }
    r
}

proof fn lemma_exponents_ascend(a: u64, b: u64, sa: u64, ea: u32, sb: u64, eb: u32)
    requires
        b <= a,
        a == ea * HIDDEN + sa,
        b == eb * HIDDEN + sb,
        sa < 2 * HIDDEN,
        sb < 2 * HIDDEN,
        ea > 0 ==> sa >= HIDDEN,
        eb > 0 ==> sb >= HIDDEN,
    ensures
        eb <= ea,
{
    if ea < eb {
        assert(ea * HIDDEN + HIDDEN <= eb * HIDDEN) by (nonlinear_arith)
            requires
                ea + 1 <= eb,
                HIDDEN >= 0,
        ;
    }
}

proof fn lemma_aligned(sa: u64, ea: u32, eb: u32, d: u32, wide: u128)
    requires
        sa < 2 * HIDDEN,
        d == ea - eb,
        d <= 70,
        wide == crate::number::rounding::two_to(d as nat),
    ensures
        sa * crate::number::rounding::two_to(ea as nat) == (sa * wide) * crate::number::rounding::two_to(
            eb as nat,
        ),
        0 <= sa * wide < 0x800_0000_0000_0000_0000_0000_0000_0000int,
{
    crate::number::rounding::lemma_two_to_adds(d as nat, eb as nat);
    let q = crate::number::rounding::two_to(eb as nat) as int;
    assert(sa * (wide * q) == (sa * wide) * q) by (nonlinear_arith);
    crate::number::significand::lemma_two_to_ascends(d as nat, 70);
    crate::number::significand::lemma_known_powers();
    assert(crate::number::rounding::two_to(70) == 0x40_0000_0000_0000_0000int) by {
        crate::number::rounding::lemma_two_to_adds(53, 17);
        reveal_with_fuel(crate::number::rounding::two_to, 18);
        assert(0x20_0000_0000_0000int * 0x2_0000int == 0x40_0000_0000_0000_0000int);
    }
    assert(0 <= sa * wide < 0x800_0000_0000_0000_0000_0000_0000_0000int) by (nonlinear_arith)
        requires
            sa < 0x20_0000_0000_0000,
            0 <= wide <= 0x40_0000_0000_0000_0000int,
    ;
}

/// More than seventy binary places apart, the smaller number is lost in the tenth place
/// below the larger one's last.
proof fn lemma_far_apart(sa: u64, ea: u32, sb: u64, eb: u32)
    requires
        ea > eb + 70,
        0 < sb < 2 * HIDDEN,
    ensures
        sa * crate::number::rounding::two_to(ea as nat) == (sa * 1024) * crate::number::rounding::two_to(
            (ea - 10) as nat,
        ),
        0 < sb * crate::number::rounding::two_to(eb as nat) < crate::number::rounding::two_to((ea - 10) as nat),
        crate::number::rounding::two_to(SCALE as nat) >= 1,
{
    crate::number::rounding::lemma_two_to_positive(SCALE as nat);
    crate::number::rounding::lemma_two_to_adds(10, (ea - 10) as nat);
    assert(crate::number::rounding::two_to(10) == 1024) by {
        reveal_with_fuel(crate::number::rounding::two_to, 11);
    }
    let q = crate::number::rounding::two_to((ea - 10) as nat) as int;
    assert(sa * (1024 * q) == (sa * 1024) * q) by (nonlinear_arith);
    crate::number::rounding::lemma_two_to_adds(53, eb as nat);
    crate::number::significand::lemma_known_powers();
    crate::number::significand::lemma_two_to_ascends((53 + eb) as nat, (ea - 10) as nat);
    let s = crate::number::rounding::two_to(eb as nat) as int;
    assert(0 < sb * s < (2 * HIDDEN) * s) by (nonlinear_arith)
        requires
            0 < sb < 2 * HIDDEN,
            s >= 1,
    ;
}

impl Scalar {
    pub open spec fn spec_plus(self, other: Scalar) -> Scalar {
        if self.is_nan() || other.is_nan() {
            Scalar::nan()
        } else if self.infinite() {
            if other.infinite() && self.negative() != other.negative() {
                Scalar::nan()
            } else {
                self
            }
        } else if other.infinite() {
            other
        } else {
            let v = self.value() + other.value();
            if v == 0 {
                Scalar::pack(self.negative() && other.negative(), 0)
            } else {
                Scalar::rounded(
                    v < 0,
                    crate::number::rounding::fraction(
                        if v < 0 {
                            -v
                        } else {
                            v
                        },
                        1,
                    ),
                )
            }
        }
    }

    /// The sum, rounded to the nearest number.
    #[verifier::when_used_as_spec(spec_plus)]
    pub fn plus(self, other: Scalar) -> (r: Scalar)
        ensures
            r == self.plus(other),
    {
        let a = self.mag();
        let b = other.mag();
        let na = self.is_negative();
        let nb = other.is_negative();
        if a > INFINITE || b > INFINITE {
            return Scalar::nan();
        }
        if a == INFINITE {
            if b == INFINITE && na != nb {
                return Scalar::nan();
            }
            return self;
        }
        if b == INFINITE {
            return other;
        }
        proof {
            lemma_zero_units(a as nat);
            lemma_zero_units(b as nat);
            if a < b {
                crate::number::rounding::lemma_units_ascend(a as nat, b as nat);
            } else if b < a {
                crate::number::rounding::lemma_units_ascend(b as nat, a as nat);
            }
        }
        if a == 0 {
            if b == 0 {
                return Scalar::signed(na && nb, 0);
            }
            proof {
                lemma_own_magnitude(b as nat);
            }
            return Scalar::signed(nb, b);
        }
        if b == 0 {
            proof {
                lemma_own_magnitude(a as nat);
            }
            return Scalar::signed(na, a);
        }
        if na == nb {
            let r = if a >= b {
                add_magnitudes(a, b)
            } else {
                add_magnitudes(b, a)
            };
            Scalar::signed(na, r)
        } else if a == b {
            Scalar::signed(false, 0)
        } else if a > b {
            Scalar::signed(na, subtract_magnitudes(a, b))
        } else {
            Scalar::signed(nb, subtract_magnitudes(b, a))
        }
    }

    pub open spec fn spec_minus(self, other: Scalar) -> Scalar {
        self.plus(other.negated())
    }

    /// The difference, rounded to the nearest number.
    #[verifier::when_used_as_spec(spec_minus)]
    pub fn minus(self, other: Scalar) -> (r: Scalar)
        ensures
            r == self.minus(other),
    {
        self.plus(other.negated())
    }
}

pub(crate) proof fn lemma_zero_units(mag: nat)
    ensures
        crate::number::rounding::units(mag) == 0 <==> mag == 0,
{
    if mag > 0 {
        crate::number::rounding::lemma_units_ascend(0, mag);
    }
}

/// A whole number of units that is a magnitude's rounds to it.
pub(crate) proof fn lemma_own_magnitude(mag: nat)
    requires
        mag <= INFINITE,
    ensures
        crate::number::rounding::nearest(
            crate::number::rounding::fraction(crate::number::rounding::units(mag) as int, 1),
        ) == mag,
{
    let cut = crate::number::rounding::fraction(crate::number::rounding::units(mag) as int, 1);
    crate::number::rounding::lemma_fraction_falling(crate::number::rounding::units(mag) as int, 1);
    crate::number::rounding::lemma_nearest_exact(cut, mag);
}

/// The magnitude nearest to the product, in units, of two magnitudes.
fn multiply_magnitudes(a: u64, b: u64) -> (r: u64)
    requires
        a < INFINITE,
        b < INFINITE,
    ensures
        r == crate::number::rounding::nearest(
            crate::number::rounding::fraction(
                crate::number::rounding::units(a as nat) as int * crate::number::rounding::units(b as nat) as int,
                crate::number::rounding::one_in_units() as int,
            ),
        ),
        r <= INFINITE,
{
    let ghost ua = crate::number::rounding::units(a as nat) as int;
    let ghost ub = crate::number::rounding::units(b as nat) as int;
    let ghost den = crate::number::rounding::one_in_units() as int;
    let ghost cut = crate::number::rounding::fraction(ua * ub, den);
    proof {
        crate::number::rounding::lemma_two_to_positive(UNIT_EXPONENT as nat);
        lemma_zero_units(a as nat);
        lemma_zero_units(b as nat);
    }
    if a == 0 || b == 0 {
        proof {
            assert(ua * ub == 0) by (nonlinear_arith)
                requires
                    ua == 0 || ub == 0,
            ;
            lemma_nothing(den);
        }
        return 0;
    }
    let (sa, ea) = parts(a);
    let (sb, eb) = parts(b);
    proof {
        assert(0 < sa * sb < 0x40_0000_0000_0000int * 0x40_0000_0000_0000int) by (nonlinear_arith)
            requires
                0 < sa < 0x20_0000_0000_0000,
                0 < sb < 0x20_0000_0000_0000,
        ;
    }
    let sig: u128 = (sa as u128) * (sb as u128);
    let t: u32 = ea + eb + (SCALE - UNIT_EXPONENT);
    proof {
        let p = crate::number::rounding::two_to(ea as nat) as int;
        let q = crate::number::rounding::two_to(eb as nat) as int;
        let g = crate::number::rounding::two_to((SCALE - UNIT_EXPONENT) as nat) as int;
        crate::number::rounding::lemma_two_to_adds(ea as nat, eb as nat);
        crate::number::rounding::lemma_two_to_adds((ea + eb) as nat, (SCALE - UNIT_EXPONENT) as nat);
        crate::number::rounding::lemma_two_to_adds(
            UNIT_EXPONENT as nat,
            (SCALE - UNIT_EXPONENT) as nat,
        );
        assert((ua * ub) * (den * g) == den * (sig as int * ((p * q) * g))) by (nonlinear_arith)
            requires
                ua == sa as int * p,
                ub == sb as int * q,
                sig as int == sa as int * sb as int,
        ;
        lemma_fraction_encloses(ua * ub, den, sig as nat, t as nat, false);
    }
    let r = round_parts(sig, t, false, Ghost(cut));
    proof {
        crate::number::rounding::lemma_fraction_falling(ua * ub, den);
        crate::number::rounding::lemma_nearest_is(cut, r as nat);
    }
    r
}

/// The magnitude nearest to the quotient, in units, of two magnitudes.
fn divide_magnitudes(a: u64, b: u64) -> (r: u64)
    requires
        a < INFINITE,
        0 < b < INFINITE,
    ensures
        r == crate::number::rounding::nearest(
            crate::number::rounding::fraction(
                crate::number::rounding::units(a as nat) as int * crate::number::rounding::one_in_units() as int,
                crate::number::rounding::units(b as nat) as int,
            ),
        ),
        r <= INFINITE,
{
    let ghost ua = crate::number::rounding::units(a as nat) as int;
    let ghost ub = crate::number::rounding::units(b as nat) as int;
    let ghost one = crate::number::rounding::one_in_units() as int;
    let ghost cut = crate::number::rounding::fraction(ua * one, ub);
    proof {
        lemma_zero_units(a as nat);
        lemma_zero_units(b as nat);
    }
    if a == 0 {
        proof {
            assert(ua * one == 0) by (nonlinear_arith)
                requires
                    ua == 0,
            ;
            lemma_nothing(ub);
        }
        return 0;
    }
    let (sa, ea) = parts(a);
    let (sb, eb) = parts(b);
    // A dividend of a hundred and eleven digits leaves at least fifty-eight in the
    // quotient.
    let n = digits(sa as u128);
    proof {
        crate::number::significand::lemma_known_powers();
        if n > 53 {
            crate::number::significand::lemma_two_to_ascends(53, (n - 1) as nat);
        }
    }
    let k: u32 = 111 - n;
    let wide = power_of_two(k);
    proof {
        crate::number::rounding::lemma_two_to_adds((n - 1) as nat, k as nat);
        crate::number::rounding::lemma_two_to_adds(n as nat, k as nat);
        lemma_dividend_powers();
        assert(0x4000_0000_0000_0000_0000_0000_0000int <= sa * wide
            < 0x8000_0000_0000_0000_0000_0000_0000int) by (nonlinear_arith)
            requires
                crate::number::rounding::two_to((n - 1) as nat) <= sa < crate::number::rounding::two_to(n as nat),
                wide == crate::number::rounding::two_to(k as nat),
                wide >= 1,
                crate::number::rounding::two_to((n - 1) as nat) * crate::number::rounding::two_to(k as nat)
                    == 0x4000_0000_0000_0000_0000_0000_0000int,
                crate::number::rounding::two_to(n as nat) * crate::number::rounding::two_to(k as nat)
                    == 0x8000_0000_0000_0000_0000_0000_0000int,
        ;
    }
    let dividend: u128 = (sa as u128) * wide;
    let divisor: u128 = sb as u128;
    let quotient: u128 = dividend / divisor;
    let rest: u128 = dividend % divisor;
    proof {
        vstd::arithmetic::div_mod::lemma_fundamental_div_mod(dividend as int, divisor as int);
        vstd::arithmetic::div_mod::lemma_mod_bound(dividend as int, divisor as int);
        assert(0x200_0000_0000_0000 <= quotient <= dividend) by (nonlinear_arith)
            requires
                dividend as int == divisor as int * quotient as int + rest as int,
                0 <= rest < divisor < 0x20_0000_0000_0000,
                0 < divisor,
                dividend >= 0x4000_0000_0000_0000_0000_0000_0000int,
                quotient >= 0,
        ;
    }
    let ghost x = ((SCALE + UNIT_EXPONENT) + ea - eb - k) as nat;
    proof {
        lemma_quotient_scales(sa, ea, sb, eb, k, wide as nat, x);
    }
    let r = if rest == 0 {
        let t: u32 = SCALE + UNIT_EXPONENT + ea - eb - k;
        proof {
            let p = crate::number::rounding::two_to(x) as int;
            let f = crate::number::significand::fine() as int;
            assert((ua * one) * f == ub * (quotient as int * p)) by (nonlinear_arith)
                requires
                    (ua * one) * f * sb as int == ub * ((sa as int * wide as int) * p),
                    sa as int * wide as int == sb as int * quotient as int,
                    sb > 0,
            ;
            lemma_fraction_encloses(ua * one, ub, quotient as nat, t as nat, false);
        }
        round_parts(quotient, t, false, Ghost(cut))
    } else {
        let t: u32 = SCALE + UNIT_EXPONENT + ea - eb - k - 1;
        let sig: u128 = quotient * 2 + 1;
        proof {
            let h = crate::number::rounding::two_to(t as nat) as int;
            let p = crate::number::rounding::two_to(x) as int;
            let f = crate::number::significand::fine() as int;
            crate::number::rounding::lemma_two_to_positive(t as nat);
            assert(p == 2 * h);
            let d = divisor as int;
            let z = (ua * one) * f;
            assert(ub * ((sig - 1) * h) < z < ub * ((sig + 1) * h)) by {
                assert(z * d == ub * ((d * quotient as int + rest as int) * p));
                assert((sig - 1) * h == quotient as int * p) by (nonlinear_arith)
                    requires
                        sig as int == quotient as int * 2 + 1,
                        p == 2 * h,
                ;
                assert((sig + 1) * h == (quotient as int + 1) * p) by (nonlinear_arith)
                    requires
                        sig as int == quotient as int * 2 + 1,
                        p == 2 * h,
                ;
                assert(ub * (quotient as int * p) < z) by (nonlinear_arith)
                    requires
                        z * d == ub * ((d * quotient as int + rest as int) * p),
                        rest > 0,
                        d > 0,
                        p >= 2,
                        ub >= 1,
                ;
                assert(z < ub * ((quotient as int + 1) * p)) by (nonlinear_arith)
                    requires
                        z * d == ub * ((d * quotient as int + rest as int) * p),
                        rest < d,
                        d > 0,
                        p >= 2,
                        ub >= 1,
                ;
            }
            lemma_fraction_encloses(ua * one, ub, sig as nat, t as nat, true);
        }
        round_parts(sig, t, true, Ghost(cut))
    };
    proof {
        crate::number::rounding::lemma_fraction_falling(ua * one, ub);
        crate::number::rounding::lemma_nearest_is(cut, r as nat);
    }
    r
}

proof fn lemma_dividend_powers()
    ensures
        crate::number::rounding::two_to(110) == 0x4000_0000_0000_0000_0000_0000_0000int,
        crate::number::rounding::two_to(111) == 0x8000_0000_0000_0000_0000_0000_0000int,
{
    crate::number::significand::lemma_known_powers();
    crate::number::rounding::lemma_two_to_adds(53, 53);
    crate::number::rounding::lemma_two_to_adds(106, 4);
    reveal_with_fuel(crate::number::rounding::two_to, 5);
    assert(0x20_0000_0000_0000int * 0x20_0000_0000_0000int
        == 0x400_0000_0000_0000_0000_0000_0000int);
    assert(crate::number::rounding::two_to(111) == 2 * crate::number::rounding::two_to(110));
}

proof fn lemma_quotient_scales(sa: u64, ea: u32, sb: u64, eb: u32, k: u32, wide: nat, x: nat)
    requires
        k <= 111,
        ea <= 2046,
        eb <= 2046,
        wide == crate::number::rounding::two_to(k as nat),
        x == SCALE + UNIT_EXPONENT + ea - eb - k,
    ensures
        ((sa * crate::number::rounding::two_to(ea as nat)) * crate::number::rounding::one_in_units() as int)
            * crate::number::significand::fine() as int * sb as int == (sb * crate::number::rounding::two_to(
            eb as nat,
        )) * ((sa as int * wide as int) * crate::number::rounding::two_to(x) as int),
{
    let p = crate::number::rounding::two_to(ea as nat) as int;
    let q = crate::number::rounding::two_to(eb as nat) as int;
    let one = crate::number::rounding::one_in_units() as int;
    let f = crate::number::significand::fine() as int;
    let w = wide as int;
    let z = crate::number::rounding::two_to(x) as int;
    crate::number::rounding::lemma_two_to_adds(ea as nat, UNIT_EXPONENT as nat);
    crate::number::rounding::lemma_two_to_adds((ea + UNIT_EXPONENT) as nat, SCALE as nat);
    crate::number::rounding::lemma_two_to_adds(eb as nat, k as nat);
    crate::number::rounding::lemma_two_to_adds((eb + k) as nat, x);
    assert((ea + UNIT_EXPONENT + SCALE) as nat == (eb + k) as nat + x);
    assert((p * one) * f == (q * w) * z);
    let a = sa as int;
    let b = sb as int;
    assert(((a * p) * one) * f * b == a * b * ((p * one) * f)) by (nonlinear_arith);
    assert((b * q) * ((a * w) * z) == a * b * ((q * w) * z)) by (nonlinear_arith);
}

impl Scalar {
    pub open spec fn spec_times(self, other: Scalar) -> Scalar {
        let negative = self.negative() != other.negative();
        if self.is_nan() || other.is_nan() {
            Scalar::nan()
        } else if self.infinite() || other.infinite() {
            if self.magnitude() == 0 || other.magnitude() == 0 {
                Scalar::nan()
            } else {
                Scalar::pack(negative, INFINITE as nat)
            }
        } else {
            Scalar::rounded(
                negative,
                crate::number::rounding::fraction(
                    crate::number::rounding::units(self.magnitude()) as int * crate::number::rounding::units(
                        other.magnitude(),
                    ) as int,
                    crate::number::rounding::one_in_units() as int,
                ),
            )
        }
    }

    /// The product, rounded to the nearest number.
    #[verifier::when_used_as_spec(spec_times)]
    pub fn times(self, other: Scalar) -> (r: Scalar)
        ensures
            r == self.times(other),
    {
        let a = self.mag();
        let b = other.mag();
        let negative: bool = self.is_negative() != other.is_negative();
        if a > INFINITE || b > INFINITE {
            return Scalar::nan();
        }
        if a == INFINITE || b == INFINITE {
            if a == 0 || b == 0 {
                return Scalar::nan();
            }
            return Scalar::signed(negative, INFINITE);
        }
        Scalar::signed(negative, multiply_magnitudes(a, b))
    }

    pub open spec fn spec_over(self, other: Scalar) -> Scalar {
        let negative = self.negative() != other.negative();
        if self.is_nan() || other.is_nan() {
            Scalar::nan()
        } else if self.infinite() {
            if other.infinite() {
                Scalar::nan()
            } else {
                Scalar::pack(negative, INFINITE as nat)
            }
        } else if other.infinite() {
            Scalar::pack(negative, 0)
        } else if other.magnitude() == 0 {
            if self.magnitude() == 0 {
                Scalar::nan()
            } else {
                Scalar::pack(negative, INFINITE as nat)
            }
        } else {
            Scalar::rounded(
                negative,
                crate::number::rounding::fraction(
                    crate::number::rounding::units(self.magnitude()) as int
                        * crate::number::rounding::one_in_units() as int,
                    crate::number::rounding::units(other.magnitude()) as int,
                ),
            )
        }
    }

    /// The quotient, rounded to the nearest number.
    #[verifier::when_used_as_spec(spec_over)]
    pub fn over(self, other: Scalar) -> (r: Scalar)
        ensures
            r == self.over(other),
    {
        let a = self.mag();
        let b = other.mag();
        let negative: bool = self.is_negative() != other.is_negative();
        if a > INFINITE || b > INFINITE {
            return Scalar::nan();
        }
        if a == INFINITE {
            if b == INFINITE {
                return Scalar::nan();
            }
            return Scalar::signed(negative, INFINITE);
        }
        if b == INFINITE {
            return Scalar::signed(negative, 0);
        }
        if b == 0 {
            if a == 0 {
                return Scalar::nan();
            }
            return Scalar::signed(negative, INFINITE);
        }
        Scalar::signed(negative, divide_magnitudes(a, b))
    }
}

} // verus!
