//! Square roots of coordinates.

use vstd::prelude::*;

use crate::number::arithmetic::parts;
use crate::number::rounding::{INFINITE, UNIT_EXPONENT};
use crate::number::scalar::Scalar;
use crate::number::significand::{digits, power_of_two, round_parts, SCALE};

verus! {

/// The whole part of the square root of `x`.
fn whole_root(x: u128) -> (r: u128)
    requires
        x < 0x100_0000_0000_0000_0000_0000_0000_0000,
    ensures
        r * r <= x < (r + 1) * (r + 1),
        r < 0x1000_0000_0000_0000,
{
    let mut r: u128 = 0;
    let mut bit: u128 = 0x800_0000_0000_0000;
    assert(0x1000_0000_0000_0000int * 0x1000_0000_0000_0000int
        == 0x100_0000_0000_0000_0000_0000_0000_0000int);
    assert((0 + 2 * 0x800_0000_0000_0000int) * (0 + 2 * 0x800_0000_0000_0000int)
        == 0x100_0000_0000_0000_0000_0000_0000_0000int);
    proof {
        reveal_with_fuel(is_power, 61);
    }
    while bit > 0
        invariant
            x < 0x100_0000_0000_0000_0000_0000_0000_0000,
            bit <= 0x800_0000_0000_0000,
            r + 2 * bit <= 0x1000_0000_0000_0000,
            r * r <= x,
            bit > 0 ==> x < (r + 2 * bit) * (r + 2 * bit) && is_power(bit as int),
            bit == 0 ==> x < (r + 1) * (r + 1) && r < 0x1000_0000_0000_0000,
        decreases bit,
    {
        let next: u128 = r + bit;
        proof {
            assert(0 <= next * next <= 0x1000_0000_0000_0000int * 0x1000_0000_0000_0000int)
                by (nonlinear_arith)
                requires
                    0 <= next <= 0x1000_0000_0000_0000,
            ;
            if bit > 1 {
                lemma_power_halves(bit as int);
            }
        }
        if next * next <= x {
            r = next;
        }
        bit = bit / 2;
    }
    r
}

/// Whether `x` is a power of two.
spec fn is_power(x: int) -> bool
    decreases x,
{
    x == 1 || (x > 1 && x % 2 == 0 && is_power(x / 2))
}

proof fn lemma_power_halves(x: int)
    requires
        is_power(x),
        x > 1,
    ensures
        x == 2 * (x / 2),
        is_power(x / 2),
{
}

proof fn lemma_root_encloses(n: int, sig: nat, e: nat, inexact: bool)
    requires
        n >= 0,
        !inexact ==> (sig * crate::number::rounding::two_to(e)) * (sig * crate::number::rounding::two_to(e)) == n,
        inexact ==> sig >= 1 && ((sig - 1) * crate::number::rounding::two_to(e)) * ((sig - 1)
            * crate::number::rounding::two_to(e)) < n < ((sig + 1) * crate::number::rounding::two_to(e)) * ((sig
            + 1) * crate::number::rounding::two_to(e)),
    ensures
        crate::number::significand::encloses(
            crate::number::rounding::root(n),
            sig,
            e + SCALE as nat,
            inexact,
        ),
{
    let b = crate::number::significand::fine() as int;
    let q = crate::number::rounding::two_to(e) as int;
    let p = crate::number::rounding::two_to(e + SCALE as nat) as int;
    let cut = crate::number::rounding::root(n);
    crate::number::rounding::lemma_two_to_adds(e, SCALE as nat);
    assert(p == b * q) by (nonlinear_arith)
        requires
            p == q * b,
    ;
    if inexact {
        let y = (sig - 1) * q;
        let z = (sig + 1) * q;
        assert(y >= 0) by (nonlinear_arith)
            requires
                y == (sig - 1) * q,
                sig >= 1,
                q >= 1,
        ;
        assert(z >= 0) by (nonlinear_arith)
            requires
                z == (sig + 1) * q,
                q >= 1,
        ;
        assert forall|h: int| b * h <= 2 * (sig - 1) * p implies #[trigger] cut(h) > 0 by {
            assert(h <= 2 * y) by (nonlinear_arith)
                requires
                    b * h <= 2 * (sig - 1) * p,
                    p == b * q,
                    y == (sig - 1) * q,
                    b >= 1,
            ;
            if h >= 0 {
                assert(h * h <= 4 * (y * y)) by (nonlinear_arith)
                    requires
                        0 <= h <= 2 * y,
                ;
            }
        }
        assert forall|h: int| b * h >= 2 * (sig + 1) * p implies #[trigger] cut(h) < 0 by {
            assert(h >= 2 * z) by (nonlinear_arith)
                requires
                    b * h >= 2 * (sig + 1) * p,
                    p == b * q,
                    z == (sig + 1) * q,
                    b >= 1,
            ;
            assert(h * h >= 4 * (z * z)) by (nonlinear_arith)
                requires
                    0 <= 2 * z <= h,
            ;
        }
    } else {
        let y = sig * q;
        assert(y >= 0) by (nonlinear_arith)
            requires
                y == sig * q,
                q >= 1,
        ;
        assert forall|h: int| b * h < 2 * sig * p implies #[trigger] cut(h) > 0 by {
            assert(h < 2 * y) by (nonlinear_arith)
                requires
                    b * h < 2 * sig * p,
                    p == b * q,
                    y == sig * q,
                    b >= 1,
            ;
            if h >= 0 {
                assert(h * h < 4 * (y * y)) by (nonlinear_arith)
                    requires
                        0 <= h < 2 * y,
                ;
            }
        }
        assert forall|h: int| b * h == 2 * sig * p implies #[trigger] cut(h) == 0 by {
            assert(h == 2 * y) by (nonlinear_arith)
                requires
                    b * h == 2 * sig * p,
                    p == b * q,
                    y == sig * q,
                    b >= 1,
            ;
            assert(h * h == 4 * (y * y)) by (nonlinear_arith)
                requires
                    h == 2 * y,
            ;
        }
        assert forall|h: int| b * h > 2 * sig * p implies #[trigger] cut(h) < 0 by {
            assert(h > 2 * y) by (nonlinear_arith)
                requires
                    b * h > 2 * sig * p,
                    p == b * q,
                    y == sig * q,
                    b >= 1,
            ;
            assert(h * h > 4 * (y * y)) by (nonlinear_arith)
                requires
                    h > 2 * y,
                    y >= 0,
            ;
        }
    }
}

proof fn lemma_square_scales(c: int, e: nat)
    ensures
        (c * crate::number::rounding::two_to(e)) * (c * crate::number::rounding::two_to(e)) == (c * c)
            * crate::number::rounding::two_to(2 * e),
        crate::number::rounding::two_to(2 * e) >= 1,
{
    crate::number::rounding::lemma_two_to_positive(2 * e);
    crate::number::rounding::lemma_two_to_adds(e, e);
    let q = crate::number::rounding::two_to(e) as int;
    assert((c * q) * (c * q) == (c * c) * (q * q)) by (nonlinear_arith);
}

/// The magnitude nearest to the square root, in units, of a magnitude.
fn root_magnitude(a: u64) -> (r: u64)
    requires
        0 < a < INFINITE,
    ensures
        r == crate::number::rounding::nearest(
            crate::number::rounding::root(
                crate::number::rounding::units(a as nat) as int * crate::number::rounding::one_in_units() as int,
            ),
        ),
        r <= INFINITE,
{
    let (sa, ea) = parts(a);
    let ghost n = crate::number::rounding::units(a as nat) as int * crate::number::rounding::one_in_units() as int;
    let ghost cut = crate::number::rounding::root(n);
    // A hundred and nineteen or a hundred and twenty digits, whichever leaves an even
    // exponent, so that the root has sixty.
    let d = digits(sa as u128);
    proof {
        crate::number::significand::lemma_known_powers();
        if d > 53 {
            crate::number::significand::lemma_two_to_ascends(53, (d - 1) as nat);
        }
    }
    let k: u32 = if (ea + UNIT_EXPONENT + 120 - d) % 2 == 0 {
        120 - d
    } else {
        119 - d
    };
    let wide = power_of_two(k);
    proof {
        crate::number::rounding::lemma_two_to_adds((d - 1) as nat, k as nat);
        crate::number::rounding::lemma_two_to_adds(d as nat, k as nat);
        lemma_radicand_powers();
        crate::number::significand::lemma_two_to_ascends(118, (d - 1 + k) as nat);
        crate::number::significand::lemma_two_to_ascends((d + k) as nat, 120);
        assert(0x40_0000_0000_0000_0000_0000_0000_0000int <= sa * wide
            < 0x100_0000_0000_0000_0000_0000_0000_0000int) by (nonlinear_arith)
            requires
                crate::number::rounding::two_to((d - 1) as nat) <= sa < crate::number::rounding::two_to(d as nat),
                wide == crate::number::rounding::two_to(k as nat),
                wide >= 1,
                crate::number::rounding::two_to((d - 1) as nat) * crate::number::rounding::two_to(k as nat)
                    >= 0x40_0000_0000_0000_0000_0000_0000_0000int,
                crate::number::rounding::two_to(d as nat) * crate::number::rounding::two_to(k as nat)
                    <= 0x100_0000_0000_0000_0000_0000_0000_0000int,
        ;
    }
    let x: u128 = (sa as u128) * wide;
    let root = whole_root(x);
    let e: u32 = (ea + UNIT_EXPONENT - k) / 2;
    proof {
        assert(2 * e == ea + UNIT_EXPONENT - k);
        assert(root >= 0x800_0000_0000_0000) by (nonlinear_arith)
            requires
                x < (root + 1) * (root + 1),
                x >= 0x40_0000_0000_0000_0000_0000_0000_0000int,
                root >= 0,
        ;
        assert(0 <= root * root <= 0x1000_0000_0000_0000int * 0x1000_0000_0000_0000int)
            by (nonlinear_arith)
            requires
                0 <= root <= 0x1000_0000_0000_0000,
        ;
        lemma_radicand(sa, ea, k, wide as nat, e as nat, x as int, n);
    }
    let r = if root * root == x {
        proof {
            lemma_square_scales(root as int, e as nat);
            lemma_root_encloses(n, root as nat, e as nat, false);
        }
        round_parts(root, e + SCALE, false, Ghost(cut))
    } else {
        let sig: u128 = 2 * root + 1;
        proof {
            let f = (e - 1) as nat;
            let w = crate::number::rounding::two_to(2 * f) as int;
            let r = root as int;
            lemma_square_scales(sig - 1, f);
            lemma_square_scales(sig + 1, f);
            assert(crate::number::rounding::two_to(2 * e as nat) == 4 * w) by {
                assert(crate::number::rounding::two_to(2 * e as nat) == 2 * crate::number::rounding::two_to(
                    (2 * e - 1) as nat,
                ));
                assert((2 * e - 2) as nat == 2 * f);
            }
            assert((sig - 1) * (sig - 1) * w < n) by (nonlinear_arith)
                requires
                    sig as int == 2 * r + 1,
                    r * r < x,
                    n == x as int * (4 * w),
                    w >= 1,
            ;
            assert(n < (sig + 1) * (sig + 1) * w) by (nonlinear_arith)
                requires
                    sig as int == 2 * r + 1,
                    x < (r + 1) * (r + 1),
                    n == x as int * (4 * w),
                    w >= 1,
            ;
            lemma_root_encloses(n, sig as nat, f, true);
        }
        round_parts(sig, e - 1 + SCALE, true, Ghost(cut))
    };
    proof {
        crate::number::rounding::lemma_root_falling(n);
        crate::number::rounding::lemma_nearest_is(cut, r as nat);
    }
    r
}

proof fn lemma_radicand_powers()
    ensures
        crate::number::rounding::two_to(118) == 0x40_0000_0000_0000_0000_0000_0000_0000int,
        crate::number::rounding::two_to(120) == 0x100_0000_0000_0000_0000_0000_0000_0000int,
{
    crate::number::significand::lemma_known_powers();
    crate::number::rounding::lemma_two_to_adds(53, 53);
    crate::number::rounding::lemma_two_to_adds(106, 12);
    reveal_with_fuel(crate::number::rounding::two_to, 13);
    assert(0x20_0000_0000_0000int * 0x20_0000_0000_0000int
        == 0x400_0000_0000_0000_0000_0000_0000int);
    assert(0x400_0000_0000_0000_0000_0000_0000int * 0x1000int
        == 0x40_0000_0000_0000_0000_0000_0000_0000int);
    assert(crate::number::rounding::two_to(119) == 2 * crate::number::rounding::two_to(118));
    assert(crate::number::rounding::two_to(120) == 2 * crate::number::rounding::two_to(119));
}

proof fn lemma_radicand(sa: u64, ea: u32, k: u32, wide: nat, e: nat, x: int, n: int)
    requires
        k <= 120,
        wide == crate::number::rounding::two_to(k as nat),
        2 * e == ea + UNIT_EXPONENT - k,
        x == sa * wide,
        n == (sa * crate::number::rounding::two_to(ea as nat)) * crate::number::rounding::one_in_units() as int,
    ensures
        n == x * crate::number::rounding::two_to(2 * e),
        n >= 0,
{
    let p = crate::number::rounding::two_to(ea as nat) as int;
    let one = crate::number::rounding::one_in_units() as int;
    let z = crate::number::rounding::two_to(2 * e) as int;
    let w = wide as int;
    crate::number::rounding::lemma_two_to_adds(ea as nat, UNIT_EXPONENT as nat);
    crate::number::rounding::lemma_two_to_adds(k as nat, 2 * e);
    assert((ea + UNIT_EXPONENT) as nat == k as nat + 2 * e);
    assert((sa * p) * one == sa * (p * one)) by (nonlinear_arith);
    assert((sa * w) * z == sa * (w * z)) by (nonlinear_arith);
    assert(n >= 0) by (nonlinear_arith)
        requires
            n == (sa * p) * one,
            p >= 1,
            one >= 1,
    ;
}

impl Scalar {
    pub open spec fn spec_sqrt(self) -> Scalar {
        if self.is_nan() || self.magnitude() == 0 {
            self
        } else if self.negative() {
            Scalar::nan()
        } else if self.infinite() {
            self
        } else {
            Scalar::rounded(
                false,
                crate::number::rounding::root(
                    crate::number::rounding::units(self.magnitude()) as int
                        * crate::number::rounding::one_in_units() as int,
                ),
            )
        }
    }

    /// The square root, rounded to the nearest number.
    #[verifier::when_used_as_spec(spec_sqrt)]
    pub fn sqrt(self) -> (r: Scalar)
        ensures
            r == self.sqrt(),
    {
        let mag = self.mag();
        if mag > INFINITE || mag == 0 {
            self
        } else if self.is_negative() {
            Scalar::nan()
        } else if mag == INFINITE {
            self
        } else {
            Scalar::signed(false, root_magnitude(mag))
        }
    }
}

} // verus!
