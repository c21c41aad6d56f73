//! Whole numbers among the coordinates.

use vstd::prelude::*;

use crate::number::arithmetic::parts;
use crate::number::rounding::{HIDDEN, INFINITE, UNIT_EXPONENT};
use crate::number::scalar::Scalar;
use crate::number::significand::{power_of_two, round_parts, SCALE};

verus! {

/// The magnitude nearest to the whole number `n`.
fn whole_magnitude(n: u64) -> (r: u64)
    ensures
        r == crate::number::rounding::nearest(
            crate::number::rounding::fraction(n * crate::number::rounding::one_in_units(), 1),
        ),
        r <= INFINITE,
{
    let ghost num = n * crate::number::rounding::one_in_units();
    let ghost cut = crate::number::rounding::fraction(num, 1);
    if n == 0 {
        proof {
            assert(num == 0) by (nonlinear_arith)
                requires
                    num == 0 * crate::number::rounding::one_in_units(),
            ;
            crate::number::arithmetic::lemma_nothing(1);
        }
        return 0;
    }
    proof {
        crate::number::arithmetic::lemma_whole_encloses(num, n as nat, UNIT_EXPONENT as nat);
    }
    let r = round_parts(n as u128, UNIT_EXPONENT + SCALE, false, Ghost(cut));
    proof {
        crate::number::rounding::lemma_fraction_falling(num, 1);
        crate::number::rounding::lemma_nearest_is(cut, r as nat);
    }
    r
}

impl Scalar {
    pub open spec fn spec_from_whole(n: u64) -> Scalar {
        Scalar::rounded(
            false,
            crate::number::rounding::fraction(n * crate::number::rounding::one_in_units(), 1),
        )
    }

    /// The nearest number to `n`.
    #[verifier::when_used_as_spec(spec_from_whole)]
    pub fn from_whole(n: u64) -> (r: Scalar)
        ensures
            r == Scalar::from_whole(n),
    {
        Scalar::signed(false, whole_magnitude(n))
    }

    pub open spec fn spec_ratio(num: u64, den: u64) -> Scalar {
        Scalar::from_whole(num).over(Scalar::from_whole(den))
    }

    /// The quotient of two whole numbers, rounded to the nearest number.
    #[verifier::when_used_as_spec(spec_ratio)]
    pub fn ratio(num: u64, den: u64) -> (r: Scalar)
        ensures
            r == Scalar::ratio(num, den),
    {
        Scalar::from_whole(num).over(Scalar::from_whole(den))
    }

    /// The whole number nearest to the magnitude of a finite number, halves going up.
    pub open spec fn nearest_whole(self) -> nat {
        let one = crate::number::rounding::one_in_units() as int;
        ((2 * crate::number::rounding::units(self.magnitude()) + one) / (2 * one)) as nat
    }

    pub open spec fn spec_round(self) -> Scalar {
        if self.finite() {
            Scalar::rounded(
                self.negative(),
                crate::number::rounding::fraction(
                    self.nearest_whole() * crate::number::rounding::one_in_units() as int,
                    1,
                ),
            )
        } else {
            self
        }
    }

    /// The nearest whole number, halves going away from zero.
    #[verifier::when_used_as_spec(spec_round)]
    pub fn round(self) -> (r: Scalar)
        ensures
            r == self.round(),
    {
        let mag = self.mag();
        if mag >= INFINITE {
            return self;
        }
        let (sig, e) = parts(mag);
        let ghost one = crate::number::rounding::one_in_units() as int;
        let ghost u = crate::number::rounding::units(mag as nat) as int;
        proof {
            crate::number::rounding::lemma_two_to_positive(UNIT_EXPONENT as nat);
        }
        if e >= UNIT_EXPONENT {
            proof {
                // A whole number already.
                crate::number::rounding::lemma_two_to_adds(
                    (e - UNIT_EXPONENT) as nat,
                    UNIT_EXPONENT as nat,
                );
                let q = crate::number::rounding::two_to((e - UNIT_EXPONENT) as nat) as int;
                let n = sig as int * q;
                assert(u == n * one) by (nonlinear_arith)
                    requires
                        u == sig as int * (q * one),
                        n == sig as int * q,
                ;
                lemma_halves(u, one, n, 0);
                crate::number::arithmetic::lemma_own_magnitude(mag as nat);
            }
            return Scalar::signed(self.is_negative(), mag);
        }
        let s: u32 = UNIT_EXPONENT - e;
        let ghost g = crate::number::rounding::two_to(e as nat) as int;
        proof {
            crate::number::rounding::lemma_two_to_adds(s as nat, e as nat);
            crate::number::significand::lemma_known_powers();
        }
        if s > 60 {
            proof {
                // Less than a half.
                crate::number::significand::lemma_two_to_ascends(60, s as nat);
                assert(crate::number::rounding::two_to(60) == 128 * crate::number::rounding::two_to(53)) by {
                    crate::number::rounding::lemma_two_to_adds(53, 7);
                    reveal_with_fuel(crate::number::rounding::two_to, 8);
                }
                assert(2 * u < one) by (nonlinear_arith)
                    requires
                        u == sig as int * g,
                        sig < 2 * HIDDEN,
                        one == crate::number::rounding::two_to(s as nat) as int * g,
                        crate::number::rounding::two_to(s as nat) >= 128 * (2 * HIDDEN),
                        g >= 1,
                        HIDDEN >= 1,
                ;
                assert(u >= 0);
                lemma_halves(u, one, 0, u);
                assert(0 * one == 0);
                crate::number::arithmetic::lemma_nothing(1);
            }
            return Scalar::signed(self.is_negative(), 0);
        }
        let wide: u64 = {
            let w = power_of_two(s);
            proof {
                crate::number::significand::lemma_two_to_ascends(s as nat, 60);
                assert(crate::number::rounding::two_to(60) == 128 * crate::number::rounding::two_to(53)) by {
                    crate::number::rounding::lemma_two_to_adds(53, 7);
                    reveal_with_fuel(crate::number::rounding::two_to, 8);
                }
            }
            w as u64
        };
        let kept: u64 = sig / wide;
        let rest: u64 = sig % wide;
        let n: u64 = if rest >= wide - rest {
            kept + 1
        } else {
            kept
        };
        proof {
            vstd::arithmetic::div_mod::lemma_fundamental_div_mod(sig as int, wide as int);
            vstd::arithmetic::div_mod::lemma_mod_bound(sig as int, wide as int);
            let r = rest as int * g;
            assert(u == kept as int * one + r) by (nonlinear_arith)
                requires
                    u == sig as int * g,
                    sig as int == wide as int * kept as int + rest as int,
                    one == wide as int * g,
                    r == rest as int * g,
            ;
            assert(0 <= r < one) by (nonlinear_arith)
                requires
                    0 <= rest < wide,
                    g >= 1,
                    one == wide as int * g,
                    r == rest as int * g,
            ;
            assert(2 * r >= one <==> 2 * rest >= wide) by (nonlinear_arith)
                requires
                    g >= 1,
                    one == wide as int * g,
                    r == rest as int * g,
            ;
            lemma_halves(u, one, kept as int, r);
        }
        Scalar::signed(self.is_negative(), whole_magnitude(n))
    }
}

/// Rounding `kept * one + rest` to a multiple of `one`, halves up.
proof fn lemma_halves(u: int, one: int, kept: int, rest: int)
    requires
        one >= 1,
        kept >= 0,
        0 <= rest < one,
        u == kept * one + rest,
    ensures
        (2 * u + one) / (2 * one) == (if 2 * rest >= one {
            kept + 1
        } else {
            kept
        }),
{
    let n = if 2 * rest >= one {
        kept + 1
    } else {
        kept
    };
    let r = 2 * u + one - n * (2 * one);
    assert(0 <= r < 2 * one) by (nonlinear_arith)
        requires
            u == kept * one + rest,
            r == 2 * u + one - n * (2 * one),
            0 <= rest < one,
            n == (if 2 * rest >= one {
                kept + 1
            } else {
                kept
            }),
    ;
    vstd::arithmetic::div_mod::lemma_fundamental_div_mod_converse(
        2 * u + one,
        2 * one,
        n,
        r,
    );
}

} // verus!
