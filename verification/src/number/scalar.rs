//! Coordinates: binary64 numbers carried by their bit pattern.
//!
//! Every operation is the IEEE one, rounded to the nearest with ties to even, and is
//! proved against that definition rather than left to the machine. A coordinate moves
//! to and from a native floating-point number by its bits, without loss.

use vstd::prelude::*;

use crate::number::rounding::INFINITE;

verus! {

/// The bit that says a number is negative.
pub const SIGN: u64 = 0x8000_0000_0000_0000;

/// The pattern that stands for "not a number" in results.
pub const NOT_A_NUMBER: u64 = 0x7ff8_0000_0000_0000;

/// A binary64 number.
#[derive(Clone, Copy, Debug)]
pub struct Scalar {
    pub bits: u64,
}

impl Scalar {
    /// Whether the sign bit is set.
    pub open spec fn negative(self) -> bool {
        self.bits >= SIGN
    }

    /// The pattern without its sign bit.
    pub open spec fn magnitude(self) -> nat {
        if self.bits >= SIGN {
            (self.bits - SIGN) as nat
        } else {
            self.bits as nat
        }
    }

    /// Whether this is not a number.
    pub open spec fn spec_is_nan(self) -> bool {
        self.magnitude() > INFINITE
    }

    /// Whether this is one of the two infinities.
    pub open spec fn infinite(self) -> bool {
        self.magnitude() == INFINITE
    }

    /// Whether this is an ordinary number.
    pub open spec fn finite(self) -> bool {
        self.magnitude() < INFINITE
    }

    /// The number that this stands for, in units of the smallest positive one.
    ///
    /// Says nothing of a NaN. Infinity counts as the power of two past the largest
    /// finite number.
    pub open spec fn value(self) -> int {
        if self.negative() {
            -(crate::number::rounding::units(self.magnitude()) as int)
        } else {
            crate::number::rounding::units(self.magnitude()) as int
        }
    }

    /// The number with the given sign and magnitude.
    pub open spec fn pack(negative: bool, magnitude: nat) -> Scalar {
        Scalar {
            bits: (if negative {
                SIGN + magnitude
            } else {
                magnitude as int
            }) as u64,
        }
    }

    /// The nearest number to the one that `cut` tells of, with the given sign.
    pub open spec fn rounded(negative: bool, cut: spec_fn(int) -> int) -> Scalar {
        Scalar::pack(negative, crate::number::rounding::nearest(cut))
    }

    pub open spec fn spec_nan() -> Scalar {
        Scalar { bits: NOT_A_NUMBER }
    }

    /// Not a number.
    #[verifier::when_used_as_spec(spec_nan)]
    pub fn nan() -> (r: Scalar)
        ensures
            r == Scalar::nan(),
    {
        Scalar { bits: NOT_A_NUMBER }
    }

    pub open spec fn spec_zero() -> Scalar {
        Scalar { bits: 0 }
    }

    /// Zero.
    #[verifier::when_used_as_spec(spec_zero)]
    pub fn zero() -> (r: Scalar)
        ensures
            r == Scalar::zero(),
    {
        Scalar { bits: 0 }
    }

    /// The magnitude as a machine word.
    pub(crate) fn mag(self) -> (r: u64)
        ensures
            r == self.magnitude(),
            r < SIGN,
    {
        if self.bits >= SIGN {
            self.bits - SIGN
        } else {
            self.bits
        }
    }

    pub(crate) fn is_negative(self) -> (r: bool)
        ensures
            r == self.negative(),
    {
        self.bits >= SIGN
    }

    pub(crate) fn signed(negative: bool, magnitude: u64) -> (r: Scalar)
        requires
            magnitude < SIGN,
        ensures
            r == Scalar::pack(negative, magnitude as nat),
            r.negative() == negative,
            r.magnitude() == magnitude,
    {
        if negative {
            Scalar { bits: SIGN + magnitude }
        } else {
            Scalar { bits: magnitude }
        }
    }

    /// Whether this is not a number.
    #[verifier::when_used_as_spec(spec_is_nan)]
    pub fn is_nan(self) -> (r: bool)
        ensures
            r == self.is_nan(),
    {
        self.mag() > INFINITE
    }

    pub open spec fn spec_negated(self) -> Scalar {
        Scalar::pack(!self.negative(), self.magnitude())
    }

    /// The same magnitude with the other sign.
    #[verifier::when_used_as_spec(spec_negated)]
    pub fn negated(self) -> (r: Scalar)
        ensures
            r == self.negated(),
    {
        Scalar::signed(!self.is_negative(), self.mag())
    }

    pub open spec fn spec_abs(self) -> Scalar {
        Scalar::pack(false, self.magnitude())
    }

    /// The same magnitude without a sign.
    #[verifier::when_used_as_spec(spec_abs)]
    pub fn abs(self) -> (r: Scalar)
        ensures
            r == self.abs(),
    {
        Scalar::signed(false, self.mag())
    }

    pub open spec fn spec_less(self, other: Scalar) -> bool {
        !self.is_nan() && !other.is_nan() && self.value() < other.value()
    }

    /// Whether this is a smaller number than `other`. A NaN compares with nothing.
    #[verifier::when_used_as_spec(spec_less)]
    pub fn less(self, other: Scalar) -> (r: bool)
        ensures
            r == self.less(other),
    {
        proof {
            lemma_key_order(self, other);
        }
        !self.is_nan() && !other.is_nan() && self.key() < other.key()
    }

    pub open spec fn spec_at_most(self, other: Scalar) -> bool {
        !self.is_nan() && !other.is_nan() && self.value() <= other.value()
    }

    /// Whether this is no larger a number than `other`. A NaN compares with nothing.
    #[verifier::when_used_as_spec(spec_at_most)]
    pub fn at_most(self, other: Scalar) -> (r: bool)
        ensures
            r == self.at_most(other),
    {
        proof {
            lemma_key_order(other, self);
        }
        !self.is_nan() && !other.is_nan() && self.key() <= other.key()
    }

    pub open spec fn spec_same(self, other: Scalar) -> bool {
        !self.is_nan() && !other.is_nan() && self.value() == other.value()
    }

    /// Whether this is the same number as `other`: both zeros are one number, a NaN is
    /// none.
    #[verifier::when_used_as_spec(spec_same)]
    pub fn same(self, other: Scalar) -> (r: bool)
        ensures
            r == self.same(other),
    {
        proof {
            lemma_key_order(self, other);
            lemma_key_order(other, self);
        }
        !self.is_nan() && !other.is_nan() && self.key() == other.key()
    }

    /// The place of this number in the order of all numbers.
    closed spec fn spec_key(self) -> i64 {
        if self.negative() {
            (-(self.magnitude() as int)) as i64
        } else {
            self.magnitude() as i64
        }
    }

    #[verifier::when_used_as_spec(spec_key)]
    fn key(self) -> (r: i64)
        ensures
            r == self.key(),
    {
        let mag = self.mag();
        if self.is_negative() {
            -(mag as i64)
        } else {
            mag as i64
        }
    }

    pub open spec fn spec_min(self, other: Scalar) -> Scalar {
        if self.is_nan() {
            other
        } else if other.less(self) {
            other
        } else {
            self
        }
    }

    /// The smaller of two numbers, or the one that is a number.
    #[verifier::when_used_as_spec(spec_min)]
    pub fn min(self, other: Scalar) -> (r: Scalar)
        ensures
            r == self.min(other),
    {
        if self.is_nan() {
            other
        } else if other.less(self) {
            other
        } else {
            self
        }
    }

    pub open spec fn spec_max(self, other: Scalar) -> Scalar {
        if self.is_nan() {
            other
        } else if self.less(other) {
            other
        } else {
            self
        }
    }

    /// The larger of two numbers, or the one that is a number.
    #[verifier::when_used_as_spec(spec_max)]
    pub fn max(self, other: Scalar) -> (r: Scalar)
        ensures
            r == self.max(other),
    {
        if self.is_nan() {
            other
        } else if self.less(other) {
            other
        } else {
            self
        }
    }

    pub open spec fn spec_clamp(self, low: Scalar, high: Scalar) -> Scalar {
        if self.less(low) {
            low
        } else if high.less(self) {
            high
        } else {
            self
        }
    }

    /// This number, moved to the nearer end where it lies outside `low` to `high`. A NaN
    /// stays one.
    #[verifier::when_used_as_spec(spec_clamp)]
    pub fn clamp(self, low: Scalar, high: Scalar) -> (r: Scalar)
        requires
            low.at_most(high),
        ensures
            r == self.clamp(low, high),
    {
        if self.less(low) {
            low
        } else if high.less(self) {
            high
        } else {
            self
        }
    }
}

impl PartialEq for Scalar {
    fn eq(&self, other: &Scalar) -> (r: bool) {
        self.same(*other)
    }
}

impl vstd::std_specs::cmp::PartialEqSpecImpl for Scalar {
    open spec fn obeys_eq_spec() -> bool {
        true
    }

    open spec fn eq_spec(&self, other: &Scalar) -> bool {
        self.same(*other)
    }
}

proof fn lemma_key_order(a: Scalar, b: Scalar)
    ensures
        a.key() < b.key() <==> a.value() < b.value(),
{
    let ma = a.magnitude();
    let mb = b.magnitude();
    if ma < mb {
        crate::number::rounding::lemma_units_ascend(ma, mb);
    } else if mb < ma {
        crate::number::rounding::lemma_units_ascend(mb, ma);
    }
    if ma > 0 {
        crate::number::rounding::lemma_units_ascend(0, ma);
    }
    if mb > 0 {
        crate::number::rounding::lemma_units_ascend(0, mb);
    }
}

} // verus!
