//! Rounding to the nearest representable magnitude.
//!
//! A binary64 magnitude is the 63 low bits of a bit pattern, read as a number from
//! zero up to the pattern of infinity. What a magnitude stands for is counted here in
//! units of the smallest positive value, so that it is an integer: patterns in
//! ascending order stand for integers in ascending order, and rounding is a matter of
//! comparing with the midpoints between neighbours.

use vstd::prelude::*;

verus! {

/// The weight of the hidden bit: how many patterns share one exponent.
pub const HIDDEN: u64 = 0x10_0000_0000_0000;

/// The magnitude of infinity. Everything below it is finite, everything above is a NaN.
pub const INFINITE: u64 = 0x7ff0_0000_0000_0000;

/// How many units make one, as an exponent of two.
pub const UNIT_EXPONENT: u32 = 1074;

/// Two to the power `e`.
pub open spec fn two_to(e: nat) -> nat
    decreases e,
{
    if e == 0 {
        1
    } else {
        2 * two_to((e - 1) as nat)
    }
}

/// How many units one is.
pub open spec fn one_in_units() -> nat {
    two_to(UNIT_EXPONENT as nat)
}

/// What magnitude `mag` stands for, in units of the smallest positive value.
///
/// Infinity stands for the power of two that would come next.
pub open spec fn units(mag: nat) -> nat {
    if mag < HIDDEN {
        mag
    } else {
        (HIDDEN as nat + mag % (HIDDEN as nat)) * two_to((mag / (HIDDEN as nat) - 1) as nat)
    }
}

/// The distance from `mag` to the next magnitude up.
pub open spec fn gap(mag: nat) -> nat {
    if mag < HIDDEN {
        1
    } else {
        two_to((mag / (HIDDEN as nat) - 1) as nat)
    }
}

/// Twice the midpoint between `mag` and the next magnitude up.
pub open spec fn upper_edge(mag: nat) -> int {
    (units(mag) + units(mag + 1)) as int
}

/// Whether `mag` is what a number rounds to, ties going to the even magnitude.
///
/// The number is given by how it compares with midpoints: `cut(h)` is positive when
/// twice the number is above `h`, zero when it is `h`, negative when it is below.
pub open spec fn rounds_to(cut: spec_fn(int) -> int, mag: nat) -> bool {
    &&& mag <= INFINITE
    &&& mag > 0 ==> {
        let c = cut(upper_edge((mag - 1) as nat));
        c > 0 || (c == 0 && mag % 2 == 0)
    }
    &&& mag < INFINITE ==> {
        let c = cut(upper_edge(mag));
        c < 0 || (c == 0 && mag % 2 == 0)
    }
}

/// The magnitude that the number given by `cut` rounds to.
pub open spec fn nearest(cut: spec_fn(int) -> int) -> nat {
    choose|mag: nat| rounds_to(cut, mag)
}

/// How `num / den` units compares with a midpoint.
pub open spec fn fraction(num: int, den: int) -> spec_fn(int) -> int {
    |h: int| 2 * num - den * h
}

/// How the square root of `n` compares with a midpoint.
pub open spec fn root(n: int) -> spec_fn(int) -> int {
    |h: int| if h < 0 { 1 } else { 4 * n - h * h }
}

/// Whether `cut` compares one number with all midpoints: strictly falling.
pub open spec fn falling(cut: spec_fn(int) -> int) -> bool {
    forall|a: int, b: int| 0 <= a < b ==> #[trigger] cut(a) > #[trigger] cut(b)
}

pub proof fn lemma_two_to_adds(a: nat, b: nat)
    ensures
        two_to(a + b) == two_to(a) * two_to(b),
        two_to(a) >= 1,
        two_to(b) >= 1,
    decreases a,
{
    if a == 0 {
        lemma_two_to_positive(b);
        assert(1 * two_to(b) == two_to(b));
    } else {
        let p = two_to((a - 1) as nat);
        let q = two_to(b);
        lemma_two_to_adds((a - 1) as nat, b);
        assert((a - 1) as nat + b == (a + b - 1) as nat);
        assert(two_to(a + b) == 2 * two_to((a + b - 1) as nat));
        assert((2 * p) * q == 2 * (p * q)) by (nonlinear_arith);
    }
}

pub proof fn lemma_two_to_positive(e: nat)
    ensures
        two_to(e) >= 1,
    decreases e,
{
    if e > 0 {
        lemma_two_to_positive((e - 1) as nat);
    }
}

pub proof fn lemma_units_step(mag: nat)
    ensures
        units(mag + 1) == units(mag) + gap(mag),
        gap(mag) >= 1,
{
    let h = HIDDEN as nat;
    if mag < HIDDEN {
        if mag + 1 == HIDDEN {
            assert(h % h == 0 && h / h == 1);
            assert(two_to((h / h - 1) as nat) == 1);
            assert((h + h % h) * 1 == h);
        }
    } else {
        let q = mag / h;
        let r = mag % h;
        let p = two_to((q - 1) as nat);
        lemma_two_to_positive((q - 1) as nat);
        if r + 1 < h {
            assert((mag + 1) / h == q && (mag + 1) % h == r + 1);
            assert((h + (r + 1)) * p == (h + r) * p + p) by (nonlinear_arith);
        } else {
            assert((mag + 1) / h == q + 1 && (mag + 1) % h == 0);
            assert(two_to(q) == 2 * p);
            assert((h + 0) * (2 * p) == (h + (h - 1)) * p + p) by (nonlinear_arith);
        }
    }
}

pub proof fn lemma_units_ascend(a: nat, b: nat)
    requires
        a < b,
    ensures
        units(a) < units(b),
    decreases b,
{
    lemma_units_step((b - 1) as nat);
    if a < b - 1 {
        lemma_units_ascend(a, (b - 1) as nat);
    }
}

/// The patterns of exponent `e`: significand `m` stands for `m * two_to(e)`.
pub proof fn lemma_units_of_parts(e: nat, m: nat)
    requires
        m <= 2 * HIDDEN,
        e == 0 || m >= HIDDEN,
    ensures
        units(e * (HIDDEN as nat) + m) == m * two_to(e),
        m < 2 * HIDDEN ==> gap(e * (HIDDEN as nat) + m) == two_to(e),
        m == 2 * HIDDEN ==> gap(e * (HIDDEN as nat) + m) == 2 * two_to(e),
{
    let h = HIDDEN as nat;
    let mag = e * h + m;
    let p = two_to(e);
    lemma_two_to_positive(e);
    if m < h {
        assert(e == 0);
        assert(mag == m);
        assert(m * 1 == m);
    } else if m < 2 * h {
        assert(mag / h == e + 1 && mag % h == m - h) by {
            assert(mag == (e + 1) * h + (m - h)) by (nonlinear_arith)
                requires
                    mag == e * h + m,
            ;
        }
        assert(h + mag % h == m);
        assert((mag / h - 1) as nat == e);
    } else {
        assert(mag / h == e + 2 && mag % h == 0) by {
            assert(mag == (e + 2) * h) by (nonlinear_arith)
                requires
                    mag == e * h + m,
                    m == 2 * h,
            ;
        }
        assert((mag / h - 1) as nat == e + 1);
        assert(two_to(e + 1) == 2 * p);
        assert((h + 0) * (2 * p) == (2 * h) * p) by (nonlinear_arith);
    }
}

proof fn lemma_edges_ascend(a: nat, b: nat)
    requires
        a <= b,
    ensures
        upper_edge(a) <= upper_edge(b),
        a < b ==> upper_edge(a) < upper_edge(b),
        0 <= upper_edge(a),
{
    if a < b {
        lemma_units_ascend(a, b);
        lemma_units_ascend(a + 1, b + 1);
    }
}

proof fn lemma_search(cut: spec_fn(int) -> int, mag: nat)
    requires
        mag <= INFINITE,
        mag > 0 ==> {
            let c = cut(upper_edge((mag - 1) as nat));
            c > 0 || (c == 0 && mag % 2 == 0)
        },
    ensures
        exists|m: nat| rounds_to(cut, m),
    decreases INFINITE - mag,
{
    if !rounds_to(cut, mag) {
        lemma_search(cut, mag + 1);
    }
}

/// Every number rounds to something.
pub proof fn lemma_nearest(cut: spec_fn(int) -> int)
    ensures
        rounds_to(cut, nearest(cut)),
{
    lemma_search(cut, 0);
}

/// Rounding keeps order: of two numbers the larger does not round to less.
pub proof fn lemma_nearest_monotone(
    low: spec_fn(int) -> int,
    high: spec_fn(int) -> int,
    a: nat,
    b: nat,
)
    requires
        falling(high),
        forall|h: int| 0 <= h ==> (#[trigger] low(h) > 0 ==> high(h) > 0),
        forall|h: int| 0 <= h ==> (#[trigger] low(h) == 0 ==> high(h) >= 0),
        rounds_to(low, a),
        rounds_to(high, b),
    ensures
        a <= b,
{
    if a > b {
        let ea = upper_edge((a - 1) as nat);
        let eb = upper_edge(b);
        lemma_edges_ascend(b, (a - 1) as nat);
        assert(low(ea) >= 0);
        assert(high(eb) <= 0);
        assert(high(ea) >= 0);
        if b < a - 1 {
            assert(high(eb) > high(ea));
        }
        assert(b == a - 1);
        assert(low(ea) == 0);
    }
}

/// A number rounds to one magnitude only.
pub proof fn lemma_nearest_is(cut: spec_fn(int) -> int, mag: nat)
    requires
        falling(cut),
        rounds_to(cut, mag),
    ensures
        nearest(cut) == mag,
{
    lemma_nearest(cut);
    lemma_nearest_monotone(cut, cut, mag, nearest(cut));
    lemma_nearest_monotone(cut, cut, nearest(cut), mag);
}

/// A number that is representable rounds to itself.
pub proof fn lemma_nearest_exact(cut: spec_fn(int) -> int, mag: nat)
    requires
        falling(cut),
        mag <= INFINITE,
        cut(2 * units(mag) as int) == 0,
    ensures
        rounds_to(cut, mag),
        nearest(cut) == mag,
{
    lemma_units_step(mag);
    let twice = 2 * units(mag) as int;
    assert(cut(twice) == 0);
    assert(cut(twice) > cut(upper_edge(mag)));
    if mag > 0 {
        lemma_units_step((mag - 1) as nat);
        assert(cut(upper_edge((mag - 1) as nat)) > cut(twice));
    }
    lemma_nearest_is(cut, mag);
}

pub proof fn lemma_fraction_falling(num: int, den: int)
    requires
        den > 0,
    ensures
        falling(fraction(num, den)),
{
    let cut = fraction(num, den);
    assert forall|a: int, b: int| 0 <= a < b implies #[trigger] cut(a) > #[trigger] cut(b) by {
        assert(den * a < den * b) by (nonlinear_arith)
            requires
                den > 0,
                a < b,
        ;
    }
}

pub proof fn lemma_root_falling(n: int)
    ensures
        falling(root(n)),
{
    let cut = root(n);
    assert forall|a: int, b: int| 0 <= a < b implies #[trigger] cut(a) > #[trigger] cut(b) by {
        assert(a * a < b * b) by (nonlinear_arith)
            requires
                0 <= a < b,
        ;
    }
}

} // verus!
