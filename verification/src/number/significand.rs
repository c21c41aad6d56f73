//! From a significand and an exponent to the nearest magnitude.

use vstd::prelude::*;

use crate::number::rounding::{HIDDEN, INFINITE};

verus! {

/// How much finer than units the numbers to be rounded are counted, as an exponent of
/// two. Leaves room below for every digit of a quotient.
pub const SCALE: u32 = 1200;

/// How many of the finer steps make a unit.
pub open spec fn fine() -> nat {
    crate::number::rounding::two_to(SCALE as nat)
}

/// Whether `sig * two_to(t)`, counted in the finer steps, tells what number `cut`
/// stands for.
///
/// Without `inexact` it is the number. With it, the number lies strictly between the
/// neighbours `sig - 1` and `sig + 1` at the same scale.
pub open spec fn encloses(cut: spec_fn(int) -> int, sig: nat, t: nat, inexact: bool) -> bool {
    let b = fine();
    let p = crate::number::rounding::two_to(t);
    if inexact {
        &&& forall|h: int| b * h <= 2 * (sig - 1) * p ==> #[trigger] cut(h) > 0
        &&& forall|h: int| b * h >= 2 * (sig + 1) * p ==> #[trigger] cut(h) < 0
    } else {
        &&& forall|h: int| b * h < 2 * sig * p ==> #[trigger] cut(h) > 0
        &&& forall|h: int| b * h == 2 * sig * p ==> #[trigger] cut(h) == 0
        &&& forall|h: int| b * h > 2 * sig * p ==> #[trigger] cut(h) < 0
    }
}

proof fn lemma_same_powers(e: nat)
    ensures
        crate::number::rounding::two_to(e) == vstd::arithmetic::power2::pow2(e),
    decreases e,
{
    reveal(vstd::arithmetic::power::pow);
    if e > 0 {
        lemma_same_powers((e - 1) as nat);
        vstd::arithmetic::power2::lemma_pow2_unfold(e);
    }
}

pub proof fn lemma_two_to_ascends(a: nat, b: nat)
    requires
        a <= b,
    ensures
        crate::number::rounding::two_to(a) <= crate::number::rounding::two_to(b),
    decreases b,
{
    crate::number::rounding::lemma_two_to_positive(a);
    if a < b {
        lemma_two_to_ascends(a, (b - 1) as nat);
        crate::number::rounding::lemma_two_to_positive((b - 1) as nat);
    }
}

/// The powers of two that the machine widths here rest on.
pub proof fn lemma_known_powers()
    ensures
        crate::number::rounding::two_to(0) == 1,
        crate::number::rounding::two_to(52) == HIDDEN,
        crate::number::rounding::two_to(53) == 2 * HIDDEN,
        crate::number::rounding::two_to(127) == 0x8000_0000_0000_0000_0000_0000_0000_0000int,
{
    reveal_with_fuel(crate::number::rounding::two_to, 54);
    crate::number::rounding::lemma_two_to_adds(53, 53);
    crate::number::rounding::lemma_two_to_adds(106, 21);
    assert(crate::number::rounding::two_to(53) == 0x20_0000_0000_0000);
    assert(crate::number::rounding::two_to(21) == 0x20_0000);
    assert(0x20_0000_0000_0000int * 0x20_0000_0000_0000int
        == 0x400_0000_0000_0000_0000_0000_0000int);
    assert(0x400_0000_0000_0000_0000_0000_0000int * 0x20_0000int
        == 0x8000_0000_0000_0000_0000_0000_0000_0000int);
}

/// Two to the power `e` as a machine word.
pub fn power_of_two(e: u32) -> (r: u128)
    requires
        e <= 127,
    ensures
        r == crate::number::rounding::two_to(e as nat),
{
    let shift: u128 = e as u128;
    proof {
        lemma_power_of_two(shift);
    }
    1u128 << shift
}

proof fn lemma_power_of_two(e: u128)
    requires
        e <= 127,
    ensures
        1u128 << e == crate::number::rounding::two_to(e as nat),
    decreases e,
{
    if e == 0 {
        assert(1u128 << 0u128 == 1u128) by (bit_vector);
    } else {
        let d: u128 = (e - 1) as u128;
        lemma_power_of_two(d);
        assert(1u128 << e == 2 * (1u128 << d)) by (bit_vector)
            requires
                0 < e <= 127,
                d == e - 1,
        ;
    }
}

/// `x` divided by two to the power `e`, rounded down.
fn halved(x: u128, e: u32) -> (r: u128)
    requires
        e <= 127,
    ensures
        r == x as nat / crate::number::rounding::two_to(e as nat),
{
    let shift: u128 = e as u128;
    proof {
        vstd::bits::lemma_u128_shr_is_div(x, shift);
        lemma_same_powers(e as nat);
    }
    x >> shift
}

/// How many binary digits `x` has.
pub fn digits(x: u128) -> (n: u32)
    requires
        0 < x < 0x8000_0000_0000_0000_0000_0000_0000_0000,
    ensures
        1 <= n <= 127,
        crate::number::rounding::two_to((n - 1) as nat) <= x < crate::number::rounding::two_to(n as nat),
{
    proof {
        lemma_known_powers();
    }
    let mut n: u32 = 1;
    let mut bound: u128 = 2;
    assert(crate::number::rounding::two_to(1) == 2 * crate::number::rounding::two_to(0));
    while bound <= x
        invariant
            0 < x < 0x8000_0000_0000_0000_0000_0000_0000_0000,
            1 <= n <= 127,
            bound == crate::number::rounding::two_to(n as nat),
            crate::number::rounding::two_to((n - 1) as nat) <= x,
            crate::number::rounding::two_to(127) == 0x8000_0000_0000_0000_0000_0000_0000_0000int,
        decreases 127 - n,
    {
        bound = bound * 2;
        n = n + 1;
    }
    n
}

/// The largest exponent that `round_parts` takes.
pub const TOP_EXPONENT: u32 = 5000;

proof fn lemma_scales(t: nat, s: nat, e: nat)
    requires
        e + SCALE == t + s,
    ensures
        fine() * crate::number::rounding::two_to(e) == crate::number::rounding::two_to(t)
            * crate::number::rounding::two_to(s),
        crate::number::rounding::two_to(t) >= 1,
        crate::number::rounding::two_to(s) >= 1,
        crate::number::rounding::two_to(e) >= 1,
        fine() >= 1,
{
    crate::number::rounding::lemma_two_to_adds(SCALE as nat, e);
    crate::number::rounding::lemma_two_to_adds(t, s);
}

/// The edges next to significand `m` at exponent `e`.
proof fn lemma_edges_of_parts(e: nat, m: nat)
    requires
        m <= 2 * HIDDEN,
        e == 0 || m >= HIDDEN,
    ensures
        ({
            let mag = e * (HIDDEN as nat) + m;
            let p = crate::number::rounding::two_to(e) as int;
            &&& crate::number::rounding::upper_edge(mag) >= (2 * m + 1) * p
            &&& m < 2 * HIDDEN ==> crate::number::rounding::upper_edge(mag) == (2 * m + 1) * p
            &&& mag > 0 ==> crate::number::rounding::upper_edge((mag - 1) as nat) < 2 * m * p
            &&& m > 0 && (m > HIDDEN || e == 0) ==> crate::number::rounding::upper_edge((mag - 1) as nat)
                == (2 * m - 1) * p
        }),
{
    let mag = e * (HIDDEN as nat) + m;
    let p = crate::number::rounding::two_to(e) as int;
    crate::number::rounding::lemma_two_to_positive(e);
    crate::number::rounding::lemma_units_of_parts(e, m);
    crate::number::rounding::lemma_units_step(mag);
    assert((2 * m + 1) * p == 2 * (m * p) + p) by (nonlinear_arith);
    if mag > 0 {
        crate::number::rounding::lemma_units_step((mag - 1) as nat);
        assert(2 * m * p == 2 * (m * p)) by (nonlinear_arith);
    }
    if m > 0 && (m > HIDDEN || e == 0) {
        crate::number::rounding::lemma_units_of_parts(e, (m - 1) as nat);
        assert((2 * m - 1) * p == 2 * (m * p) - p) by (nonlinear_arith);
        assert((m - 1) * p == m * p - p) by (nonlinear_arith);
    }
}

/// Rounding by the digits below the last one kept is rounding to the nearest.
proof fn lemma_round_digits(
    cut: spec_fn(int) -> int,
    sig: nat,
    t: nat,
    inexact: bool,
    s: nat,
    e: nat,
    m: nat,
    r: nat,
    up: bool,
)
    requires
        encloses(cut, sig, t, inexact),
        e + SCALE == t + s,
        s >= 1,
        inexact ==> sig % 2 == 1 && s >= 2,
        r < crate::number::rounding::two_to(s),
        sig == m * crate::number::rounding::two_to(s) + r,
        m < 2 * HIDDEN,
        e == 0 || m >= HIDDEN,
        up <==> (2 * r > crate::number::rounding::two_to(s) || (2 * r == crate::number::rounding::two_to(s) && m % 2
            == 1)),
        e * HIDDEN + m + (if up { 1int } else { 0int }) <= INFINITE,
    ensures
        crate::number::rounding::rounds_to(
            cut,
            (e * (HIDDEN as nat) + m + (if up { 1nat } else { 0nat })) as nat,
        ),
{
    let b = fine() as int;
    let p = crate::number::rounding::two_to(t) as int;
    let w = crate::number::rounding::two_to(s) as int;
    let g = crate::number::rounding::two_to(e) as int;
    let k = p * w;
    lemma_scales(t, s, e);
    assert(b * g == k);
    assert(w == 2 * crate::number::rounding::two_to((s - 1) as nat));
    let half = crate::number::rounding::two_to((s - 1) as nat) as int;
    if s >= 2 {
        assert(half == 2 * crate::number::rounding::two_to((s - 2) as nat));
    }
    // The remainder is odd exactly when the significand is.
    assert(sig % 2 == r % 2) by {
        assert(m * w == 2 * (m * half)) by (nonlinear_arith)
            requires
                w == 2 * half,
        ;
    }
    let n = if up { m + 1 } else { m };
    let mag = (e * (HIDDEN as nat) + n) as nat;
    lemma_edges_of_parts(e, n);
    let low: int = if inexact { sig - 1 } else { sig as int };
    let high: int = if inexact { sig as int + 1 } else { sig as int };
    // How the bounds on the number compare with the edges, in units of `p`.
    assert(2 * low * p == 2 * ((m * w) * p) + 2 * (low - m * w) * p) by (nonlinear_arith);
    assert(2 * high * p == 2 * ((m * w) * p) + 2 * (high - m * w) * p) by (nonlinear_arith);
    assert((m * w) * p == m * k) by (nonlinear_arith)
        requires
            k == p * w,
    ;
    let eu = crate::number::rounding::upper_edge(mag);
    assert(b * ((2 * n + 1) * g) == (2 * n + 1) * k) by (nonlinear_arith)
        requires
            b * g == k,
    ;
    assert(b * eu >= (2 * n + 1) * k) by (nonlinear_arith)
        requires
            b * ((2 * n + 1) * g) == (2 * n + 1) * k,
            eu >= (2 * n + 1) * g,
            b >= 1,
    ;
    assert((2 * n + 1) * k == 2 * (n * k) + k) by (nonlinear_arith);
    assert(k >= 1) by (nonlinear_arith)
        requires
            k == p * w,
            p >= 1,
            w >= 1,
    ;
    assert(half * p * 2 == k) by (nonlinear_arith)
        requires
            k == p * w,
            w == 2 * half,
    ;
    if up {
        assert(n * k == m * k + k) by (nonlinear_arith)
            requires
                n == m + 1,
        ;
        // Above the middle of the gap, and not past its end.
        assert(high - m * w <= w);
        assert((high - m * w) * p <= w * p) by (nonlinear_arith)
            requires
                high - m * w <= w,
                p >= 1,
        ;
        assert(w * p == k) by (nonlinear_arith)
            requires
                k == p * w,
        ;
        assert(2 * high * p <= 2 * (n * k)) by (nonlinear_arith)
            requires
                2 * high * p == 2 * (m * k) + 2 * (high - m * w) * p,
                (high - m * w) * p <= k,
                n * k == m * k + k,
        ;
        assert(b * eu > 2 * high * p);
        assert(cut(eu) < 0);
        let el = crate::number::rounding::upper_edge((mag - 1) as nat);
        assert(el == (2 * n - 1) * g);
        assert(b * ((2 * n - 1) * g) == (2 * n - 1) * k) by (nonlinear_arith)
            requires
                b * g == k,
        ;
        assert((2 * n - 1) * k == 2 * (m * k) + k) by (nonlinear_arith)
            requires
                n == m + 1,
        ;
        assert(low - m * w >= half);
        assert((low - m * w) * p >= half * p) by (nonlinear_arith)
            requires
                low - m * w >= half,
                p >= 1,
        ;
        assert(2 * low * p >= b * el) by (nonlinear_arith)
            requires
                2 * low * p == 2 * (m * k) + 2 * (low - m * w) * p,
                (low - m * w) * p >= half * p,
                half * p * 2 == k,
                b * el == 2 * (m * k) + k,
        ;
        if 2 * r == w {
            assert(!inexact);
            assert(low - m * w == half);
            assert(2 * low * p == b * el) by (nonlinear_arith)
                requires
                    2 * low * p == 2 * (m * k) + 2 * (low - m * w) * p,
                    low - m * w == half,
                    half * p * 2 == k,
                    b * el == 2 * (m * k) + k,
            ;
            assert(cut(el) == 0);
            assert(mag % 2 == 0) by {
                assert(e * (HIDDEN as nat) % 2 == 0) by (nonlinear_arith)
                    requires
                        HIDDEN == 0x10_0000_0000_0000,
                ;
            }
        } else if !inexact {
            assert(low - m * w >= half + 1);
            assert((low - m * w) * p >= half * p + p) by (nonlinear_arith)
                requires
                    low - m * w >= half + 1,
                    p >= 1,
            ;
            assert(2 * low * p > b * el) by (nonlinear_arith)
                requires
                    2 * low * p == 2 * (m * k) + 2 * (low - m * w) * p,
                    (low - m * w) * p >= half * p + p,
                    half * p * 2 == k,
                    p >= 1,
                    b * el == 2 * (m * k) + k,
            ;
            assert(cut(el) > 0);
        } else {
            assert(cut(el) > 0);
        }
    } else {
        assert(high - m * w <= half);
        assert((high - m * w) * p <= half * p) by (nonlinear_arith)
            requires
                high - m * w <= half,
                p >= 1,
        ;
        assert(2 * high * p <= 2 * (m * k) + k) by (nonlinear_arith)
            requires
                2 * high * p == 2 * (m * k) + 2 * (high - m * w) * p,
                (high - m * w) * p <= half * p,
                half * p * 2 == k,
        ;
        assert(eu == (2 * n + 1) * g);
        if 2 * r == w {
            assert(!inexact);
            assert(2 * high * p == b * eu) by (nonlinear_arith)
                requires
                    2 * high * p == 2 * (m * k) + 2 * (high - m * w) * p,
                    high - m * w == half,
                    half * p * 2 == k,
                    b * eu == 2 * (m * k) + k,
            ;
            assert(cut(eu) == 0);
            assert(mag % 2 == 0) by {
                assert(e * (HIDDEN as nat) % 2 == 0) by (nonlinear_arith)
                    requires
                        HIDDEN == 0x10_0000_0000_0000,
                ;
            }
        } else if !inexact {
            assert((high - m * w) * p <= half * p - p) by (nonlinear_arith)
                requires
                    high - m * w <= half - 1,
                    p >= 1,
            ;
            assert(2 * high * p < b * eu) by (nonlinear_arith)
                requires
                    2 * high * p == 2 * (m * k) + 2 * (high - m * w) * p,
                    (high - m * w) * p <= half * p - p,
                    half * p * 2 == k,
                    p >= 1,
                    b * eu == 2 * (m * k) + k,
            ;
            assert(cut(eu) < 0);
        } else {
            assert(cut(eu) < 0);
        }
        if mag > 0 {
            let el = crate::number::rounding::upper_edge((mag - 1) as nat);
            assert(el < 2 * m * g);
            assert(b * el < 2 * (m * k)) by (nonlinear_arith)
                requires
                    el < 2 * m * g,
                    b >= 1,
                    b * g == k,
            ;
            assert(low - m * w >= 0);
            assert((low - m * w) * p >= 0) by (nonlinear_arith)
                requires
                    low - m * w >= 0,
                    p >= 1,
            ;
            assert(2 * low * p >= 2 * (m * k)) by (nonlinear_arith)
                requires
                    2 * low * p == 2 * (m * k) + 2 * (low - m * w) * p,
                    (low - m * w) * p >= 0,
            ;
            assert(cut(el) > 0);
        }
    }
}

/// A number of `sig` digits that lies at or past infinity rounds to it.
proof fn lemma_round_to_infinity(
    cut: spec_fn(int) -> int,
    sig: nat,
    t: nat,
    inexact: bool,
    m: nat,
    s: nat,
    e: nat,
)
    requires
        encloses(cut, sig, t, inexact),
        e + SCALE == t + s,
        e >= 2046,
        m >= HIDDEN,
        m * crate::number::rounding::two_to(s) <= (if inexact { sig - 1 } else { sig as int }),
    ensures
        crate::number::rounding::rounds_to(cut, INFINITE as nat),
{
    let b = fine() as int;
    let p = crate::number::rounding::two_to(t) as int;
    let w = crate::number::rounding::two_to(s) as int;
    let g = crate::number::rounding::two_to(e) as int;
    let low: int = if inexact { sig - 1 } else { sig as int };
    lemma_scales(t, s, e);
    lemma_two_to_ascends(2046, e);
    let top = crate::number::rounding::two_to(2046) as int;
    assert(INFINITE == 2046 * HIDDEN + HIDDEN);
    lemma_edges_of_parts(2046, HIDDEN as nat);
    let el = crate::number::rounding::upper_edge((INFINITE - 1) as nat);
    assert(el < 2 * HIDDEN * top);
    assert(2 * HIDDEN * top <= 2 * (m * g)) by (nonlinear_arith)
        requires
            top <= g,
            1 <= top,
            m >= HIDDEN,
            HIDDEN >= 0,
    ;
    assert(b * el < b * (2 * (m * g))) by (nonlinear_arith)
        requires
            el < 2 * (m * g),
            b >= 1,
    ;
    assert(b * (2 * (m * g)) == 2 * ((m * w) * p)) by (nonlinear_arith)
        requires
            b * g == p * w,
    ;
    assert(2 * ((m * w) * p) <= 2 * low * p) by (nonlinear_arith)
        requires
            m * w <= low,
            p >= 1,
    ;
    assert(cut(el) > 0);
}

/// A number below a quarter of the smallest positive value rounds to zero.
proof fn lemma_round_to_zero(cut: spec_fn(int) -> int, sig: nat, t: nat, inexact: bool)
    requires
        encloses(cut, sig, t, inexact),
        t + 127 <= SCALE,
        2 * (sig + 1) < crate::number::rounding::two_to(127),
    ensures
        crate::number::rounding::rounds_to(cut, 0),
{
    let b = fine() as int;
    let p = crate::number::rounding::two_to(t) as int;
    crate::number::rounding::lemma_two_to_adds(t, 127);
    lemma_two_to_ascends(t + 127, SCALE as nat);
    let eu = crate::number::rounding::upper_edge(0);
    assert(eu == 1);
    assert(2 * (sig + 1) * p < b * eu) by (nonlinear_arith)
        requires
            2 * (sig + 1) < crate::number::rounding::two_to(127),
            p >= 1,
            p * crate::number::rounding::two_to(127) <= b,
            eu == 1,
    ;
    assert(2 * sig * p <= 2 * (sig + 1) * p) by (nonlinear_arith)
        requires
            p >= 1,
    ;
    assert(cut(eu) < 0);
}

/// The magnitude nearest to `sig * two_to(t)` in the `one_in_units()`-th part of a unit.
pub fn round_parts(sig: u128, t: u32, inexact: bool, Ghost(cut): Ghost<
    spec_fn(int) -> int,
>) -> (mag: u64)
    requires
        0 < sig < 0x1000_0000_0000_0000_0000_0000_0000_0000,
        t <= TOP_EXPONENT,
        inexact ==> sig % 2 == 1 && sig >= 0x200_0000_0000_0000,
        encloses(cut, sig as nat, t as nat, inexact),
    ensures
        crate::number::rounding::rounds_to(cut, mag as nat),
{
    proof {
        lemma_known_powers();
    }
    let n = digits(sig);
    // The last digit kept is the fifty-third, or that of the smallest positive value.
    let excess: u32 = if n > 53 { n - 53 } else { 0 };
    let below: u32 = if t < SCALE { SCALE - t } else { 0 };
    let s: u32 = if excess > below { excess } else { below };
    proof {
        if inexact && n < 58 {
            assert(crate::number::rounding::two_to(57) == 0x200_0000_0000_0000) by {
                crate::number::rounding::lemma_two_to_adds(53, 4);
                reveal_with_fuel(crate::number::rounding::two_to, 5);
            }
            lemma_two_to_ascends(n as nat, 57);
        }
    }
    if s >= 127 {
        proof {
            if sig as int * 2 + 2 >= crate::number::rounding::two_to(127) {
                assert(false);
            }
            lemma_round_to_zero(cut, sig as nat, t as nat, inexact);
        }
        return 0;
    }
    if s > 0 {
        let wide = power_of_two(s);
        let kept = halved(sig, s);
        proof {
            crate::number::rounding::lemma_two_to_positive(s as nat);
            vstd::arithmetic::div_mod::lemma_fundamental_div_mod(sig as int, wide as int);
            vstd::arithmetic::div_mod::lemma_mod_bound(sig as int, wide as int);
            assert(kept as int * wide as int == wide as int * (sig as int / wide as int))
                by (nonlinear_arith)
                requires
                    kept as int == sig as int / wide as int,
            ;
            // At most fifty-three digits are kept.
            lemma_two_to_ascends(n as nat, (53 + s) as nat);
            crate::number::rounding::lemma_two_to_adds(53, s as nat);
            assert(kept < 2 * HIDDEN) by (nonlinear_arith)
                requires
                    kept as int * wide as int <= sig as int,
                    sig < 2 * HIDDEN * wide,
                    wide >= 1,
            ;
        }
        let rest: u128 = sig - kept * wide;
        let m: u64 = kept as u64;
        let e: u32 = t + s - SCALE;
        proof {
            if e > 0 {
                assert(s == excess);
                crate::number::rounding::lemma_two_to_adds(52, s as nat);
                assert(kept >= HIDDEN) by (nonlinear_arith)
                    requires
                        sig >= HIDDEN * wide,
                        sig as int == kept as int * wide as int + rest as int,
                        rest < wide,
                ;
            }
        }
        if e >= 2046 {
            proof {
                if inexact && rest == 0 {
                    assert(sig % 2 == 0) by {
                        assert(wide == 2 * crate::number::rounding::two_to((s - 1) as nat));
                        assert(kept as int * wide as int == 2 * (kept as int
                            * crate::number::rounding::two_to((s - 1) as nat) as int)) by (nonlinear_arith)
                            requires
                                wide == 2 * crate::number::rounding::two_to((s - 1) as nat),
                        ;
                    }
                }
                lemma_round_to_infinity(
                    cut,
                    sig as nat,
                    t as nat,
                    inexact,
                    m as nat,
                    s as nat,
                    e as nat,
                );
            }
            return INFINITE;
        }
        let up: bool = rest > wide - rest || (rest == wide - rest && m % 2 == 1);
        proof {
            lemma_round_digits(
                cut,
                sig as nat,
                t as nat,
                inexact,
                s as nat,
                e as nat,
                m as nat,
                rest as nat,
                up,
            );
        }
        let base: u64 = (e as u64) * HIDDEN + m;
        if up {
            base + 1
        } else {
            base
        }
    } else {
        // Nothing is dropped. Move the digits up until fifty-three are in use, or until
        // the exponent is used up.
        let room: u32 = 53 - n;
        let spare: u32 = t - SCALE;
        let k: u32 = if room < spare { room } else { spare };
        let wide = power_of_two(k);
        let e: u32 = spare - k;
        proof {
            crate::number::rounding::lemma_two_to_adds(n as nat, k as nat);
            lemma_two_to_ascends((n + k) as nat, 53);
            assert(sig * wide < 2 * HIDDEN) by (nonlinear_arith)
                requires
                    sig < crate::number::rounding::two_to(n as nat),
                    wide == crate::number::rounding::two_to(k as nat),
                    crate::number::rounding::two_to(n as nat) * crate::number::rounding::two_to(k as nat) <= 2
                        * HIDDEN,
                    wide >= 1,
            ;
            if e > 0 {
                crate::number::rounding::lemma_two_to_adds((n - 1) as nat, k as nat);
                assert(sig * wide >= HIDDEN) by (nonlinear_arith)
                    requires
                        sig >= crate::number::rounding::two_to((n - 1) as nat),
                        wide == crate::number::rounding::two_to(k as nat),
                        crate::number::rounding::two_to((n - 1) as nat) * crate::number::rounding::two_to(k as nat)
                            == HIDDEN,
                ;
            }
        }
        let m: u64 = (sig * wide) as u64;
        proof {
            // The significand stands for the number as it is.
            let b = fine() as int;
            let p = crate::number::rounding::two_to(t as nat) as int;
            let g = crate::number::rounding::two_to(e as nat) as int;
            crate::number::rounding::lemma_two_to_adds(e as nat, k as nat);
            crate::number::rounding::lemma_two_to_adds(SCALE as nat, (e + k) as nat);
            assert(p == b * (g * wide));
            assert(b * (2 * (m * g)) == 2 * sig * p) by (nonlinear_arith)
                requires
                    m as int == sig as int * wide as int,
                    p == b * (g * wide),
            ;
        }
        if e >= 2046 {
            proof {
                lemma_past_infinity(cut, sig as nat, t as nat, m as nat, e as nat);
            }
            return INFINITE;
        }
        proof {
            crate::number::rounding::lemma_units_of_parts(e as nat, m as nat);
            let mag = (e as nat * (HIDDEN as nat) + m as nat) as nat;
            assert(mag <= INFINITE);
            lemma_encloses_exactly(cut, sig as nat, t as nat, mag);
        }
        (e as u64) * HIDDEN + m
    }
}

proof fn lemma_past_infinity(cut: spec_fn(int) -> int, sig: nat, t: nat, m: nat, e: nat)
    requires
        encloses(cut, sig, t, false),
        e >= 2046,
        m >= HIDDEN,
        fine() * (2 * (m * crate::number::rounding::two_to(e))) == 2 * sig
            * crate::number::rounding::two_to(t),
    ensures
        crate::number::rounding::rounds_to(cut, INFINITE as nat),
{
    let b = fine() as int;
    let g = crate::number::rounding::two_to(e) as int;
    crate::number::rounding::lemma_two_to_positive(SCALE as nat);
    lemma_two_to_ascends(2046, e);
    let top = crate::number::rounding::two_to(2046) as int;
    crate::number::rounding::lemma_two_to_positive(2046);
    assert(INFINITE == 2046 * HIDDEN + HIDDEN);
    lemma_edges_of_parts(2046, HIDDEN as nat);
    let el = crate::number::rounding::upper_edge((INFINITE - 1) as nat);
    assert(2 * HIDDEN * top <= 2 * (m * g)) by (nonlinear_arith)
        requires
            top <= g,
            1 <= top,
            m >= HIDDEN,
            HIDDEN >= 0,
    ;
    assert(b * el < b * (2 * (m * g))) by (nonlinear_arith)
        requires
            el < 2 * (m * g),
            b >= 1,
    ;
    assert(cut(el) > 0);
}

proof fn lemma_encloses_exactly(cut: spec_fn(int) -> int, sig: nat, t: nat, mag: nat)
    requires
        encloses(cut, sig, t, false),
        mag <= INFINITE,
        fine() * (2 * crate::number::rounding::units(mag)) == 2 * sig
            * crate::number::rounding::two_to(t),
    ensures
        crate::number::rounding::rounds_to(cut, mag),
{
    let b = fine() as int;
    crate::number::rounding::lemma_two_to_positive(SCALE as nat);
    let twice = 2 * crate::number::rounding::units(mag) as int;
    crate::number::rounding::lemma_units_step(mag);
    let eu = crate::number::rounding::upper_edge(mag);
    assert(b * eu > b * twice) by (nonlinear_arith)
        requires
            eu > twice,
            b >= 1,
    ;
    assert(cut(eu) < 0);
    if mag > 0 {
        crate::number::rounding::lemma_units_step((mag - 1) as nat);
        let el = crate::number::rounding::upper_edge((mag - 1) as nat);
        assert(b * el < b * twice) by (nonlinear_arith)
            requires
                el < twice,
                b >= 1,
        ;
        assert(cut(el) > 0);
    }
}

} // verus!
