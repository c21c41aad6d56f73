//! Coordinates against the machine's own numbers.

use blazy::number::scalar::Scalar;

fn s(x: f64) -> Scalar {
    Scalar { bits: x.to_bits() }
}

fn f(x: Scalar) -> f64 {
    f64::from_bits(x.bits)
}

/// The same number, or both none.
fn agree(ours: Scalar, native: f64) -> bool {
    ours.bits == native.to_bits() || (f(ours).is_nan() && native.is_nan())
}

/// A small generator, so that every run sees the same numbers.
struct Source(u64);

impl Source {
    fn next(&mut self) -> u64 {
        self.0 ^= self.0 << 13;
        self.0 ^= self.0 >> 7;
        self.0 ^= self.0 << 17;
        self.0
    }

    /// Any bit pattern, or one of a modest exponent.
    fn number(&mut self) -> f64 {
        let bits = self.next();
        match self.next() % 4 {
            0 => f64::from_bits(bits),
            1 => ((bits % 2_000_001) as f64 - 1_000_000.0) / 8.0,
            2 => {
                let exponent = 1023 - 30 + (self.next() % 60);
                f64::from_bits((bits & 0x800f_ffff_ffff_ffff) | (exponent << 52))
            }
            _ => f64::from_bits(bits & 0x803f_ffff_ffff_ffff),
        }
    }
}

const EDGES: [f64; 24] = [
    0.0,
    -0.0,
    1.0,
    -1.0,
    0.5,
    -0.5,
    1.5,
    2.5,
    -2.5,
    0.1,
    0.2,
    3.0,
    1e300,
    -1e300,
    1e-300,
    5e-324,
    -5e-324,
    f64::MIN_POSITIVE,
    f64::MAX,
    f64::MIN,
    f64::INFINITY,
    f64::NEG_INFINITY,
    f64::NAN,
    4503599627370497.5,
];

fn check_pair(x: f64, y: f64) {
    let (a, b) = (s(x), s(y));
    assert!(agree(a.plus(b), x + y), "{x:e} + {y:e}");
    assert!(agree(a.minus(b), x - y), "{x:e} - {y:e}");
    assert!(agree(a.times(b), x * y), "{x:e} * {y:e}");
    assert!(agree(a.over(b), x / y), "{x:e} / {y:e}");
    assert_eq!(a.less(b), x < y, "{x:e} < {y:e}");
    assert_eq!(a.at_most(b), x <= y, "{x:e} <= {y:e}");
    assert_eq!(a.same(b), x == y, "{x:e} == {y:e}");
    assert_eq!(a == b, x == y, "{x:e} == {y:e}");
    assert!(f(a.min(b)) == x.min(y) || (x.is_nan() && y.is_nan()), "min {x:e} {y:e}");
    assert!(f(a.max(b)) == x.max(y) || (x.is_nan() && y.is_nan()), "max {x:e} {y:e}");
}

fn check_one(x: f64) {
    let a = s(x);
    assert!(agree(a.sqrt(), x.sqrt()), "sqrt {x:e}");
    assert!(agree(a.round(), x.round()), "round {x:e}");
    assert!(agree(a.abs(), x.abs()), "abs {x:e}");
    assert!(agree(a.negated(), -x), "neg {x:e}");
    assert_eq!(a.is_nan(), x.is_nan());
}

#[test]
fn arithmetic_agrees_on_the_edges() {
    for x in EDGES {
        check_one(x);
        for y in EDGES {
            check_pair(x, y);
        }
    }
}

#[test]
fn arithmetic_agrees_on_scattered_numbers() {
    let mut source = Source(0x9e37_79b9_7f4a_7c15);
    for _ in 0..60_000 {
        let (x, y) = (source.number(), source.number());
        check_one(x);
        check_pair(x, y);
    }
}

#[test]
fn whole_numbers_and_quotients_agree() {
    let mut source = Source(77);
    for _ in 0..20_000 {
        let shift = source.next() % 64;
        let n = source.next() >> shift;
        let shift = source.next() % 64;
        let d = source.next() >> shift;
        assert!(agree(Scalar::from_whole(n), n as f64), "{n}");
        assert!(agree(Scalar::ratio(n, d), n as f64 / d as f64), "{n} / {d}");
    }
    assert_eq!(f(Scalar::ratio(1, 5)), 0.2);
    assert_eq!(f(Scalar::ratio(1, 20)), 0.05);
    assert_eq!(f(Scalar::ratio(1, 50)), 0.02);
    assert_eq!(f(Scalar::ratio(1, 10)), 0.1);
    assert_eq!(f(Scalar::ratio(3, 2000)), 0.0015);
    assert_eq!(f(Scalar::ratio(1, 1_000_000_000)), 1e-9);
}

#[test]
fn clamping_agrees() {
    for x in EDGES {
        let ours = s(x).clamp(s(0.0), s(1.0));
        assert!(agree(ours, x.clamp(0.0, 1.0)), "{x:e}");
    }
}
