use liteparse::scalar::Scalar;

fn s(v: f32) -> Scalar {
    Scalar::from_bits(v.to_bits())
}

fn f(v: Scalar) -> f32 {
    f32::from_bits(v.bits)
}

fn agree(label: &str, a: f32, b: f32, got: Scalar, want: f32) {
    if want.is_nan() {
        assert!(got.is_nan(), "{} {:?} {:?}", label, a, b);
    } else {
        assert_eq!(got.bits, want.to_bits(), "{} {:?} {:?}", label, a, b);
    }
}

fn check_pair(a: f32, b: f32) {
    let (x, y) = (s(a), s(b));
    agree("+", a, b, x.plus(y), a + b);
    agree("-", a, b, x.minus(y), a - b);
    agree("*", a, b, x.times(y), a * b);
    agree("/", a, b, x.over(y), a / b);
    assert_eq!(x.lt(y), a < b);
    assert_eq!(x.le(y), a <= b);
    assert_eq!(f(x.neg()).to_bits(), (-a).to_bits());
    assert_eq!(f(x.abs()).to_bits(), a.abs().to_bits());
    assert_eq!(x.is_finite(), a.is_finite());
    assert_eq!(x.is_nan(), a.is_nan());
    if !(a.is_nan() && b.is_nan()) {
        assert!(f(x.min(y)) == a.min(b), "min {:?} {:?}", a, b);
        assert!(f(x.max(y)) == a.max(b), "max {:?} {:?}", a, b);
    }
}

fn edge_values() -> Vec<f32> {
    let mut v = vec![
        0.0,
        1.0,
        0.1,
        0.5,
        0.55,
        1.2,
        1.4,
        2.0,
        2.2,
        3.0,
        5.0,
        15.0,
        20.0,
        595.28,
        841.89,
        16777215.0,
        16777216.0,
        16777218.0,
        f32::MAX,
        f32::MIN_POSITIVE,
        f32::INFINITY,
        f32::NAN,
        f32::EPSILON,
    ];
    for bits in [1u32, 2, 3, 0x7f_ffff, 0x80_0000, 0x80_0001, 0x7f7f_fffe, 0x7f00_0000, 0xff_ffff] {
        v.push(f32::from_bits(bits));
    }
    let negated: Vec<f32> = v.iter().map(|x| -x).collect();
    v.extend(negated);
    v
}

#[test]
fn operations_agree_with_the_machine_on_edge_values() {
    for a in edge_values() {
        for b in edge_values() {
            check_pair(a, b);
        }
    }
}

#[test]
fn operations_agree_with_the_machine_on_random_values() {
    let mut state: u64 = 0x9e37_79b9_7f4a_7c15;
    let mut next = || {
        state ^= state << 13;
        state ^= state >> 7;
        state ^= state << 17;
        state
    };
    for i in 0..200_000u32 {
        let r = next();
        let (mut a, mut b) = (r as u32, (r >> 32) as u32);
        if i % 2 == 0 {
            // Exponents close to each other, where cancellation and carries happen.
            let shift = (next() % 60) as u32;
            a = (a & 0x807f_ffff) | (100 << 23);
            b = (b & 0x807f_ffff) | ((70 + shift) << 23);
        }
        check_pair(f32::from_bits(a), f32::from_bits(b));
    }
}

#[test]
fn counts_and_ratios_are_rounded() {
    for n in [0usize, 1, 2, 3, 7, 10, 1000, 16777215, 16777216, 16777217, 16777219, 33554435] {
        assert_eq!(f(Scalar::from_count(n)), n as f32);
    }
    assert_eq!(f(Scalar::from_count(usize::MAX)), usize::MAX as f32);
    assert_eq!(f(Scalar::ratio(1, 10)), 0.1);
    assert_eq!(f(Scalar::ratio(14, 10)), 1.4);
    assert_eq!(f(Scalar::ratio(22, 10)), 2.2);
    assert_eq!(f(Scalar::ratio(55, 100)), 0.55);
    assert_eq!(f(Scalar::ratio(12, 10)), 1.2);
    assert_eq!(f(Scalar::ratio(1, 2)), 0.5);
    assert_eq!(f(Scalar::ratio(15, 1)), 15.0);
    assert_eq!(f(Scalar::ratio(1, 3)), 1.0 / 3.0);
}

#[test]
fn constants_and_clamping() {
    assert_eq!(f(Scalar::largest()), f32::MAX);
    assert_eq!(f(Scalar::lowest()), f32::MIN);
    assert_eq!(f(Scalar::zero()), 0.0);
    assert_eq!(f(s(0.3).clamp(s(1.2), s(4.0))), 1.2);
    assert_eq!(f(s(9.0).clamp(s(1.2), s(4.0))), 4.0);
    assert_eq!(f(s(2.5).clamp(s(1.2), s(4.0))), 2.5);
    assert!(s(f32::NAN).clamp(s(1.2), s(4.0)).is_nan());
}

#[test]
fn order_is_the_order_of_values() {
    assert!(!s(-0.0).lt(s(0.0)));
    assert!(s(-0.0).le(s(0.0)));
    assert!(s(-2.0).lt(s(-1.0)));
    assert!(s(-1.0).lt(s(1.0)));
    assert!(s(1.0).lt(s(f32::INFINITY)));
    assert!(!s(f32::NAN).le(s(f32::NAN)));
}
