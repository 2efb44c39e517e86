use half::f16;
use rvllm_bidirectional::float::{Half, Single};

fn samples() -> Vec<f32> {
    let mut v = vec![
        0.0,
        -0.0,
        1.0,
        -1.0,
        f32::MIN_POSITIVE,
        -f32::MIN_POSITIVE,
        f32::from_bits(1),
        f32::from_bits(0x8000_0001),
        f32::MAX,
        f32::MIN,
        f32::INFINITY,
        f32::NEG_INFINITY,
        f32::NAN,
        -f32::NAN,
        f32::from_bits(0x7f80_0001),
    ];
    let mut x: u32 = 12345;
    for _ in 0..60 {
        x = x.wrapping_mul(1664525).wrapping_add(1013904223);
        v.push(f32::from_bits(x));
    }
    v
}

fn s(x: f32) -> Single {
    Single { bits: x.to_bits() }
}

#[test]
fn constants_are_those_of_the_machine() {
    assert_eq!(Half::zero().bits, f16::ZERO.to_bits());
    assert_eq!(Single::zero().bits, 0.0f32.to_bits());
    assert_eq!(Single::one().bits, 1.0f32.to_bits());
    assert_eq!(Single::two_pi().bits, (2.0 * std::f32::consts::PI).to_bits());
    assert_eq!(Single::neg_infinity().bits, f32::NEG_INFINITY.to_bits());
}

#[test]
fn order_is_that_of_the_machine() {
    for a in samples() {
        assert_eq!(s(a).is_nan(), a.is_nan());
        for b in samples() {
            assert_eq!(s(a).lt(s(b)), a < b);
            assert_eq!(s(a).le(s(b)), a <= b);
        }
    }
}

#[test]
fn greater_is_that_of_the_machine() {
    for a in samples() {
        for b in samples() {
            let max = f32::from_bits(s(a).max(s(b)).bits);
            if a.is_nan() && b.is_nan() {
                assert!(max.is_nan());
            } else {
                assert_eq!(max, a.max(b));
            }
        }
    }
}

#[test]
fn identities_hold_on_the_machine() {
    for a in samples() {
        if a.is_finite() {
            assert_eq!((a - a).to_bits(), 0);
        }
        if !a.is_nan() {
            assert_eq!((1.0 * a).to_bits(), a.to_bits());
            let sum = 0.0 + a;
            assert_eq!(sum.to_bits(), if a == 0.0 { 0 } else { a.to_bits() });
        }
    }
    assert_eq!(0.0f32.exp(), 1.0);
    for bits in 0..=u16::MAX {
        let x = f16::from_bits(bits);
        if !x.is_nan() {
            assert_eq!(f16::from_f32(x.to_f32()).to_bits(), bits);
        }
    }
}

#[test]
fn zero_angle_identities_hold_on_the_machine() {
    for zero in [0.0f32, -0.0] {
        assert_eq!(zero.cos(), 1.0);
        assert_eq!(zero.sin(), 0.0);
        for a in samples() {
            if a.is_finite() {
                assert_eq!(zero * a, 0.0);
                assert_eq!(a * zero, 0.0);
                assert_eq!(a - zero, a);
                assert_eq!(zero + a, a);
            }
            if !a.is_nan() {
                assert_eq!((a * 1.0).to_bits(), a.to_bits());
            }
        }
        assert_eq!(f16::from_f32(zero).to_f32(), 0.0);
    }
}

#[test]
fn doubling_is_exact_on_the_machine() {
    for n in [1usize, 3, 7, 100, 16_777_217, usize::MAX / 2] {
        assert_eq!((2 * n) as f32, 2.0 * n as f32);
    }
    let mid: Vec<f32> = samples()
        .into_iter()
        .filter(|x| x.is_finite() && x.abs() > 1e-10 && x.abs() < 1e10)
        .collect();
    assert!(mid.len() > 5);
    for a in &mid {
        assert_eq!((2.0 * a).to_bits(), a.to_bits() + 0x80_0000);
        for b in &mid {
            assert_eq!((2.0 * a) / (2.0 * b), a / b);
            assert_eq!((2.0 * a) / b, 2.0 * (a / b));
            assert_eq!(2.0 * a - 2.0 * b, 2.0 * (a - b));
        }
    }
}

#[test]
fn differences_of_one_sign_double_exactly() {
    for a in samples() {
        for b in samples() {
            let clear = |x: f32| x.is_finite() && x.abs() < f32::MAX / 4.0;
            if clear(a) && clear(b) && a.is_sign_negative() == b.is_sign_negative() {
                assert_eq!((2.0 * a - 2.0 * b).to_bits(), (2.0 * (a - b)).to_bits());
            }
        }
    }
}

#[test]
fn padding_is_exact_on_the_machine() {
    assert_eq!(1usize as f32, 1.0);
    assert_eq!((4usize as f32).to_bits(), 0x4080_0000);
    assert_eq!(1.0f32.sqrt(), 1.0);
    assert_eq!(4.0f32.sqrt().to_bits(), 0x4000_0000);
    assert_eq!((1.0f32 / 2.0).to_bits(), 0x3f00_0000);
    let halves: Vec<f32> = (0..=u16::MAX)
        .map(f16::from_bits)
        .filter(|x| x.is_finite() && x.to_f32().abs() <= 32752.0)
        .map(|x| x.to_f32())
        .collect();
    for x in &halves {
        assert!(*x == 0.0 || (103..=142).contains(&(x.to_bits() >> 23 & 0xff)));
        let doubled = f16::from_f32(2.0 * x);
        assert_eq!(doubled.to_f32().to_bits(), (2.0 * x).to_bits());
        assert_eq!((2.0 * x * 0.5).to_bits(), x.to_bits());
        for y in halves.iter().step_by(997) {
            assert_eq!((2.0 * x * y).to_bits(), (2.0 * (x * y)).to_bits());
        }
    }
}
