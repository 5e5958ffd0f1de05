use quilt_tiler::scalar::{Position, Real, Single};

fn r(v: f64) -> Real {
    Real::from_bits(v.to_bits())
}

const SAMPLES: [f64; 13] = [
    0.0,
    -0.0,
    1.0,
    -1.0,
    f64::MIN_POSITIVE,
    5e-324,
    -5e-324,
    1.5e300,
    -1.5e300,
    f64::INFINITY,
    f64::NEG_INFINITY,
    f64::NAN,
    180.0,
];

#[test]
fn comparisons_are_those_of_the_numbers() {
    for a in SAMPLES {
        assert_eq!(r(a).is_nan(), a.is_nan());
        for b in SAMPLES {
            assert_eq!(r(a).lt(r(b)), a < b, "{a} < {b}");
            assert_eq!(r(a).le(r(b)), a <= b, "{a} <= {b}");
            assert_eq!(r(a).same(r(b)), a == b, "{a} == {b}");
        }
    }
}

#[test]
fn minimum_and_maximum_are_those_of_the_numbers() {
    for a in SAMPLES {
        for b in SAMPLES {
            let lo = f64::from_bits(r(a).min(r(b)).bits);
            let hi = f64::from_bits(r(a).max(r(b)).bits);
            if a.is_nan() && b.is_nan() {
                assert!(lo.is_nan() && hi.is_nan());
            } else {
                assert_eq!(lo, a.min(b));
                assert_eq!(hi, a.max(b));
            }
        }
    }
}

#[test]
fn widening_is_exact() {
    let samples: [f32; 12] = [
        0.0,
        -0.0,
        1.0,
        2.5,
        -57.708_87,
        f32::MAX,
        f32::MIN_POSITIVE,
        1e-45,
        -1.1e-40,
        3.0e-39,
        f32::INFINITY,
        f32::NEG_INFINITY,
    ];
    for v in samples {
        let wide = Single { bits: v.to_bits() }.widen();
        assert_eq!(wide.bits, f64::from(v).to_bits(), "{v}");
    }
    let nan = Single {
        bits: f32::NAN.to_bits(),
    };
    assert!(nan.widen().is_nan());
    assert!(f64::from_bits(Single { bits: 0x7F80_0001 }.widen().bits).is_nan());
}

#[test]
fn places_are_the_same_by_number() {
    let a = Position {
        lon: r(0.0),
        lat: r(5.0),
    };
    let b = Position {
        lon: r(-0.0),
        lat: r(5.0),
    };
    let c = Position {
        lon: r(f64::NAN),
        lat: r(5.0),
    };
    assert!(a.same(b));
    assert!(!c.same(c));
    assert_eq!(f64::from_bits(Real::zero().bits), 0.0);
    assert_eq!(f64::from_bits(Real::infinity().bits), f64::INFINITY);
    assert_eq!(f64::from_bits(Real::neg_infinity().bits), f64::NEG_INFINITY);
}
