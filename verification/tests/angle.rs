use sim::angle::Angle;
use sim::fx::Fx;

/// One-thousandth, the tolerance for interpolated values.
const TOL: Fx = Fx(66);

fn close(a: Fx, b: Fx) -> bool {
    (a - b).abs() <= TOL
}

#[test]
fn cardinal_points_are_exact() {
    assert_eq!(Angle::ZERO().sin(), Fx::ZERO());
    assert_eq!(Angle::ZERO().cos(), Fx::ONE());
    assert_eq!(Angle::QUARTER().sin(), Fx::ONE());
    assert_eq!(Angle::QUARTER().cos(), Fx::ZERO());
    assert_eq!(Angle::HALF().sin(), Fx::ZERO());
    assert_eq!(Angle::HALF().cos(), -Fx::ONE());
    assert_eq!(Angle::THREE_QUARTER().sin(), -Fx::ONE());
    assert_eq!(Angle::THREE_QUARTER().cos(), Fx::ZERO());
}

#[test]
fn degrees() {
    assert_eq!(Angle::from_degrees(0), Angle::ZERO());
    assert_eq!(Angle::from_degrees(90), Angle::QUARTER());
    assert_eq!(Angle::from_degrees(180), Angle::HALF());
    assert_eq!(Angle::from_degrees(360), Angle::ZERO());
    assert_eq!(Angle::from_degrees(-90), Angle::THREE_QUARTER());
    assert_eq!(Angle::from_degrees(450), Angle::QUARTER());
    assert_eq!(Angle::QUARTER().to_degrees(), 90);
    assert_eq!(Angle::from_degrees(359).to_degrees(), 358); // truncation, not rounding
}

#[test]
fn known_values() {
    assert!(close(Angle::from_degrees(30).sin(), Fx::HALF()));
    assert!(close(Angle::from_degrees(60).cos(), Fx::HALF()));
    assert!(close(Angle::from_degrees(45).sin(), Fx::from_raw(46341)));
    assert!(close(Angle::from_degrees(210).sin(), -Fx::HALF()));
    assert!(close(Angle::from_degrees(300).cos(), Fx::HALF()));
}

#[test]
fn odd_symmetry_is_exact() {
    for a in (0..=u16::MAX).step_by(37) {
        let a = Angle(a);
        assert_eq!((-a).sin(), -a.sin(), "{a:?}");
    }
}

#[test]
fn pythagorean_identity_holds_everywhere() {
    for a in (0..=u16::MAX).step_by(13) {
        let a = Angle(a);
        let s = a.sin();
        let c = a.cos();
        let one = s * s + c * c;
        assert!(close(one, Fx::ONE()), "{a:?}: {}", one.to_string());
    }
}

#[test]
fn monotonic_over_first_quarter() {
    let mut prev = Fx::ZERO();
    for a in 0..=(1u32 << 14) {
        let s = Angle(a as u16).sin();
        assert!(s >= prev, "sin not monotonic at {a}");
        prev = s;
    }
}

#[test]
fn wrapping_arithmetic() {
    assert_eq!(Angle(65000) + Angle(1000), Angle(464));
    assert_eq!(Angle(100) - Angle(200), Angle(65436));
    assert_eq!(-Angle::QUARTER(), Angle::THREE_QUARTER());
}

#[test]
fn facing8() {
    assert_eq!(Angle::ZERO().facing8(), 0);
    assert_eq!(Angle::from_degrees(22).facing8(), 0);
    assert_eq!(Angle::from_degrees(23).facing8(), 1);
    assert_eq!(Angle::from_degrees(45).facing8(), 1);
    assert_eq!(Angle::QUARTER().facing8(), 2);
    assert_eq!(Angle::HALF().facing8(), 4);
    assert_eq!(Angle::THREE_QUARTER().facing8(), 6);
    assert_eq!(Angle::from_degrees(340).facing8(), 0);
    assert_eq!(Angle::from_degrees(337).facing8(), 7);
}
