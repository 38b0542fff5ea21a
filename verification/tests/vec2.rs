use sim::angle::Angle;
use sim::fx::Fx;
use sim::vec2::Vec2Fx;

fn v(x: i32, y: i32) -> Vec2Fx {
    Vec2Fx::from_int(x, y)
}

#[test]
fn arithmetic() {
    assert_eq!(v(1, 2) + v(3, 4), v(4, 6));
    assert_eq!(v(1, 2) - v(3, 4), v(-2, -2));
    assert_eq!(-v(1, 2), v(-1, -2));
    assert_eq!(v(1, 2) * Fx::TWO(), v(2, 4));
    assert_eq!(v(1, 2) * 3, v(3, 6));
    assert_eq!(v(4, 6) / Fx::TWO(), v(2, 3));
}

#[test]
fn dot_and_lengths() {
    assert_eq!(v(3, 4).dot(v(2, 1)), Fx::from_int(10));
    assert_eq!(v(3, 4).length(), Fx::from_int(5));
    assert_eq!(v(-3, 4).length(), Fx::from_int(5));
    assert_eq!(v(0, 0).length(), Fx::ZERO());
    assert_eq!(v(1, 2).distance(v(4, 6)), Fx::from_int(5));
    assert_eq!(v(1, 2).manhattan(v(4, 6)), Fx::from_int(7));
    // Far corners of a giant map must not overflow.
    let d = v(0, 0).distance(v(240, 240));
    assert_eq!(d.floor(), 339);
    assert!(v(0, 0).distance_sq_raw(v(240, 240)) > v(0, 0).distance_sq_raw(v(200, 200)));
}

/// Both accumulators overflowed at the extremes of the type: a panic in
/// debug, and in release a wrong answer with an inverted sign. Positions
/// never reach these values today, but `distance_sq_raw` is a comparison
/// primitive that `nav`, the separation pass and the drop-off search all
/// lean on, and the next caller should not have to know.
#[test]
fn extreme_components_do_not_overflow() {
    let corners = [
        Vec2Fx::new(Fx::MIN(), Fx::MIN()),
        Vec2Fx::new(Fx::MAX(), Fx::MAX()),
        Vec2Fx::new(Fx::MIN(), Fx::MAX()),
        Vec2Fx::new(Fx::MAX(), Fx::MIN()),
    ];
    for a in corners {
        // Exact, checked against the value computed in a wider type.
        let expect = (a.x.raw() as i128).pow(2) + (a.y.raw() as i128).pow(2);
        assert_eq!(a.length_sq_raw() as i128, expect, "{a:?}");
        assert_eq!(a.length(), Fx::MAX(), "length must saturate, not wrap");
        for b in corners {
            let expect = (a.x.raw() as i128) * (b.x.raw() as i128)
                + (a.y.raw() as i128) * (b.y.raw() as i128);
            let want = ((expect + (1 << 15)) >> 16).clamp(i32::MIN as i128, i32::MAX as i128);
            assert_eq!(a.dot(b).raw() as i128, want, "dot({a:?}, {b:?})");
            // These must merely not blow up.
            let _ = a.distance_sq_raw(b);
            let _ = a.distance(b);
            let _ = a.move_toward(b, Fx::ONE());
        }
    }
    // The exact value, not a wrapped one: 2^62 + 2^62.
    assert_eq!(Vec2Fx::new(Fx::MIN(), Fx::MIN()).length_sq_raw(), 1u64 << 63);
    // Saturates positive; in release it used to come back as -32768.
    assert_eq!(
        Vec2Fx::new(Fx::MIN(), Fx::MIN()).dot(Vec2Fx::new(Fx::MIN(), Fx::MIN())),
        Fx::MAX()
    );
}

#[test]
fn normalize() {
    let n = v(3, 4).normalized_or_zero();
    assert!((n.length() - Fx::ONE()).abs() <= Fx::from_raw(2), "{n:?}");
    assert_eq!(n.x, Fx::from_ratio(3, 5));
    assert_eq!(Vec2Fx::ZERO().normalized_or_zero(), Vec2Fx::ZERO());
}

#[test]
fn move_toward_lands_exactly() {
    let start = v(0, 0);
    let target = v(3, 4);
    let step = Fx::ONE();
    let mut p = start;
    let mut steps = 0;
    while p != target {
        p = p.move_toward(target, step);
        steps += 1;
        assert!(steps <= 6, "did not converge: {p:?}");
    }
    assert_eq!(steps, 5);
    // Overshoot is impossible; a big step lands on the target.
    assert_eq!(start.move_toward(target, Fx::from_int(100)), target);
    // Already there.
    assert_eq!(target.move_toward(target, step), target);
    // Each intermediate step has the right length.
    let q = start.move_toward(target, step);
    assert!((q.length() - Fx::ONE()).abs() <= Fx::from_raw(2));
}

#[test]
fn from_angle_round_trips_through_facing() {
    for deg in (0..360).step_by(15) {
        let a = Angle::from_degrees(deg);
        let p = Vec2Fx::from_angle(a, Fx::from_int(10));
        let back = p.angle();
        let diff = (back - a).0.min((a - back).0);
        assert!(
            diff <= 60,
            "{deg}°: got {}° (diff {diff} BAM)",
            back.to_degrees()
        );
        assert_eq!(back.facing8(), a.facing8(), "{deg}°");
    }
}

#[test]
fn angle_axes_exact() {
    assert_eq!(v(1, 0).angle(), Angle::ZERO());
    assert_eq!(v(0, 1).angle(), Angle::QUARTER());
    assert_eq!(v(-1, 0).angle(), Angle::HALF());
    assert_eq!(v(0, -1).angle(), Angle::THREE_QUARTER());
    assert_eq!(v(5, 5).angle(), Angle::from_degrees(45));
    assert_eq!(Vec2Fx::ZERO().angle(), Angle::ZERO());
}
