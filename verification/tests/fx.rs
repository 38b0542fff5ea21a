use sim::fx::{isqrt_u64, Fx};

fn fx(n: i32, d: i32) -> Fx {
    Fx::from_ratio(n, d)
}

#[test]
fn constants() {
    assert_eq!(Fx::ONE().raw(), 65536);
    assert_eq!(Fx::HALF() + Fx::HALF(), Fx::ONE());
    assert_eq!(Fx::ONE() - Fx::EPSILON(), Fx::from_raw(65535));
}

#[test]
fn from_int_saturates() {
    assert_eq!(Fx::from_int(5).raw(), 5 << 16);
    assert_eq!(Fx::from_int(-5).raw(), -5 << 16);
    assert_eq!(Fx::from_int(100_000), Fx::MAX());
    assert_eq!(Fx::from_int(-100_000), Fx::MIN());
}

#[test]
fn ratio() {
    assert_eq!(fx(1, 2), Fx::HALF());
    assert_eq!(fx(-1, 2), -Fx::HALF());
    assert_eq!(fx(45, 100).raw(), 29491); // floor(0.45 * 65536)
}

#[test]
fn add_sub_saturate() {
    assert_eq!(Fx::from_int(3) + Fx::from_int(4), Fx::from_int(7));
    assert_eq!(Fx::MAX() + Fx::ONE(), Fx::MAX());
    assert_eq!(Fx::MIN() - Fx::ONE(), Fx::MIN());
}

#[test]
fn mul() {
    assert_eq!(Fx::from_int(3) * Fx::from_int(4), Fx::from_int(12));
    assert_eq!(Fx::from_int(-3) * Fx::from_int(4), Fx::from_int(-12));
    assert_eq!(Fx::HALF() * Fx::HALF(), fx(1, 4));
    assert_eq!(Fx::from_int(200) * Fx::from_int(200), Fx::MAX()); // 40000 saturates
    assert_eq!(Fx::from_int(7) * 3, Fx::from_int(21));
    // Fixed-point multiply must agree with exact integer scaling.
    assert_eq!(fx(45, 100) * Fx::from_int(10), fx(45, 100) * 10);
    assert_eq!(fx(-45, 100) * Fx::from_int(10), fx(-45, 100) * 10);
}

#[test]
fn div() {
    assert_eq!(Fx::from_int(12) / Fx::from_int(4), Fx::from_int(3));
    assert_eq!(Fx::ONE() / Fx::from_int(4), fx(1, 4));
    assert_eq!(Fx::from_int(-7) / Fx::from_int(2), fx(-7, 2));
    assert_eq!(Fx::from_int(9) / 3, Fx::from_int(3));
    assert_eq!(Fx::ONE().checked_div(Fx::ZERO()), None);
    // Rounds to nearest, halves away from zero, in both signs.
    assert_eq!(Fx::from_raw(7) / 2, Fx::from_raw(4));
    assert_eq!(Fx::from_raw(-7) / 2, Fx::from_raw(-4));
    assert_eq!(Fx::from_raw(7) / -2, Fx::from_raw(-4));
    assert_eq!(Fx::from_raw(-7) / -2, Fx::from_raw(4));
    assert_eq!(Fx::from_raw(6) / 4, Fx::from_raw(2));
    assert_eq!(fx(1, 20).raw(), 3277); // 3276.8 rounds up
    assert_eq!(fx(2, 3).raw(), 43691); // 43690.67 rounds up
    assert_eq!(Fx::from_int(1000) / Fx::EPSILON(), Fx::MAX());
}

#[test]
fn mul_div_avoids_intermediate_overflow() {
    // 3000 * 2000 would saturate as a product; mul_div keeps it in i64.
    let v = Fx::from_int(3000).mul_div(Fx::from_int(2000), Fx::from_int(4000));
    assert_eq!(v, Fx::from_int(1500));
}

#[test]
fn rounding_family() {
    let v = fx(7, 2); // 3.5
    assert_eq!(v.floor(), 3);
    assert_eq!(v.ceil(), 4);
    assert_eq!(v.round(), 4);
    assert_eq!(v.trunc(), 3);
    assert_eq!(v.frac(), Fx::HALF());

    let n = fx(-7, 2); // -3.5
    assert_eq!(n.floor(), -4);
    assert_eq!(n.ceil(), -3);
    assert_eq!(n.round(), -3);
    assert_eq!(n.trunc(), -3);
    assert_eq!(Fx::from_int(n.floor()) + n.frac(), n);

    assert_eq!(Fx::from_int(5).ceil(), 5);
    assert_eq!(Fx::from_int(-5).ceil(), -5);
}

#[test]
fn abs_neg_signum() {
    assert_eq!(fx(-3, 2).abs(), fx(3, 2));
    assert_eq!(-fx(3, 2), fx(-3, 2));
    assert_eq!(Fx::MIN().abs(), Fx::MAX());
    assert_eq!(-Fx::MIN(), Fx::MAX());
    assert_eq!(fx(-3, 2).signum(), -Fx::ONE());
    assert_eq!(Fx::ZERO().signum(), Fx::ZERO());
    assert_eq!(fx(3, 2).signum(), Fx::ONE());
}

#[test]
fn min_max_clamp() {
    assert_eq!(Fx::ONE().min(Fx::TWO()), Fx::ONE());
    assert_eq!(Fx::ONE().max(Fx::TWO()), Fx::TWO());
    assert_eq!(Fx::from_int(9).clamp(Fx::ZERO(), Fx::TWO()), Fx::TWO());
    assert_eq!(Fx::from_int(-9).clamp(Fx::ZERO(), Fx::TWO()), Fx::ZERO());
}

#[test]
fn isqrt() {
    assert_eq!(isqrt_u64(0), 0);
    assert_eq!(isqrt_u64(1), 1);
    assert_eq!(isqrt_u64(2), 1);
    assert_eq!(isqrt_u64(3), 1);
    assert_eq!(isqrt_u64(4), 2);
    assert_eq!(isqrt_u64(15), 3);
    assert_eq!(isqrt_u64(16), 4);
    assert_eq!(isqrt_u64(1 << 40), 1 << 20);
    assert_eq!(isqrt_u64(u64::MAX), (1u64 << 32) - 1);
    // Exhaustive check of the floor property over a range.
    for n in 0..5000u64 {
        let r = isqrt_u64(n);
        assert!(r * r <= n && (r + 1) * (r + 1) > n, "n={n} r={r}");
    }
}

#[test]
fn sqrt() {
    assert_eq!(Fx::from_int(4).sqrt(), Fx::from_int(2));
    assert_eq!(Fx::from_int(9).sqrt(), Fx::from_int(3));
    assert_eq!(fx(1, 4).sqrt(), Fx::HALF());
    assert_eq!(Fx::ZERO().sqrt(), Fx::ZERO());
    assert_eq!(Fx::from_int(-4).sqrt(), Fx::ZERO());
    // sqrt(2) = 1.41421356 -> raw 92681
    assert_eq!(Fx::TWO().sqrt().raw(), 92681);
    // Large values must not overflow the intermediate.
    let big = Fx::from_int(32000).sqrt();
    assert_eq!(big.floor(), 178);
    assert_eq!(Fx::MAX().sqrt().floor(), 181);
}

#[test]
fn lerp() {
    let a = Fx::from_int(10);
    let b = Fx::from_int(20);
    assert_eq!(Fx::lerp(a, b, Fx::ZERO()), a);
    assert_eq!(Fx::lerp(a, b, Fx::ONE()), b);
    assert_eq!(Fx::lerp(a, b, Fx::HALF()), Fx::from_int(15));
}

#[test]
fn display() {
    assert_eq!(Fx::from_int(3).to_string(), "3.0000");
    assert_eq!(fx(-7, 2).to_string(), "-3.5000");
    assert_eq!(fx(1, 3).to_string(), "0.3333");
    assert_eq!(Fx::EPSILON().to_string(), "0.0000");
    assert_eq!(Fx::HALF().to_debug_string(), "Fx(0.5000)");
}

#[test]
fn ordering_and_int_comparison() {
    assert!(Fx::ONE() < Fx::TWO());
    assert!(Fx::from_int(-1) < Fx::ZERO());
    assert!(Fx::from_int(3) == 3);
    assert!(fx(7, 2) > 3);
    assert!(fx(7, 2) < 4);
}
