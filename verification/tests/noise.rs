use sim::fx::Fx;
use sim::noise::{smoothstep, Fbm, ValueNoise};
use sim::rng::Rng;

#[test]
fn smoothstep_endpoints_and_middle() {
    assert_eq!(smoothstep(Fx::ZERO()), Fx::ZERO());
    assert_eq!(smoothstep(Fx::ONE()), Fx::ONE());
    assert_eq!(smoothstep(Fx::HALF()), Fx::HALF());
    assert!(smoothstep(Fx::from_ratio(1, 4)) < Fx::from_ratio(1, 4));
}

#[test]
fn in_range_deterministic_and_continuous() {
    let mut a = Rng::new(5);
    let mut b = Rng::new(5);
    let na = ValueNoise::new(&mut a, 64, 64, 8);
    let nb = ValueNoise::new(&mut b, 64, 64, 8);
    let mut max_jump = Fx::ZERO();
    for y in 0..64 {
        for x in 0..64 {
            let v = na.sample(x, y);
            assert_eq!(v, nb.sample(x, y));
            assert!(v >= Fx::ZERO() && v < Fx::ONE());
            if x > 0 {
                max_jump = max_jump.max((v - na.sample(x - 1, y)).abs());
            }
        }
    }
    // Neighbouring tiles differ by a small fraction — the field is smooth.
    assert!(max_jump < Fx::from_ratio(1, 4), "{}", max_jump.to_string());
    // Lattice points return the lattice value exactly.
    assert_eq!(na.sample(8, 16), na.at(1, 2));
}

#[test]
fn fbm_in_range() {
    let mut r = Rng::new(1);
    let f = Fbm::new(&mut r, 100, 100, 16);
    for y in (0..100).step_by(7) {
        for x in (0..100).step_by(5) {
            let v = f.sample(x, y);
            assert!(v >= Fx::ZERO() && v < Fx::ONE());
        }
    }
    assert_eq!(f.sample(-5, -5), f.sample(0, 0));
}
