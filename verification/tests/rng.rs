use sim::fx::Fx;
use sim::rng::{splitmix64, Rng};

#[test]
fn splitmix_known_answer() {
    // Reference value from the splitmix64 paper/implementation for seed 0.
    let mut st = 0u64;
    assert_eq!(splitmix64(&mut st), 0xE220_A839_7B1D_CDAF);
}

#[test]
fn same_seed_same_sequence() {
    let mut a = Rng::new(42);
    let mut b = Rng::new(42);
    for _ in 0..1000 {
        assert_eq!(a.next_u64(), b.next_u64());
    }
    assert_eq!(a, b);
}

#[test]
fn different_seeds_differ() {
    let mut a = Rng::new(1);
    let mut b = Rng::new(2);
    let same = (0..64).filter(|_| a.next_u64() == b.next_u64()).count();
    assert_eq!(same, 0);
}

#[test]
fn below_stays_in_range_and_covers_it() {
    let mut r = Rng::new(7);
    let mut seen = [false; 10];
    for _ in 0..10_000 {
        let v = r.below(10);
        assert!(v < 10);
        seen[v as usize] = true;
    }
    assert!(seen.iter().all(|&s| s));
    assert_eq!(r.below(0), 0);
    assert_eq!(r.below(1), 0);
}

#[test]
fn range_i32_handles_negatives_and_empty() {
    let mut r = Rng::new(9);
    for _ in 0..1000 {
        let v = r.range_i32(-5, 5);
        assert!((-5..5).contains(&v));
    }
    assert_eq!(r.range_i32(3, 3), 3);
    assert_eq!(r.range_i32(4, 3), 4);
}

#[test]
fn unit_fx_is_in_half_open_interval() {
    let mut r = Rng::new(11);
    for _ in 0..10_000 {
        let v = r.unit_fx();
        assert!(v >= Fx::ZERO() && v < Fx::ONE());
    }
    let lo = Fx::from_int(2);
    let hi = Fx::from_int(4);
    for _ in 0..1000 {
        let v = r.range_fx(lo, hi);
        assert!(v >= lo && v < hi, "{}", v.to_string());
    }
}

#[test]
fn chance_is_roughly_calibrated() {
    let mut r = Rng::new(5);
    let hits = (0..10_000).filter(|_| r.chance(1, 4)).count();
    assert!((2200..2800).contains(&hits), "{hits}");
    assert!(!r.chance(0, 10));
    assert!(r.chance(10, 10));
}

#[test]
fn draw_count_tracks_every_call() {
    let mut r = Rng::new(1);
    r.next_u64();
    r.below(5);
    r.unit_fx();
    r.chance(1, 2);
    assert_eq!(r.draws(), 4);
}
