use sim::fx::Fx;
use sim::hash::StateHasher;

#[test]
fn fnv1a_known_answers() {
    // Standard FNV-1a 64 test vectors.
    assert_eq!(StateHasher::new().finish(), 0xCBF2_9CE4_8422_2325);
    let mut h = StateHasher::new();
    h.write_bytes(b"a");
    assert_eq!(h.finish(), 0xAF63_DC4C_8601_EC8C);
    let mut h = StateHasher::new();
    h.write_bytes(b"foobar");
    assert_eq!(h.finish(), 0x85944171F73967E8);
}

#[test]
fn different_inputs_different_hashes() {
    let mut a = StateHasher::new();
    a.write(&Fx::ONE());
    let mut b = StateHasher::new();
    b.write(&Fx::TWO());
    assert_ne!(a.finish(), b.finish());
}

#[test]
fn options_and_slices_are_length_prefixed() {
    let mut a = StateHasher::new();
    a.write(&vec![Fx::ONE(), Fx::ZERO()]);
    let mut b = StateHasher::new();
    b.write(&vec![Fx::ONE()]);
    b.write(&Fx::ZERO());
    assert_ne!(a.finish(), b.finish());

    let mut c = StateHasher::new();
    c.write(&Some(Fx::ZERO()));
    let mut d = StateHasher::new();
    d.write(&None::<Fx>);
    assert_ne!(c.finish(), d.finish());
}
