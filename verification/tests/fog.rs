use sim::fog::{stamp, Fog, Memory, Visibility, MAX_SIGHT};
use sim::hash::{HashState, StateHasher};

#[test]
fn a_stamp_is_a_symmetric_disc_and_grows_with_the_radius() {
    assert_eq!(stamp(0), vec![(0, 0)]);
    for r in 1..=MAX_SIGHT {
        let s = stamp(r);
        assert!(s.len() > stamp(r - 1).len());
        for &(dx, dy) in &s {
            assert!(s.contains(&(-dx, dy)) && s.contains(&(dx, -dy)) && s.contains(&(dy, dx)));
            assert!(dx.abs() <= r && dy.abs() <= r);
        }
        assert!(s.contains(&(r, 0)) && s.contains(&(0, -r)));
    }
    assert_eq!(stamp(MAX_SIGHT + 5).len(), stamp(MAX_SIGHT).len());
}

#[test]
fn seeing_explores_and_forgets_what_was_remembered() {
    let mut f = Fog::new(8, 4);
    assert_eq!(f.state(3, 2), Visibility::Unexplored);
    f.remember(3, 2, Memory { kind: 11, owner: 1 });
    assert_eq!(f.remembered(3, 2).map(|m| m.kind), Some(11));
    f.see(3, 2);
    assert_eq!(f.state(3, 2), Visibility::Visible);
    assert_eq!(f.remembered(3, 2), None, "seen again: the memory goes");
    f.clear_visible();
    assert_eq!(f.state(3, 2), Visibility::Explored);
    assert_eq!(f.state(0, 0), Visibility::Unexplored);
    f.see(-1, 0);
    f.see(8, 3);
    assert_eq!((f.visible_count(), f.explored_count()), (0, 1));
    let mut h1 = StateHasher::new();
    f.hash_state(&mut h1);
    let mut g = f.clone();
    g.see(0, 0);
    let mut h2 = StateHasher::new();
    g.hash_state(&mut h2);
    assert_ne!(h1.finish(), h2.finish(), "explored is state");
    let mut k = f.clone();
    k.see(3, 2);
    k.clear_visible();
    let mut h3 = StateHasher::new();
    k.hash_state(&mut h3);
    let mut h4 = StateHasher::new();
    f.hash_state(&mut h4);
    assert_eq!(h3.finish(), h4.finish(), "visibility is not");
}
