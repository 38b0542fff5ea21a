use sim::entity::{EntityId, World};
use sim::fx::Fx;
use sim::hash::StateHasher;
use sim::vec2::Vec2Fx;

/// The scrub contract, column by column.
///
/// `despawn` has to clear every component, or a world's identity starts
/// depending on its history and two replays that reach the same live
/// state report a desync that is not one. M2's own suite never despawns
/// a resource-bearing entity — an exhausted node is already zero — so
/// without this the check has no coverage at all.
#[test]
fn despawn_scrubs_every_column() {
    let mut w = World::new();
    let id = w.spawn(7, 1, Vec2Fx::from_int(3, 4), Fx::from_int(50));
    let i = w.slot(id).unwrap().index();
    // Dirty every column the scrub is responsible for.
    w.resource[i] = 250;
    w.facing[i] = 5;
    w.move_target[i] = Some(Vec2Fx::from_int(9, 9));
    w.carry[i] = Some((sim::kinds::Resource::Wood, 7));
    w.construction[i] = Some(40);
    w.work[i] = Fx::from_int(3);
    assert!(w.check().is_ok(), "a live entity may hold anything");

    w.despawn(id);
    w.check().expect("every column must be scrubbed on despawn");

    // And a world that never saw that entity is indistinguishable.
    let mut fresh = World::new();
    let fid = fresh.spawn(7, 1, Vec2Fx::from_int(3, 4), Fx::from_int(50));
    fresh.despawn(fid);
    assert_eq!(w, fresh, "history leaked past the scrub");
}

fn spawn(w: &mut World, x: i32) -> EntityId {
    w.spawn(1, 0, Vec2Fx::from_int(x, 0), Fx::from_int(100))
}

#[test]
fn spawn_and_lookup() {
    let mut w = World::new();
    assert!(w.is_empty());
    let a = spawn(&mut w, 1);
    let b = spawn(&mut w, 2);
    assert_eq!(w.len(), 2);
    assert_eq!(a.index(), 0);
    assert_eq!(b.index(), 1);
    assert!(w.contains(a));
    let s = w.slot(b).unwrap();
    assert_eq!(w.pos[s.index()], Vec2Fx::from_int(2, 0));
    assert_eq!(w.id_at(s), b);
}

#[test]
fn despawn_invalidates_handle_and_reuses_slot_with_new_generation() {
    let mut w = World::new();
    let a = spawn(&mut w, 1);
    let _b = spawn(&mut w, 2);
    assert!(w.despawn(a));
    assert!(!w.despawn(a), "double despawn must be rejected");
    assert!(!w.contains(a));
    assert_eq!(w.len(), 1);

    let c = spawn(&mut w, 3);
    assert_eq!(c.index(), 0, "lowest free slot is reused");
    assert_eq!(c.generation(), 1);
    assert!(!w.contains(a), "stale handle still stale after reuse");
    assert!(w.contains(c));
    assert_eq!(w.capacity(), 2);
}

#[test]
fn free_slots_reused_lowest_first_regardless_of_despawn_order() {
    let mut w = World::new();
    let ids: Vec<_> = (0..5).map(|i| spawn(&mut w, i)).collect();
    w.despawn(ids[3]);
    w.despawn(ids[1]);
    w.despawn(ids[4]);
    assert_eq!(spawn(&mut w, 9).index(), 1);
    assert_eq!(spawn(&mut w, 9).index(), 3);
    assert_eq!(spawn(&mut w, 9).index(), 4);
    assert_eq!(spawn(&mut w, 9).index(), 5);
}

#[test]
fn iteration_is_slot_order() {
    let mut w = World::new();
    let ids: Vec<_> = (0..4).map(|i| spawn(&mut w, i)).collect();
    w.despawn(ids[1]);
    let order: Vec<usize> = w.slots().into_iter().map(|s| s.index()).collect();
    assert_eq!(order, vec![0, 2, 3]);
    let got: Vec<_> = w.ids();
    assert_eq!(got, vec![ids[0], ids[2], ids[3]]);
}

#[test]
fn hash_changes_with_state_and_not_with_history() {
    let mut a = World::new();
    spawn(&mut a, 1);
    spawn(&mut a, 2);

    let mut h1 = StateHasher::new();
    a.hash_state(&mut h1);

    let s = a.slot(a.ids().into_iter().next().unwrap()).unwrap();
    a.health[s.index()] = Fx::from_int(50);
    let mut h2 = StateHasher::new();
    a.hash_state(&mut h2);
    assert_ne!(h1.finish(), h2.finish());

    let mut b = World::new();
    let x = spawn(&mut b, 1);
    spawn(&mut b, 2);
    b.despawn(x);
    let mut c = World::new();
    let y = spawn(&mut c, 7);
    spawn(&mut c, 2);
    c.despawn(y);
    let mut hb = StateHasher::new();
    b.hash_state(&mut hb);
    let mut hc = StateHasher::new();
    c.hash_state(&mut hc);
    assert_eq!(hb.finish(), hc.finish());
    assert_eq!(b, c);
}

#[test]
fn spawning_twice_fills_slots_in_order() {
    let mut w = World::new();
    let a = w.spawn(1, 0, Vec2Fx::ZERO(), Fx::from_int(10));
    let b = w.spawn(2, 1, Vec2Fx::ZERO(), Fx::from_int(20));
    assert_eq!(a.index(), 0);
    assert_eq!(b.index(), 1);
    assert_eq!(w.capacity(), 2);
    assert_eq!(w.kind_at(1), 2);
    assert_eq!(w.resource_at(0), 0);
    assert_eq!(w.check(), Ok(()));
}
