use sim::hash::{HashState, StateHasher};
use sim::kinds::Resource;
use sim::orders::{Order, Player};
use sim::vec2::Vec2Fx;

#[test]
fn paying_and_depositing() {
    let mut p = Player::new();
    assert!(p.can_afford(&[50, 0, 0, 0]));
    assert!(!p.can_afford(&[0, 0, 0, 500]));
    assert!(p.pay(&[50, 30, 0, 0]));
    assert_eq!(p.stockpile, [150, 170, 100, 100]);
    assert!(!p.pay(&[0, 0, 0, 500]));
    assert_eq!(
        p.stockpile,
        [150, 170, 100, 100],
        "failed payment changes nothing"
    );
    p.deposit(Resource::Gold, 10);
    assert_eq!(p.stockpile[3], 110);
    assert_eq!(p.gathered, [0, 0, 0, 10]);
    p.refund(&[50, 0, 0, 0]);
    assert_eq!(p.stockpile[0], 200);
}

#[test]
fn hashes_distinguish_orders() {
    let mut a = StateHasher::new();
    Order::Idle.hash_state(&mut a);
    let mut b = StateHasher::new();
    Order::Move {
        target: Vec2Fx::ZERO(),
    }
    .hash_state(&mut b);
    assert_ne!(a.finish(), b.finish());
}

#[test]
fn idle_and_moving_to_the_origin_hash_apart() {
    let mut a = sim::hash::StateHasher::new();
    sim::orders::Order::Idle.hash_state(&mut a);
    let mut b = sim::hash::StateHasher::new();
    sim::orders::Order::Move { target: sim::vec2::Vec2Fx::ZERO() }.hash_state(&mut b);
    assert_ne!(a.finish(), b.finish());
}
