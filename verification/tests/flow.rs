use sim::flow::{seeds_for, Buckets, Sectors};
use sim::map::TileMap;
use sim::nav::NavGrid;

fn grid(w: i32, h: i32) -> NavGrid {
    NavGrid::from_map(&TileMap::new(w as u16, h as u16))
}

#[test]
fn sector_columns_round_up() {
    assert_eq!(Sectors::cols_for(0), 0);
    assert_eq!(Sectors::cols_for(1), 1);
    assert_eq!(Sectors::cols_for(16), 1);
    assert_eq!(Sectors::cols_for(17), 2);
    assert_eq!(Sectors::cols_for(64), 4);
}

#[test]
fn sectors_are_numbered_row_by_row() {
    let mut s = Sectors::default();
    s.fit(&grid(40, 33));
    assert_eq!(s.count(), 9);
    assert_eq!(s.of((0, 0)), 0);
    assert_eq!(s.of((15, 15)), 0);
    assert_eq!(s.of((16, 0)), 1);
    assert_eq!(s.of((39, 32)), 8);
    assert_eq!(s.of((5, 20)), 3);
}

#[test]
fn buckets_pop_cheapest_first_and_last_pushed_first_within_a_cost() {
    let mut b = Buckets::new();
    assert_eq!(b.pop(), None);
    b.push(20, 1);
    b.push(10, 2);
    b.push(10, 3);
    b.push(30, 4);
    assert_eq!(b.pop(), Some((10, 3)));
    assert_eq!(b.pop(), Some((10, 2)));
    b.push(5, 7);
    assert_eq!(b.pop(), Some((5, 7)));
    assert_eq!(b.pop(), Some((20, 1)));
    assert_eq!(b.pop(), Some((30, 4)));
    assert_eq!(b.pop(), None);
    b.push(0, 9);
    b.clear();
    assert_eq!(b.pop(), None);
}

#[test]
fn a_plain_key_seeds_its_tile_or_the_nearest_open_one() {
    let mut g = grid(10, 10);
    assert_eq!(seeds_for(&g, (4, 4, 0)), vec![(4, 4)]);
    g.block(4, 4);
    g.refresh();
    let s = seeds_for(&g, (4, 4, 0));
    assert_eq!(s.len(), 1);
    assert_ne!(s[0], (4, 4));
    assert!(g.passable(s[0].0, s[0].1));
    assert!((s[0].0 - 4).abs() <= 1 && (s[0].1 - 4).abs() <= 1);
}

#[test]
fn a_footprint_key_seeds_the_open_ring_around_it() {
    let mut g = grid(10, 10);
    // A 2x2 footprint anchored at (5, 5) covers (4..=5, 4..=5).
    let ring = seeds_for(&g, (5, 5, 2));
    assert_eq!(ring.len(), 12);
    assert_eq!(ring[0], (3, 3));
    assert_eq!(ring[11], (6, 6));
    assert!(!ring.contains(&(4, 4)));
    g.block(3, 3);
    g.refresh();
    let ring = seeds_for(&g, (5, 5, 2));
    assert_eq!(ring.len(), 11);
    assert_eq!(ring[0], (4, 3));
    // At the map's corner the ring is cut by the edge.
    let corner = seeds_for(&g, (0, 0, 1));
    assert_eq!(corner, vec![(1, 0), (0, 1), (1, 1)]);
}
