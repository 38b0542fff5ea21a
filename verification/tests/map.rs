use sim::hash::{HashState, StateHasher};
use sim::map::{TileMap, Terrain, MAX_ELEVATION};

#[test]
fn flat_map_basics() {
    let m = TileMap::new(4, 3);
    assert_eq!(m.width(), 4);
    assert_eq!(m.height(), 3);
    assert!(m.in_bounds(3, 2));
    assert!(!m.in_bounds(4, 2));
    assert!(!m.in_bounds(-1, 0));
    assert_eq!(m.terrain(1, 1), Terrain::Grass);
    assert_eq!(m.terrain(9, 9), Terrain::DeepWater);
    assert_eq!(m.elevation(0, 0), 0);
    assert!(m.walkable(0, 0));
    assert!(!m.walkable(4, 0));
    assert!(m.validate().is_ok());
}

#[test]
fn terrain_round_trip_and_walkability() {
    for t in Terrain::ALL() {
        assert_eq!(Terrain::from_u8(t as u8), t);
    }
    assert_eq!(Terrain::from_u8(200), Terrain::Grass);
    assert!(!Terrain::DeepWater.walkable());
    assert!(!Terrain::ShallowWater.walkable());
    assert!(Terrain::Sand.walkable());
    let mut m = TileMap::new(2, 2);
    m.set_terrain(1, 1, Terrain::DeepWater);
    assert!(!m.walkable(1, 1));
    m.set_terrain(5, 5, Terrain::Snow); // ignored
    assert_eq!(m.terrain_histogram()[Terrain::DeepWater as usize], 1);
}

#[test]
fn corners_and_elevation() {
    let mut m = TileMap::new(2, 2);
    m.set_corner(1, 1, 2);
    assert_eq!(m.corner(1, 1), 2);
    assert_eq!(m.tile_corners(0, 0), [0, 0, 2, 0]);
    assert_eq!(m.elevation(0, 0), 1); // (0+0+2+0+2)/4 = 1
    m.set_corner(0, 0, 9);
    assert_eq!(m.corner(0, 0), MAX_ELEVATION);
    assert_eq!(m.corner(-5, -5), MAX_ELEVATION, "clamps to edge corner");
    assert_eq!(m.validate(), Err(((0, 0), (1, 0))));
}

#[test]
fn enforce_max_step_lowers_until_valid() {
    let mut m = TileMap::new(6, 1);
    m.set_corner(3, 0, 3);
    m.set_corner(3, 1, 3);
    m.enforce_max_step();
    assert!(m.validate().is_ok());
    assert_eq!(m.corner(3, 0), 1, "isolated peak collapses to a bump");
    // A wide plateau keeps its interior.
    let mut p = TileMap::new(10, 10);
    for cy in 2..=8 {
        for cx in 2..=8 {
            p.set_corner(cx, cy, 2);
        }
    }
    p.enforce_max_step();
    assert!(p.validate().is_ok());
    assert_eq!(p.corner(5, 5), 2);
    assert_eq!(p.corner(2, 5), 1);
    assert_eq!(p.corner(1, 5), 0);
}

#[test]
fn hash_reflects_terrain_and_corners() {
    let a = TileMap::new(3, 3);
    let mut b = a.clone();
    let mut ha = StateHasher::new();
    a.hash_state(&mut ha);
    b.set_corner(1, 1, 1);
    let mut hb = StateHasher::new();
    b.hash_state(&mut hb);
    assert_ne!(ha.finish(), hb.finish());
}

#[test]
fn an_empty_map_is_already_smooth() {
    let mut m = TileMap::new(0, 0);
    m.enforce_max_step();
    assert_eq!(m.width(), 0);
    assert_eq!(m.height(), 0);
    assert_eq!(m.validate(), Ok(()));
}
