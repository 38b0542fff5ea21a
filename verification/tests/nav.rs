use sim::fx::Fx;
use sim::map::{TileMap, Terrain};
use sim::nav::{anchor_tile, building_centre, centre, footprint_tiles, tile_of, NavGrid, Scratch};
use sim::vec2::Vec2Fx;



fn grid(w: i32, h: i32) -> NavGrid {
    NavGrid::from_map(&TileMap::new(w as u16, h as u16))
}

fn wall(g: &mut NavGrid, x: i32, y0: i32, y1: i32) {
    for y in y0..=y1 {
        g.block(x, y);
    }
}

#[test]
fn water_blocks_and_components_split() {
    let mut map = TileMap::new(6, 3);
    for y in 0..3 {
        map.set_terrain(3, y, Terrain::DeepWater);
    }
    let g = NavGrid::from_map(&map);
    assert!(!g.passable(3, 1));
    assert!(g.passable(2, 1));
    assert!(!g.connected((0, 0), (5, 0)));
    assert!(g.connected((0, 0), (2, 2)));
    assert_eq!(g.component(3, 1), 0);
}

#[test]
fn blockers_count_and_refresh() {
    let mut g = grid(4, 4);
    g.block(1, 1);
    g.block(1, 1);
    g.unblock(1, 1);
    assert!(
        !g.passable(1, 1),
        "two blockers, one removed: still blocked"
    );
    g.unblock(1, 1);
    assert!(g.passable(1, 1));
    g.block_footprint(2, 2, 2);
    assert!(!g.passable(1, 1) && !g.passable(2, 2) && !g.passable(1, 2) && !g.passable(2, 1));
    assert!(g.passable(3, 3));
    assert!(!g.footprint_clear(2, 2, 2));
    assert!(g.footprint_clear(3, 3, 1));
    assert!(!g.footprint_clear(0, 0, 3), "off-map is not clear");
    g.unblock_footprint(2, 2, 2);
    assert!(g.footprint_clear(2, 2, 2));
}

#[test]
fn nearest_passable_respects_component() {
    let mut g = grid(7, 3);
    wall(&mut g, 3, 0, 2);
    g.refresh();
    assert_eq!(g.nearest_passable(3, 1, 3, None), Some((2, 1)));
    assert_eq!(g.nearest_passable(3, 1, 3, Some((6, 1))), Some((4, 1)));
    assert_eq!(g.nearest_passable(3, 1, 0, None), None);
    let s = g.spread(1, 1, 4, None);
    assert_eq!(s[0], (1, 1));
    assert_eq!(s.len(), 4);
    assert!(s.iter().all(|&(x, _)| x < 3));
}

#[test]
fn line_of_sight() {
    let mut g = grid(10, 10);
    assert!(g.line_of_sight(centre((0, 0)), centre((9, 9))));
    assert!(g.line_of_sight(centre((0, 5)), centre((9, 5))));
    wall(&mut g, 5, 0, 9);
    assert!(!g.line_of_sight(centre((0, 5)), centre((9, 5))));
    assert!(!g.line_of_sight(centre((0, 0)), centre((9, 9))));
    assert!(g.line_of_sight(centre((0, 0)), centre((4, 9))));
    // A diagonal squeezed between two blocked tiles is refused.
    let mut h = grid(4, 4);
    h.block(1, 0);
    h.block(0, 1);
    assert!(!h.line_of_sight(centre((0, 0)), centre((1, 1))));
    assert!(h.line_of_sight(centre((0, 0)), centre((0, 0))));
}

#[test]
fn astar_finds_way_around_a_wall_and_respects_corners() {
    let mut g = grid(10, 10);
    wall(&mut g, 5, 0, 8);
    g.refresh();
    let mut s = Scratch::default();
    let path = g.astar((0, 5), (9, 5), 10_000, &mut s).expect("path");
    assert_eq!(*path.last().unwrap(), (9, 5));
    assert!(path.iter().all(|&(x, y)| g.passable(x, y)));
    assert!(
        path.iter().any(|&(_, y)| y == 9),
        "must go round the bottom"
    );
    // Every step is a king move.
    let mut prev = (0, 5);
    for &t in &path {
        assert!((t.0 - prev.0).abs() <= 1 && (t.1 - prev.1).abs() <= 1);
        if t.0 != prev.0 && t.1 != prev.1 {
            assert!(
                g.passable(t.0, prev.1) && g.passable(prev.0, t.1),
                "corner cut at {t:?}"
            );
        }
        prev = t;
    }
    // Sealed off: no path, and the budget cannot rescue it.
    wall(&mut g, 5, 9, 9);
    g.refresh();
    assert!(g.astar((0, 5), (9, 5), 10_000, &mut s).is_none());
    assert!(!g.connected((0, 5), (9, 5)));
    // Tiny budget fails rather than hanging.
    let open = grid(50, 50);
    assert!(open.astar((0, 0), (49, 49), 5, &mut s).is_none());
}

#[test]
fn smoothing_collapses_open_ground() {
    let g = grid(20, 20);
    let mut s = Scratch::default();
    let tiles = g.astar((0, 0), (19, 7), 10_000, &mut s).unwrap();
    assert!(tiles.len() >= 19);
    let way = g.smooth(centre((0, 0)), &tiles);
    assert_eq!(way.len(), 1, "open ground needs one waypoint: {way:?}");
    assert_eq!(way[0], centre((19, 7)));
    // With a wall, smoothing keeps a bend but nothing more.
    let mut w = grid(20, 20);
    wall(&mut w, 10, 0, 15);
    w.refresh();
    let tiles = w.astar((2, 5), (18, 5), 10_000, &mut s).unwrap();
    let way = w.smooth(centre((2, 5)), &tiles);
    assert!(way.len() <= 3, "{way:?}");
    let mut prev = centre((2, 5));
    for &p in &way {
        assert!(w.line_of_sight(prev, p));
        prev = p;
    }
}

#[test]
fn find_path_end_to_end() {
    let mut g = grid(30, 30);
    for x in 5..25 {
        g.block(x, 15);
    }
    g.refresh();
    let mut s = Scratch::default();
    let from = Vec2Fx::new(
        Fx::from_ratio(15, 1) + Fx::from_ratio(3, 10),
        Fx::from_int(5),
    );
    let goal = Vec2Fx::new(
        Fx::from_ratio(15, 1) + Fx::from_ratio(7, 10),
        Fx::from_int(25),
    );
    let way = g.find_path(from, goal, 20_000, &mut s).expect("path");
    assert_eq!(*way.last().unwrap(), goal, "ends on the exact goal point");
    assert!(way.len() >= 2, "must bend around the wall: {way:?}");
    let clear = g
        .find_path(from, Vec2Fx::from_int(20, 5), 20_000, &mut s)
        .unwrap();
    assert_eq!(clear, vec![Vec2Fx::from_int(20, 5)], "LOS shortcut");
    assert!(
        g.find_path(from, Vec2Fx::from_int(10, 15), 20_000, &mut s)
            .is_none(),
        "blocked goal"
    );
}

#[test]
fn maze_is_solved() {
    // A serpentine of walls forces a long path.
    let mut g = grid(21, 21);
    for row in (2..18).step_by(4) {
        wall_h(&mut g, row, 0, 18);
        wall_h(&mut g, row + 2, 2, 20);
    }
    g.refresh();
    let mut s = Scratch::default();
    let path = g
        .astar((0, 0), (20, 20), 50_000, &mut s)
        .expect("maze has a path");
    assert!(path.len() > 60, "serpentine should be long: {}", path.len());
    assert!(g.connected((0, 0), (20, 20)));
}

fn wall_h(g: &mut NavGrid, y: i32, x0: i32, x1: i32) {
    for x in x0..=x1 {
        g.block(x, y);
    }
}

#[test]
fn footprints_and_centres() {
    assert_eq!(footprint_tiles(5, 5, 1), vec![(5, 5)]);
    assert_eq!(
        footprint_tiles(5, 5, 2),
        vec![(4, 4), (5, 4), (4, 5), (5, 5)]
    );
    assert_eq!(footprint_tiles(5, 5, 3).len(), 9);
    assert!(
        footprint_tiles(5, 5, 3).contains(&(4, 4))
            && footprint_tiles(5, 5, 3).contains(&(6, 6))
    );
    assert_eq!(tile_of(centre((3, 4))), (3, 4));
    assert_eq!(centre((0, 0)), Vec2Fx::new(Fx::HALF(), Fx::HALF()));
    for fp in 1..=4 {
        for &(x, y) in &[(5, 5), (0, 0), (7, 2)] {
            let c = building_centre(x, y, fp);
            assert_eq!(
                anchor_tile(c, fp),
                (x, y),
                "fp {fp} at {x},{y}: centre {c:?}"
            );
            let tiles = footprint_tiles(x, y, fp);
            let (sx, sy) = tiles.iter().fold((Fx::ZERO(), Fx::ZERO()), |a, &t| {
                (a.0 + centre(t).x, a.1 + centre(t).y)
            });
            assert_eq!(sx / tiles.len() as i32, c.x, "fp {fp}: x centre");
            assert_eq!(sy / tiles.len() as i32, c.y, "fp {fp}: y centre");
        }
    }
}

fn path_cost(from: (i32, i32), path: &[(i32, i32)]) -> u32 {
    let mut prev = from;
    let mut total = 0;
    for &t in path {
        total += if t.0 != prev.0 && t.1 != prev.1 { 14 } else { 10 };
        prev = t;
    }
    total
}

#[test]
fn astar_returns_a_cheapest_path() {
    let mut s = Scratch::default();
    let open = grid(8, 8);
    let diag = open.astar((0, 0), (5, 3), 10_000, &mut s).unwrap();
    // Three diagonal steps and two straight ones.
    assert_eq!(path_cost((0, 0), &diag), 3 * 14 + 2 * 10);
    let mut g = grid(7, 7);
    wall(&mut g, 3, 0, 5);
    g.refresh();
    let round = g.astar((0, 0), (6, 0), 10_000, &mut s).unwrap();
    // Down beside the wall to the gap at the bottom, straight through it
    // (the wall's corner forbids the diagonals), and back up.
    assert_eq!(*round.last().unwrap(), (6, 0));
    assert_eq!(path_cost((0, 0), &round), 2 * (2 * 14 + 4 * 10) + 2 * 10);
}
