use sim::kinds;
use sim::kinds::GAIA;
use sim::map::Terrain;
use sim::mapgen::{generate, Generated, MapKind, MapSpec};

fn count_near(g: &Generated, kind: u16, start: (i32, i32), radius: i32) -> usize {
    g.spawns
        .iter()
        .filter(|s| s.kind == kind)
        .filter(|s| {
            (s.pos.x.floor() - start.0).abs() <= radius
                && (s.pos.y.floor() - start.1).abs() <= radius
        })
        .count()
}

#[test]
fn same_seed_same_map() {
    let spec = MapSpec::default();
    assert_eq!(generate(42, &spec), generate(42, &spec));
    assert_ne!(generate(42, &spec), generate(43, &spec));
}

#[test]
fn flat_is_empty_and_valid() {
    let g = generate(
        1,
        &MapSpec {
            kind: MapKind::Flat,
            size: 64,
            players: 3,
        },
    );
    assert!(g.spawns.is_empty());
    assert_eq!(g.starts.len(), 3);
    assert!(g.tiles.validate().is_ok());
}

#[test]
fn every_player_gets_the_kit() {
    for seed in 0..12u64 {
        for players in [1u8, 2, 4, 8] {
            let spec = MapSpec {
                kind: MapKind::Inland,
                size: 128,
                players,
            };
            let g = generate(seed, &spec);
            assert_eq!(g.starts.len(), players as usize);
            assert!(g.tiles.validate().is_ok(), "seed {seed}");
            assert!(
                g.attempts <= 3,
                "seed {seed} players {players} needed {} attempts",
                g.attempts
            );
            for (p, &start) in g.starts.iter().enumerate() {
                let p = p as u8;
                let tcs = g
                    .spawns
                    .iter()
                    .filter(|s| s.kind == kinds::TOWN_CENTER && s.owner == p)
                    .count();
                assert_eq!(tcs, 1, "seed {seed} player {p}");
                assert_eq!(
                    g.spawns
                        .iter()
                        .filter(|s| s.kind == kinds::VILLAGER && s.owner == p)
                        .count(),
                    3
                );
                assert_eq!(
                    g.spawns
                        .iter()
                        .filter(|s| s.kind == kinds::SCOUT && s.owner == p)
                        .count(),
                    1
                );
                assert!(
                    count_near(&g, kinds::BERRY_BUSH, start, 10) >= 6,
                    "seed {seed} p{p} berries"
                );
                assert!(
                    count_near(&g, kinds::GOLD_MINE, start, 12) >= 5,
                    "seed {seed} p{p} gold"
                );
                assert!(
                    count_near(&g, kinds::STONE_MINE, start, 12) >= 4,
                    "seed {seed} p{p} stone"
                );
                assert!(
                    count_near(&g, kinds::TREE, start, 16) >= 28,
                    "seed {seed} p{p} trees"
                );
                // Start zone stays clear for building.
                let clutter = g
                    .spawns
                    .iter()
                    .filter(|s| s.owner == GAIA && !kinds::info(s.kind).mobile)
                    .filter(|s| {
                        (s.pos.x.floor() - start.0).abs() <= 4
                            && (s.pos.y.floor() - start.1).abs() <= 4
                    })
                    .count();
                assert_eq!(
                    clutter, 0,
                    "seed {seed} p{p}: scenery inside the start zone"
                );
            }
        }
    }
}

#[test]
fn starts_are_far_apart_and_flat() {
    let g = generate(
        7,
        &MapSpec {
            kind: MapKind::Inland,
            size: 128,
            players: 4,
        },
    );
    for (i, &a) in g.starts.iter().enumerate() {
        for &b in &g.starts[i + 1..] {
            let d = (a.0 - b.0).abs().max((a.1 - b.1).abs());
            assert!(d >= 40, "starts {a:?} and {b:?} only {d} apart");
        }
        let level = g.tiles.elevation(a.0, a.1);
        for dy in -5..=5 {
            for dx in -5..=5 {
                assert_eq!(
                    g.tiles.elevation(a.0 + dx, a.1 + dy),
                    level,
                    "start {a:?} not flat at {dx},{dy}"
                );
            }
        }
    }
}

#[test]
fn terrain_is_mostly_grass_with_some_variety() {
    let g = generate(3, &MapSpec::default());
    let h = g.tiles.terrain_histogram();
    let total: usize = h.iter().sum();
    assert!(
        h[Terrain::Grass as usize] * 2 > total,
        "grass should dominate: {h:?}"
    );
    assert!(h[Terrain::Dirt as usize] > 0);
    assert!(h[Terrain::ForestFloor as usize] > 100);
    assert_eq!(h[Terrain::DeepWater as usize], 0, "inland has no water");
}

#[test]
fn spec_is_clamped() {
    let g = generate(
        1,
        &MapSpec {
            kind: MapKind::Inland,
            size: 10,
            players: 0,
        },
    );
    assert_eq!(g.tiles.width(), 48);
    assert_eq!(g.starts.len(), 1);
}

#[test]
fn flat_spec_is_clamped_and_starts_inside() {
    let g = generate(
        9,
        &MapSpec {
            kind: MapKind::Flat,
            size: 1000,
            players: 20,
        },
    );
    assert_eq!(g.tiles.width(), 256);
    assert_eq!(g.tiles.height(), 256);
    assert_eq!(g.starts.len(), 8);
    assert_eq!(g.attempts, 1);
    for &(x, y) in &g.starts {
        assert!((12..=256 - 13).contains(&x));
        assert!((12..=256 - 13).contains(&y));
    }
}

#[test]
fn inland_attempts_are_counted_from_one() {
    let g = generate(5, &MapSpec::default());
    assert!(g.attempts >= 1 && g.attempts <= 13);
    assert!(!g.spawns.is_empty());
}

fn blocked_by_scenery(g: &Generated, x: i32, y: i32) -> bool {
    g.spawns.iter().any(|s| {
        let info = kinds::info(s.kind);
        if info.mobile {
            return false;
        }
        let half = info.footprint as i32 / 2;
        let tx = s.pos.x.floor();
        let ty = s.pos.y.floor();
        (x - tx).abs().max((y - ty).abs()) <= half
    })
}

fn clear(g: &Generated, x: i32, y: i32) -> bool {
    g.tiles.walkable(x, y) && !blocked_by_scenery(g, x, y)
}

#[test]
fn every_start_walks_to_every_other_over_clear_tiles() {
    for seed in [2u64, 11, 29] {
        let g = generate(
            seed,
            &MapSpec {
                kind: MapKind::Inland,
                size: 96,
                players: 4,
            },
        );
        if g.attempts > 12 {
            continue;
        }
        let size = g.tiles.width();
        let (sx, sy) = g.starts[0];
        let origin = (sx, sy + 2);
        assert!(clear(&g, origin.0, origin.1));
        let mut seen = vec![false; (size * size) as usize];
        let mut queue = std::collections::VecDeque::new();
        seen[(origin.1 * size + origin.0) as usize] = true;
        queue.push_back(origin);
        while let Some((x, y)) = queue.pop_front() {
            for (dx, dy) in [(1, 0), (-1, 0), (0, 1), (0, -1)] {
                let (nx, ny) = (x + dx, y + dy);
                if clear(&g, nx, ny) && !seen[(ny * size + nx) as usize] {
                    seen[(ny * size + nx) as usize] = true;
                    queue.push_back((nx, ny));
                }
            }
        }
        for &(x, y) in &g.starts {
            assert!(seen[((y + 2) * size + x) as usize], "seed {seed}: start {x},{y} cut off");
        }
    }
}

#[test]
fn players_own_exactly_their_kits() {
    let g = generate(4, &MapSpec::default());
    assert!(g.attempts <= 12);
    let owned: Vec<_> = g.spawns.iter().filter(|s| s.owner != GAIA).collect();
    assert_eq!(owned.len(), 5 * g.starts.len());
    for (p, &(sx, sy)) in g.starts.iter().enumerate() {
        let kit = &owned[5 * p..5 * p + 5];
        assert_eq!(kit[0].kind, kinds::TOWN_CENTER);
        assert_eq!(kit[0].pos.x.floor(), sx);
        assert_eq!(kit[0].pos.y.floor(), sy);
        for (i, v) in kit[1..4].iter().enumerate() {
            assert_eq!(v.kind, kinds::VILLAGER);
            assert_eq!(v.pos.x.floor(), sx - 1 + i as i32);
            assert_eq!(v.pos.y.floor(), sy + 2);
        }
        assert_eq!(kit[4].kind, kinds::SCOUT);
        assert_eq!((kit[4].pos.x.floor(), kit[4].pos.y.floor()), (sx + 2, sy - 2));
        assert!(kit.iter().all(|s| s.owner as usize == p));
    }
}
