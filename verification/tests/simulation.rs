use sim::hash::{HashState, StateHasher};
use sim::mapgen::{MapKind, MapSpec};
use sim::simulation::{
    ConfigError, SimConfig, TickStats, DEFAULT_STOCKPILE, POP_CAP_RANGE, TICKS_PER_SECOND, TICK_MS,
};

fn hash_of(c: &SimConfig) -> u64 {
    let mut h = StateHasher::new();
    c.hash_state(&mut h);
    h.finish()
}

#[test]
fn tick_constants_agree() {
    assert_eq!(TICKS_PER_SECOND, 20);
    assert_eq!(TICK_MS, 1000 / TICKS_PER_SECOND);
    assert_eq!(POP_CAP_RANGE(), (50, 200));
    assert_eq!(DEFAULT_STOCKPILE, [200, 200, 100, 100]);
}

#[test]
fn default_config_is_the_standard_match() {
    let c = SimConfig::default();
    assert_eq!(
        c.map,
        MapSpec {
            kind: MapKind::Inland,
            size: 128,
            players: 2
        }
    );
    assert_eq!(c.max_entities, 4000);
    assert!(c.wander);
    assert_eq!(c.pop_cap_max, 75);
    assert_eq!(c.starting_stockpile, DEFAULT_STOCKPILE);
    assert_eq!(c.validate(), Ok(()));
}

#[test]
fn config_validation_reports_the_first_problem() {
    let low = SimConfig {
        pop_cap_max: 49,
        starting_stockpile: [-1, 0, 0, 0],
        ..SimConfig::default()
    };
    assert_eq!(
        low.validate(),
        Err(ConfigError::PopCapOutOfRange { got: 49 })
    );
    let high = SimConfig {
        pop_cap_max: 201,
        ..SimConfig::default()
    };
    assert_eq!(
        high.validate(),
        Err(ConfigError::PopCapOutOfRange { got: 201 })
    );
    for cap in [50, 200] {
        let edge = SimConfig {
            pop_cap_max: cap,
            ..SimConfig::default()
        };
        assert!(edge.validate().is_ok());
    }
    let negative = SimConfig {
        starting_stockpile: [10, 0, -5, -7],
        ..SimConfig::default()
    };
    assert_eq!(
        negative.validate(),
        Err(ConfigError::NegativeStockpile {
            resource: 2,
            amount: -5
        })
    );
}

#[test]
fn config_hash_covers_every_field() {
    let base = SimConfig::default();
    let h = hash_of(&base);
    assert_eq!(h, hash_of(&base.clone()));
    let variants = [
        SimConfig { wander: false, ..base },
        SimConfig { max_entities: 4001, ..base },
        SimConfig { pop_cap_max: 76, ..base },
        SimConfig { starting_stockpile: [200, 200, 100, 101], ..base },
        SimConfig {
            map: MapSpec { kind: MapKind::Flat, ..base.map },
            ..base
        },
        SimConfig {
            map: MapSpec { size: 64, ..base.map },
            ..base
        },
        SimConfig {
            map: MapSpec { players: 3, ..base.map },
            ..base
        },
    ];
    for v in variants {
        assert_ne!(hash_of(&v), h);
    }
}

#[test]
fn tick_stats_start_at_zero() {
    let s = TickStats::default();
    assert_eq!(
        s,
        TickStats {
            path_searches: 0,
            path_nodes: 0,
            path_failures: 0,
            path_deferred: 0
        }
    );
}

use sim::command::{Command, CommandKind};
use sim::entity::EntityId;
use sim::kinds::{HOUSE, TOWN_CENTER, TREE, VILLAGER};
use sim::orders::Modifiers;
use sim::replay::Replay;
use sim::simulation::{PlaceError, ResearchError, Simulation};
use sim::tech::{Age, AGE_TOOL};
use sim::vec2::Vec2Fx;
use sim::Fx;

fn flat(size: u16, players: u8) -> SimConfig {
    SimConfig {
        map: MapSpec {
            kind: MapKind::Flat,
            size,
            players,
        },
        wander: false,
        ..SimConfig::default()
    }
}

fn owned(sim: &Simulation, p: u8, kind: u16) -> Vec<EntityId> {
    let w = sim.world();
    w.slots()
        .into_iter()
        .filter(|s| w.owner_at(s.index()) == p && w.kind_at(s.index()) == kind)
        .map(|s| w.id_at(s))
        .collect()
}

#[test]
fn map_hash_is_part_of_state() {
    let a = Simulation::new(1, SimConfig::default());
    let b = Simulation::new(
        1,
        SimConfig {
            map: MapSpec {
                size: 96,
                ..MapSpec::default()
            },
            ..SimConfig::default()
        },
    );
    assert_ne!(a.state_hash(), b.state_hash());
}

#[test]
fn a_fresh_match_passes_every_check() {
    for seed in [1u64, 6, 42] {
        let sim = Simulation::new(seed, SimConfig::default());
        assert_eq!(sim.check(), Ok(()));
        assert_eq!(sim.tick(), 0);
        assert_eq!(sim.seed(), seed);
        assert_eq!(sim.players().len(), 2);
        assert_eq!(sim.starts().len(), 2);
        assert!(sim.world().len() > 0);
    }
}

#[test]
fn identical_setups_hash_identically() {
    let a = Simulation::new(99, SimConfig::default());
    let b = Simulation::new(99, SimConfig::default());
    assert_eq!(a.state_hash(), b.state_hash());
    let c = Simulation::new(100, SimConfig::default());
    assert_ne!(a.state_hash(), c.state_hash());
}

#[test]
fn a_flat_match_starts_empty_with_clamped_players() {
    let sim = Simulation::new(3, flat(64, 0));
    assert_eq!(sim.world().len(), 0);
    assert_eq!(sim.players().len(), 1);
    assert_eq!(sim.map().width(), 64);
    let p = sim.player(0).expect("one player");
    assert_eq!(p.stockpile, DEFAULT_STOCKPILE);
    assert_eq!(p.pop, 0);
    assert_eq!(p.pop_cap, 0);
    assert!(sim.player(1).is_none());
    assert_eq!(sim.check(), Ok(()));
    let sim = Simulation::new(3, flat(20, 12));
    assert_eq!(sim.players().len(), 8);
    assert_eq!(sim.map().width(), 48);
}

#[test]
fn population_is_counted_at_the_start() {
    let sim = Simulation::new(6, SimConfig::default());
    let villagers = owned(&sim, 0, VILLAGER).len() as u32;
    let p = sim.player(0).unwrap();
    assert!(villagers > 0);
    assert!(p.pop >= villagers);
    assert!(p.pop_cap > 0 && p.pop_cap <= 75);
}

#[test]
fn issued_commands_run_after_the_delay_and_are_logged() {
    let mut sim = Simulation::new(1, flat(64, 1));
    let cmd = Command {
        player: 0,
        kind: CommandKind::Spawn {
            kind: VILLAGER,
            pos: Vec2Fx::new(Fx::from_int(5), Fx::from_int(5)),
        },
    };
    assert_eq!(sim.issue(cmd.clone()), 2);
    let r: Replay = sim.replay();
    assert_eq!(r.version, Replay::VERSION);
    assert_eq!(r.seed, 1);
    assert_eq!(r.ticks, 0);
    assert_eq!(r.commands, vec![(0, cmd)]);
    assert_eq!(r.config, *sim.config());
}

#[test]
fn placement_checks_come_in_order() {
    let sim = Simulation::new(6, SimConfig::default());
    let (sx, sy) = sim.starts()[0];
    assert_eq!(sim.can_place(0, HOUSE, sx, sy), Err(PlaceError::Blocked));
    assert_eq!(sim.can_place(0, TREE, sx + 4, sy), Err(PlaceError::NotBuildable));
    assert_eq!(sim.can_place(0, HOUSE, -5, -5), Err(PlaceError::Blocked));
    assert_eq!(sim.can_place(0, HOUSE, i32::MAX, i32::MIN), Err(PlaceError::Blocked));
    assert!(sim.can_place(0, HOUSE, sx + 4, sy).is_ok());
    assert_eq!(sim.can_place(7, HOUSE, sx + 4, sy), Err(PlaceError::Unaffordable));
}

#[test]
fn research_checks_come_in_order() {
    let sim = Simulation::new(6, SimConfig::default());
    let tc = owned(&sim, 0, TOWN_CENTER)[0];
    assert_eq!(sim.can_research(0, tc, 999), Err(ResearchError::UnknownTech));
    assert_eq!(sim.can_research(1, tc, AGE_TOOL), Err(ResearchError::NotYourBuilding));
    assert_eq!(
        sim.can_research(0, EntityId::from_parts(60000, 0), AGE_TOOL),
        Err(ResearchError::NotYourBuilding)
    );
    assert_eq!(
        sim.can_research(0, tc, AGE_TOOL),
        Err(ResearchError::NeedBuildings { have: 0, need: 2 })
    );
    assert_eq!(sim.age_buildings(0, Age::Stone), 0);
    assert!(!sim.tech_queued(0, AGE_TOOL));
}

#[test]
fn idle_villagers_are_listed_in_slot_order() {
    let sim = Simulation::new(6, SimConfig::default());
    let idle = sim.idle_villagers(0);
    assert_eq!(idle, owned(&sim, 0, VILLAGER));
    assert!(!idle.is_empty());
    let mut last = None;
    for id in &idle {
        if let Some(prev) = last {
            assert!(id.index() > prev);
        }
        last = Some(id.index());
    }
    assert!(sim.idle_villagers(5).is_empty());
}

#[test]
fn unknown_owners_get_neutral_modifiers() {
    let sim = Simulation::new(6, SimConfig::default());
    assert_eq!(sim.modifiers(200), Modifiers::default());
    assert_eq!(sim.modifiers(0), sim.player(0).unwrap().modifiers);
}

#[test]
fn a_generated_map_is_populated_in_order() {
    let spec = MapSpec::default();
    let generated = sim::mapgen::generate(5, &spec);
    let spawns = generated.spawns.clone();
    let (w, h) = (generated.tiles.width(), generated.tiles.height());
    let sim = Simulation::from_generated(5, SimConfig::default(), generated);
    let n = spawns.len().min(4000);
    assert_eq!(sim.world().capacity(), n);
    for (k, s) in spawns.iter().take(n).enumerate() {
        assert!(sim.world().live_at(k));
        assert_eq!(sim.world().kind_at(k), s.kind);
        assert_eq!(sim.world().owner_at(k), s.owner);
        let p = sim.world().pos_at(k);
        assert_eq!(p.x.0, s.pos.x.0.clamp(0, w * 65536 - 1));
        assert_eq!(p.y.0, s.pos.y.0.clamp(0, h * 65536 - 1));
    }
    let capped = Simulation::from_generated(
        5,
        SimConfig {
            max_entities: 10,
            ..SimConfig::default()
        },
        sim::mapgen::generate(5, &spec),
    );
    assert_eq!(capped.world().len(), 10.min(spawns.len()));
    assert_eq!(capped.world().kind_at(0), spawns[0].kind);
}
