use sim::command::{Command, CommandKind};
use sim::entity::EntityId;
use sim::kinds::{HOUSE, VILLAGER};
use sim::orders::Order;
use sim::simulation::{SimConfig, Simulation};

fn owned_of(sim: &Simulation, p: u8, kind: u16) -> Vec<EntityId> {
    let w = sim.world();
    w.slots()
        .into_iter()
        .filter(|s| w.owner_at(s.index()) == p && w.kind_at(s.index()) == kind)
        .map(|s| w.id_at(s))
        .collect()
}

#[test]
fn a_site_nobody_works_at_does_not_advance() {
    let mut sim = Simulation::new(9, SimConfig::default());
    let (sx, sy) = sim.starts()[0];
    let vs = owned_of(&sim, 0, VILLAGER);
    sim.apply(Command { player: 0, kind: CommandKind::Build { kind: HOUSE, x: sx + 4, y: sy, ids: vec![vs[0]] } });
    let site = *owned_of(&sim, 0, HOUSE).last().unwrap();
    let hash = sim.state_hash();
    sim.construction();
    // The villager is on its way, not working yet: nothing is built.
    assert_eq!(sim.world().construction_at(site.index()), Some(0));
    assert_eq!(sim.world().order_at(vs[0].index()), Order::Build { site, working: false });
    assert_eq!(sim.state_hash(), hash);
}

#[test]
fn full_farms_cost_nothing() {
    let mut sim = Simulation::new(9, SimConfig::default());
    let before: Vec<[i32; 4]> = sim.players().iter().map(|p| p.stockpile).collect();
    let hash = sim.state_hash();
    sim.farms();
    let after: Vec<[i32; 4]> = sim.players().iter().map(|p| p.stockpile).collect();
    assert_eq!(before, after);
    assert_eq!(sim.state_hash(), hash);
}

#[test]
fn keeping_off_blocked_tiles_settles_at_once() {
    let mut sim = Simulation::new(9, SimConfig::default());
    sim.keep_off_blocked();
    let once = sim.state_hash();
    // Every villager of a fresh match stands on an open tile.
    for v in owned_of(&sim, 0, VILLAGER) {
        let p = sim.world().pos_at(v.index());
        let t = sim::nav::tile_of(p);
        assert!(sim.nav().passable(t.0, t.1));
    }
    sim.keep_off_blocked();
    assert_eq!(sim.state_hash(), once);
}

#[test]
fn animals_roll_once_each_and_step_at_most_three_tiles() {
    let mut sim = Simulation::new(9, SimConfig::default());
    let w = sim.world();
    let animals: Vec<usize> = w
        .slots()
        .into_iter()
        .map(|s| s.index())
        .filter(|&i| {
            w.owner_at(i) == sim::kinds::GAIA && sim::kinds::info(w.kind_at(i)).mobile && w.move_target_at(i).is_none()
        })
        .collect();
    let before = sim.rng_draws();
    sim.wander();
    let drawn = sim.rng_draws() - before;
    assert!(drawn >= animals.len() as u64);
    assert!(drawn <= 3 * animals.len() as u64);
    let mut moved = 0u64;
    for &i in &animals {
        if let Some(t) = sim.world().move_target_at(i) {
            moved += 1;
            let p = sim.world().pos_at(i);
            let (a, b) = (sim::nav::tile_of(p), sim::nav::tile_of(t));
            assert!((a.0 - b.0).abs() <= 4 && (a.1 - b.1).abs() <= 4);
        }
    }
    // Each animal that set off drew two more numbers.
    assert!(drawn >= animals.len() as u64 + 2 * moved);
}

#[test]
fn no_wandering_when_switched_off() {
    let config = SimConfig { wander: false, ..SimConfig::default() };
    let mut sim = Simulation::new(9, config);
    let hash = sim.state_hash();
    let draws = sim.rng_draws();
    sim.wander();
    assert_eq!(sim.state_hash(), hash);
    assert_eq!(sim.rng_draws(), draws);
}

#[test]
fn commands_wait_in_the_queue_until_due() {
    let mut sim = Simulation::new(9, SimConfig::default());
    let vs = owned_of(&sim, 0, VILLAGER);
    let (sx, sy) = sim.starts()[0];
    let at = sim.issue(Command {
        player: 0,
        kind: CommandKind::Move { ids: vs.clone(), target: sim::vec2::Vec2Fx::from_int(sx + 5, sy) },
    });
    assert!(at > sim.tick());
    let hash = sim.state_hash();
    sim.apply_commands();
    assert_eq!(sim.state_hash(), hash);
    for v in &vs {
        assert_eq!(sim.world().order_at(v.index()), Order::Idle);
    }
}
