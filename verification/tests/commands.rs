use sim::command::{Command, CommandKind};
use sim::entity::EntityId;
use sim::kinds::{info, HOUSE, TOWN_CENTER, VILLAGER};
use sim::mapgen::{MapKind, MapSpec};
use sim::orders::{Item, Order};
use sim::simulation::{SimConfig, Simulation};
use sim::vec2::Vec2Fx;
use sim::Fx;

fn owned(sim: &Simulation, p: u8, kind: u16) -> Vec<EntityId> {
    let w = sim.world();
    w.slots()
        .into_iter()
        .filter(|s| w.owner_at(s.index()) == p && w.kind_at(s.index()) == kind)
        .map(|s| w.id_at(s))
        .collect()
}

fn cmd(player: u8, kind: CommandKind) -> Command {
    Command { player, kind }
}

#[test]
fn stop_idles_what_a_move_set_walking() {
    let mut sim = Simulation::new(6, SimConfig::default());
    let vs = owned(&sim, 0, VILLAGER);
    let (sx, sy) = sim.starts()[0];
    sim.apply(cmd(0, CommandKind::Move { ids: vs.clone(), target: Vec2Fx::from_int(sx + 6, sy + 6) }));
    for v in &vs {
        assert!(matches!(sim.world().order_at(v.index()), Order::Move { .. }));
        assert!(sim.world().nav_at(v.index()).is_some());
    }
    // Spread: no two units go to the same spot.
    let a = sim.world().order_at(vs[0].index());
    let b = sim.world().order_at(vs[1].index());
    assert_ne!(a, b);
    sim.apply(cmd(0, CommandKind::Stop { ids: vs.clone() }));
    for v in &vs {
        assert_eq!(sim.world().order_at(v.index()), Order::Idle);
        assert!(sim.world().nav_at(v.index()).is_none());
    }
    // Another player's units are not theirs to stop.
    sim.apply(cmd(0, CommandKind::Move { ids: vs.clone(), target: Vec2Fx::from_int(sx, sy) }));
    sim.apply(cmd(1, CommandKind::Stop { ids: vs.clone() }));
    assert!(matches!(sim.world().order_at(vs[0].index()), Order::Move { .. }));
}

#[test]
fn training_pays_on_queueing_and_cancelling_refunds() {
    let mut sim = Simulation::new(6, SimConfig::default());
    let tc = owned(&sim, 0, TOWN_CENTER)[0];
    let before = sim.players()[0].stockpile;
    sim.apply(cmd(0, CommandKind::Train { building: tc, kind: VILLAGER }));
    let after = sim.players()[0].stockpile;
    assert_eq!(after[0], before[0] - info(VILLAGER).cost[0]);
    let q = sim.world().production_at(tc.index()).as_ref().unwrap();
    assert_eq!(q.queue.len(), 1);
    assert_eq!(q.queue[0].item, Item::Unit(VILLAGER));
    sim.apply(cmd(0, CommandKind::CancelTrain { building: tc }));
    assert_eq!(sim.players()[0].stockpile, before);
    assert_eq!(sim.world().production_at(tc.index()).as_ref().unwrap().queue.len(), 0);
    // A player cannot train at another's building.
    sim.apply(cmd(1, CommandKind::Train { building: tc, kind: VILLAGER }));
    assert_eq!(sim.world().production_at(tc.index()).as_ref().unwrap().queue.len(), 0);
}

#[test]
fn a_build_places_a_site_and_sends_the_villagers() {
    let mut sim = Simulation::new(6, SimConfig::default());
    let (sx, sy) = sim.starts()[0];
    let vs = owned(&sim, 0, VILLAGER);
    let before = sim.players()[0].stockpile;
    let houses = owned(&sim, 0, HOUSE).len();
    sim.apply(cmd(0, CommandKind::Build { kind: HOUSE, x: sx + 4, y: sy, ids: vec![vs[0]] }));
    let now = owned(&sim, 0, HOUSE);
    assert_eq!(now.len(), houses + 1);
    let site = *now.last().unwrap();
    assert_eq!(sim.world().construction_at(site.index()), Some(0));
    assert_eq!(sim.world().health_at(site.index()), Fx::ONE());
    assert_eq!(sim.world().order_at(vs[0].index()), Order::Build { site, working: false });
    let cost = info(HOUSE).cost;
    for j in 0..4 {
        assert_eq!(sim.players()[0].stockpile[j], before[j] - cost[j]);
    }
    // Taking the untouched site down gives the whole cost back.
    sim.apply(cmd(0, CommandKind::Despawn { id: site }));
    assert_eq!(sim.players()[0].stockpile, before);
    assert!(!sim.world().contains(site));
}

#[test]
fn a_site_that_cannot_spawn_at_the_entity_cap_is_refunded() {
    let config = SimConfig {
        map: MapSpec { kind: MapKind::Inland, size: 128, players: 2 },
        max_entities: 3,
        ..SimConfig::default()
    };
    let mut sim = Simulation::new(6, config);
    assert_eq!(sim.world().len(), 3);
    let (sx, sy) = sim.starts()[0];
    let before = sim.players()[0].stockpile;
    let count = sim.world().capacity();
    if sim.can_place(0, HOUSE, sx + 4, sy).is_ok() {
        sim.apply(cmd(0, CommandKind::Build { kind: HOUSE, x: sx + 4, y: sy, ids: vec![] }));
        assert_eq!(sim.players()[0].stockpile, before);
        assert_eq!(sim.world().capacity(), count);
        assert_eq!(sim.world().len(), 3);
    }
}

#[test]
fn auto_reseed_is_switched_per_player() {
    let mut sim = Simulation::new(6, SimConfig::default());
    let was = sim.players()[1].auto_reseed;
    sim.apply(cmd(1, CommandKind::SetAutoReseed { enabled: !was }));
    assert_eq!(sim.players()[1].auto_reseed, !was);
    sim.apply(cmd(7, CommandKind::SetAutoReseed { enabled: was }));
    assert_eq!(sim.players()[1].auto_reseed, !was);
}
