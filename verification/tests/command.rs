use sim::command::{Command, CommandKind, CommandQueue, PlayerId};
use sim::entity::EntityId;
use sim::hash::StateHasher;
use sim::kinds::KindId;
use sim::orders::Rally;
use sim::vec2::Vec2Fx;

fn stop(player: PlayerId) -> Command {
    Command {
        player,
        kind: CommandKind::Stop { ids: vec![] },
    }
}

#[test]
fn executes_after_delay() {
    let mut q = CommandQueue::new();
    let exec = q.schedule(10, stop(0));
    assert_eq!(exec, 12);
    assert!(q.drain_due(11).is_empty());
    assert_eq!(q.pending_len(), 1);
    assert_eq!(q.drain_due(12).len(), 1);
    assert_eq!(q.pending_len(), 0);
}

#[test]
fn canonical_order_within_a_tick() {
    let mut q = CommandQueue::new();
    // Arrival order: p2, p0, p2, p1. Execution order must be p0, p1, p2, p2.
    q.schedule_at(5, stop(2));
    q.schedule_at(5, stop(0));
    q.schedule_at(5, stop(2));
    q.schedule_at(5, stop(1));
    let players: Vec<_> = q.drain_due(5).into_iter().map(|c| c.player).collect();
    assert_eq!(players, vec![0, 1, 2, 2]);
}

#[test]
fn same_player_keeps_issue_order() {
    let mut q = CommandQueue::new();
    let mk = |k: KindId| Command {
        player: 0,
        kind: CommandKind::Spawn {
            kind: k,
            pos: Vec2Fx::ZERO(),
        },
    };
    q.schedule_at(3, mk(7));
    q.schedule_at(3, mk(8));
    q.schedule_at(3, mk(9));
    let kinds: Vec<_> = q
        .drain_due(3)
        .into_iter()
        .map(|c| match c.kind {
            CommandKind::Spawn { kind, .. } => kind,
            _ => unreachable!(),
        })
        .collect();
    assert_eq!(kinds, vec![7, 8, 9]);
}

/// The lockstep guarantee, in one test: the order commands *arrive* in
/// must not survive into the queue at all. Two peers whose packets
/// interleaved differently hold byte-identical queues and therefore agree
/// on the state hash before the commands have executed.
#[test]
fn arrival_order_does_not_reach_the_queue() {
    let mk = |player: PlayerId, kind: KindId| Command {
        player,
        kind: CommandKind::Spawn {
            kind,
            pos: Vec2Fx::ZERO(),
        },
    };
    // The same commands per player, four different arrival interleavings.
    let orders: [[(PlayerId, KindId); 6]; 4] = [
        [(0, 1), (0, 2), (1, 1), (1, 2), (2, 1), (2, 2)],
        [(2, 1), (1, 1), (0, 1), (2, 2), (1, 2), (0, 2)],
        [(1, 1), (2, 1), (2, 2), (0, 1), (0, 2), (1, 2)],
        [(0, 1), (1, 1), (2, 1), (0, 2), (1, 2), (2, 2)],
    ];
    let mut reference: Option<(u64, Vec<(PlayerId, KindId)>)> = None;
    for order in orders {
        let mut q = CommandQueue::new();
        for (player, kind) in order {
            q.schedule_at(5, mk(player, kind));
        }
        let mut h = StateHasher::new();
        h.write(&q);
        let hash = h.finish();
        let drained: Vec<_> = q
            .drain_due(5)
            .into_iter()
            .map(|c| match c.kind {
                CommandKind::Spawn { kind, .. } => (c.player, kind),
                _ => unreachable!(),
            })
            .collect();
        match &reference {
            None => reference = Some((hash, drained)),
            Some((h0, d0)) => {
                assert_eq!(&drained, d0, "execution order depended on arrival order");
                assert_eq!(hash, *h0, "queue hash depended on arrival order");
            }
        }
    }
    let (_, drained) = reference.unwrap();
    assert_eq!(
        drained,
        vec![(0, 1), (0, 2), (1, 1), (1, 2), (2, 1), (2, 2)]
    );
}

// REQ: TA-DET-02
/// The hash fed only `pending_len()`, so two simulations holding
/// different pending orders agreed for two ticks and then diverged with
/// no attributable cause.
#[test]
fn queue_hash_covers_contents_not_just_length() {
    let hash = |c: Command, tick: u64| {
        let mut q = CommandQueue::new();
        q.schedule_at(tick, c);
        let mut h = StateHasher::new();
        h.write(&q);
        h.finish()
    };
    let spawn = |k: KindId| Command {
        player: 0,
        kind: CommandKind::Spawn {
            kind: k,
            pos: Vec2Fx::ZERO(),
        },
    };
    // Same count, different payload.
    assert_ne!(hash(spawn(1), 5), hash(spawn(2), 5));
    // Same count and payload, different execution tick.
    assert_ne!(hash(spawn(1), 5), hash(spawn(1), 6));
    // Same count, different player.
    assert_ne!(
        hash(stop(0), 5),
        hash(
            Command {
                player: 1,
                kind: CommandKind::Stop { ids: vec![] }
            },
            5
        )
    );
    // Every variant must be distinguishable from every other, or a
    // command could be swapped for a different one without the hash
    // noticing.
    let id = EntityId::from_parts(3, 1);
    let variants = [
        CommandKind::Spawn {
            kind: 1,
            pos: Vec2Fx::ZERO(),
        },
        CommandKind::Despawn { id },
        CommandKind::Move {
            ids: vec![id],
            target: Vec2Fx::ZERO(),
        },
        CommandKind::Stop { ids: vec![id] },
        CommandKind::Gather {
            ids: vec![id],
            node: id,
        },
        CommandKind::Build {
            kind: 1,
            x: 0,
            y: 0,
            ids: vec![id],
        },
        CommandKind::Assist {
            ids: vec![id],
            site: id,
        },
        CommandKind::Train {
            building: id,
            kind: 1,
        },
        CommandKind::CancelTrain { building: id },
        CommandKind::SetRally {
            building: id,
            rally: Rally::Nowhere,
        },
    ];
    let mut seen = Vec::new();
    for kind in variants {
        let h = hash(Command { player: 0, kind }, 1);
        assert!(!seen.contains(&h), "two command variants hash the same");
        seen.push(h);
    }
}

// REQ: TA-CMD-02
/// `drain_due(u64::MAX)` is how a caller says "everything". It panicked
/// in debug and, in release, returned nothing while leaving the commands
/// queued — the quietest possible way to lose a player's orders.
#[test]
fn draining_at_the_maximum_tick_takes_everything() {
    let mut q = CommandQueue::new();
    q.schedule_at(0, stop(0));
    q.schedule_at(u64::MAX, stop(1));
    assert_eq!(q.drain_due(u64::MAX).len(), 2);
    assert_eq!(q.pending_len(), 0);
}

/// The delay is added to the issue tick, so a match reaching the end of
/// the tick counter must not take the process down with it.
#[test]
fn scheduling_near_the_tick_ceiling_does_not_overflow() {
    let mut q = CommandQueue::new();
    assert_eq!(q.schedule(u64::MAX - 1, stop(0)), u64::MAX);
    assert_eq!(q.drain_due(u64::MAX).len(), 1);
}

#[test]
fn drains_overdue_ticks_too_in_tick_order() {
    let mut q = CommandQueue::new();
    q.schedule_at(9, stop(1));
    q.schedule_at(7, stop(0));
    q.schedule_at(20, stop(0));
    let players: Vec<_> = q.drain_due(9).into_iter().map(|c| c.player).collect();
    assert_eq!(players, vec![0, 1]);
    assert_eq!(q.pending_len(), 1);
}
