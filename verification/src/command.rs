//! Commands: the only way anything outside the simulation changes it.
//!
//! A command is issued at one tick and **executed two ticks later**
//! ([`COMMAND_DELAY`]). Within a tick, commands execute in
//! `(player, sequence)` order, never in arrival order, so the result does
//! not depend on which peer's packet came first.

use vstd::prelude::*;
use crate::entity::{EntityId, id_bytes};
use crate::hash::{HashState, StateHasher, fnv, le16, le32, le64, le_i32, seq_bytes, lemma_fnv_append};
use crate::orders::{Rally, rally_bytes};
use crate::vec2::Vec2Fx;
use crate::fx::dec_digits;
use crate::text::push_unsigned;

verus! {

/// A player index, `0..MAX_PLAYERS`.
pub type PlayerId = u8;
/// Maximum players in a match.
pub const MAX_PLAYERS: usize = 8;
/// Ticks between issuing a command and executing it.
pub const COMMAND_DELAY: u64 = 2;
/// Largest entity list a single command may name.
///
/// A command is something read off disk and off the network, so it needs a
/// bound that corrupt or hostile input cannot exceed.
pub const MAX_COMMAND_IDS: usize = 8192;

/// What a command asks the simulation to do.
#[derive(PartialEq, Eq, Debug)]
pub enum CommandKind {
    /// Create an entity of `kind` at `pos` owned by the issuing player,
    /// free of charge. For tests, scenarios and cheats.
    Spawn {
        /// Static data index.
        kind: u16,
        /// Tile position.
        pos: Vec2Fx,
    },
    /// Remove an entity. Ignored if it is not the issuer's or is already gone.
    Despawn {
        /// Which entity.
        id: EntityId,
    },
    /// Walk the listed entities to `target`, spreading over nearby tiles.
    Move {
        /// Which entities; stale or foreign handles are skipped.
        ids: Vec<EntityId>,
        /// Destination in tiles.
        target: Vec2Fx,
    },
    /// Cancel whatever the listed entities are doing.
    Stop {
        /// Which entities.
        ids: Vec<EntityId>,
    },
    /// Send villagers to gather from a node.
    Gather {
        /// Villagers.
        ids: Vec<EntityId>,
        /// A tree, bush or vein.
        node: EntityId,
    },
    /// Place a building and send villagers to construct it. The cost is
    /// paid when the site is placed.
    Build {
        /// What to build.
        kind: u16,
        /// Tile the footprint is centred on.
        x: i32,
        /// Tile the footprint is centred on.
        y: i32,
        /// Villagers to send; may be empty.
        ids: Vec<EntityId>,
    },
    /// Send villagers to help finish a site that already exists.
    Assist {
        /// Villagers.
        ids: Vec<EntityId>,
        /// The site.
        site: EntityId,
    },
    /// Queue a unit at a building. The cost is paid on queueing.
    Train {
        /// The building.
        building: EntityId,
        /// The unit kind.
        kind: u16,
    },
    /// Remove the last queued item of a kind and refund it.
    CancelTrain {
        /// The building.
        building: EntityId,
    },
    /// Set where a building's produced units go.
    SetRally {
        /// The building.
        building: EntityId,
        /// Destination.
        rally: Rally,
    },
    /// Queue a technology at a building. The cost is paid on queueing.
    Research {
        /// The building.
        building: EntityId,
        /// The technology.
        tech: u16,
    },
    /// Whether the player's exhausted farms are reseeded automatically.
    SetAutoReseed {
        /// On or off.
        enabled: bool,
    },
}

/// A command with its issuing player.
#[derive(PartialEq, Eq, Debug)]
pub struct Command {
    /// The player issuing it. Entities it names must belong to this player.
    pub player: PlayerId,
    /// The request.
    pub kind: CommandKind,
}

/// Two requests ask for the same thing: the same variant with the same
/// fields, entity lists equal element by element.
pub open spec fn same_kind(a: CommandKind, b: CommandKind) -> bool {
    match (a, b) {
        (CommandKind::Spawn { kind: k1, pos: p1 }, CommandKind::Spawn { kind: k2, pos: p2 }) => k1 == k2 && p1 == p2,
        (CommandKind::Despawn { id: i1 }, CommandKind::Despawn { id: i2 }) => i1 == i2,
        (CommandKind::Move { ids: i1, target: t1 }, CommandKind::Move { ids: i2, target: t2 }) => i1@ == i2@ && t1 == t2,
        (CommandKind::Stop { ids: i1 }, CommandKind::Stop { ids: i2 }) => i1@ == i2@,
        (CommandKind::Gather { ids: i1, node: n1 }, CommandKind::Gather { ids: i2, node: n2 }) => i1@ == i2@ && n1 == n2,
        (CommandKind::Build { kind: k1, x: x1, y: y1, ids: i1 }, CommandKind::Build { kind: k2, x: x2, y: y2, ids: i2 }) =>
            k1 == k2 && x1 == x2 && y1 == y2 && i1@ == i2@,
        (CommandKind::Assist { ids: i1, site: s1 }, CommandKind::Assist { ids: i2, site: s2 }) => i1@ == i2@ && s1 == s2,
        (CommandKind::Train { building: b1, kind: k1 }, CommandKind::Train { building: b2, kind: k2 }) => b1 == b2 && k1 == k2,
        (CommandKind::CancelTrain { building: b1 }, CommandKind::CancelTrain { building: b2 }) => b1 == b2,
        (CommandKind::SetRally { building: b1, rally: r1 }, CommandKind::SetRally { building: b2, rally: r2 }) => b1 == b2 && r1 == r2,
        (CommandKind::Research { building: b1, tech: t1 }, CommandKind::Research { building: b2, tech: t2 }) => b1 == b2 && t1 == t2,
        (CommandKind::SetAutoReseed { enabled: e1 }, CommandKind::SetAutoReseed { enabled: e2 }) => e1 == e2,
        _ => false,
    }
}

/// Two commands are the same request from the same player.
pub open spec fn same_command(a: Command, b: Command) -> bool {
    a.player == b.player && same_kind(a.kind, b.kind)
}

/// A copy of an entity list.
fn copy_ids(v: &Vec<EntityId>) -> (r: Vec<EntityId>)
    ensures
        r@ == v@,
{
    let mut r: Vec<EntityId> = Vec::new();
    let mut i: usize = 0;
    while i < v.len()
        invariant
            i <= v@.len(),
            r@ == v@.take(i as int),
        decreases v.len() - i,
    {
        r.push(v[i]);
        i = i + 1;
        assert(r@ =~= v@.take(i as int));
    }
    assert(r@ =~= v@);
    r
}

impl Clone for CommandKind {
    fn clone(&self) -> (r: CommandKind)
        ensures
            same_kind(r, *self),
    {
        match self {
            CommandKind::Spawn { kind, pos } => CommandKind::Spawn { kind: *kind, pos: *pos },
            CommandKind::Despawn { id } => CommandKind::Despawn { id: *id },
            CommandKind::Move { ids, target } => CommandKind::Move { ids: copy_ids(ids), target: *target },
            CommandKind::Stop { ids } => CommandKind::Stop { ids: copy_ids(ids) },
            CommandKind::Gather { ids, node } => CommandKind::Gather { ids: copy_ids(ids), node: *node },
            CommandKind::Build { kind, x, y, ids } => CommandKind::Build { kind: *kind, x: *x, y: *y, ids: copy_ids(ids) },
            CommandKind::Assist { ids, site } => CommandKind::Assist { ids: copy_ids(ids), site: *site },
            CommandKind::Train { building, kind } => CommandKind::Train { building: *building, kind: *kind },
            CommandKind::CancelTrain { building } => CommandKind::CancelTrain { building: *building },
            CommandKind::SetRally { building, rally } => CommandKind::SetRally { building: *building, rally: *rally },
            CommandKind::Research { building, tech } => CommandKind::Research { building: *building, tech: *tech },
            CommandKind::SetAutoReseed { enabled } => CommandKind::SetAutoReseed { enabled: *enabled },
        }
    }
}

impl Clone for Command {
    fn clone(&self) -> (r: Command)
        ensures
            same_command(r, *self),
    {
        Command { player: self.player, kind: self.kind.clone() }
    }
}

/// Why a command was rejected as malformed.
#[derive(Clone, Copy, PartialEq, Eq, Structural, Debug)]
pub enum CommandError {
    /// `player` is not a valid player index.
    PlayerOutOfRange {
        /// The offending index.
        player: PlayerId,
    },
    /// The entity list exceeds [`MAX_COMMAND_IDS`].
    TooManyIds {
        /// How many were named.
        len: usize,
    },
}

/// What a malformed command's error reads as.
pub open spec fn command_error_text(e: CommandError) -> Seq<char> {
    match e {
        CommandError::PlayerOutOfRange { player } => "player "@ + dec_digits(player as nat) + " is not in 0.."@ + dec_digits(
            8,
        ),
        CommandError::TooManyIds { len } => "command names "@ + dec_digits(len as nat) + " entities, limit is "@
            + dec_digits(8192),
    }
}

impl CommandError {
    /// The error in words, with the limit it broke.
    pub fn to_string(&self) -> (r: String)
        ensures
            r@ == command_error_text(*self),
    {
        let mut s = String::new();
        match *self {
            CommandError::PlayerOutOfRange { player } => {
                s.append("player ");
                push_unsigned(&mut s, player as u64);
                s.append(" is not in 0..");
                push_unsigned(&mut s, MAX_PLAYERS as u64);
            },
            CommandError::TooManyIds { len } => {
                s.append("command names ");
                push_unsigned(&mut s, len as u64);
                s.append(" entities, limit is ");
                push_unsigned(&mut s, MAX_COMMAND_IDS as u64);
            },
        }
        proof {
            assert(s@ =~= command_error_text(*self));
        }
        s
    }
}

/// How many entities a command names: the length of its entity list, or 0
/// for a command that has none.
pub open spec fn named_ids(k: CommandKind) -> int {
    match k {
        CommandKind::Move { ids, .. } => ids@.len() as int,
        CommandKind::Stop { ids } => ids@.len() as int,
        CommandKind::Gather { ids, .. } => ids@.len() as int,
        CommandKind::Build { ids, .. } => ids@.len() as int,
        CommandKind::Assist { ids, .. } => ids@.len() as int,
        _ => 0,
    }
}

impl Command {
    /// Checks that this command is structurally sound: a valid player and
    /// no more than [`MAX_COMMAND_IDS`] entities named.
    ///
    /// Only the structural bound. Whether the player owns what it names is
    /// checked when the command executes, because ownership can change
    /// between issue and execution.
    pub fn validate(&self) -> (r: Result<(), CommandError>)
        ensures
            r is Ok <==> (self.player < MAX_PLAYERS && named_ids(self.kind) <= MAX_COMMAND_IDS),
            (r == Err::<(), CommandError>(CommandError::PlayerOutOfRange { player: self.player })) <==> self.player >= MAX_PLAYERS,
            (r == Err::<(), CommandError>(CommandError::TooManyIds { len: named_ids(self.kind) as usize })) <==> (self.player < MAX_PLAYERS
                && named_ids(self.kind) > MAX_COMMAND_IDS),
    {
        if self.player as usize >= MAX_PLAYERS {
            return Err(CommandError::PlayerOutOfRange { player: self.player });
        }
        let named = match &self.kind {
            CommandKind::Move { ids, .. } => ids.len(),
            CommandKind::Stop { ids } => ids.len(),
            CommandKind::Gather { ids, .. } => ids.len(),
            CommandKind::Build { ids, .. } => ids.len(),
            CommandKind::Assist { ids, .. } => ids.len(),
            _ => 0,
        };
        if named > MAX_COMMAND_IDS {
            return Err(CommandError::TooManyIds { len: named });
        }
        Ok(())
    }
}

/// The bytes of a command's request: the variant tag first, then the
/// payload. The tag is written even where the payload would tell variants
/// apart, so adding a variant cannot collide with an existing one.
pub open spec fn kind_bytes(k: CommandKind) -> Seq<u8> {
    match k {
        CommandKind::Spawn { kind, pos } => seq![0u8] + le16(kind) + pos.state_bytes(),
        CommandKind::Despawn { id } => seq![1u8] + id_bytes(id),
        CommandKind::Move { ids, target } => seq![2u8] + seq_bytes(ids@) + target.state_bytes(),
        CommandKind::Stop { ids } => seq![3u8] + seq_bytes(ids@),
        CommandKind::Gather { ids, node } => seq![4u8] + seq_bytes(ids@) + id_bytes(node),
        CommandKind::Build { kind, x, y, ids } => seq![5u8] + le16(kind) + le_i32(x) + le_i32(y) + seq_bytes(ids@),
        CommandKind::Assist { ids, site } => seq![6u8] + seq_bytes(ids@) + id_bytes(site),
        CommandKind::Train { building, kind } => seq![7u8] + id_bytes(building) + le16(kind),
        CommandKind::CancelTrain { building } => seq![8u8] + id_bytes(building),
        CommandKind::SetRally { building, rally } => seq![9u8] + id_bytes(building) + rally_bytes(rally),
        CommandKind::Research { building, tech } => seq![10u8] + id_bytes(building) + le16(tech),
        CommandKind::SetAutoReseed { enabled } => seq![11u8] + seq![if enabled { 1u8 } else { 0u8 }],
    }
}

impl HashState for CommandKind {
    open spec fn state_bytes(&self) -> Seq<u8> {
        kind_bytes(*self)
    }

    fn hash_state(&self, h: &mut StateHasher) {
        let ghost h0 = h@;
        match self {
            CommandKind::Spawn { kind, pos } => {
                h.write_u8(0);
                h.write_u16(*kind);
                proof { lemma_fnv_append(h0, seq![0u8], le16(*kind)); }
                h.write(pos);
                proof { lemma_fnv_append(h0, seq![0u8] + le16(*kind), pos.state_bytes()); }
            },
            CommandKind::Despawn { id } => {
                h.write_u8(1);
                h.write(id);
                proof { lemma_fnv_append(h0, seq![1u8], id_bytes(*id)); }
            },
            CommandKind::Move { ids, target } => {
                h.write_u8(2);
                h.write(ids);
                proof { lemma_fnv_append(h0, seq![2u8], seq_bytes(ids@)); }
                h.write(target);
                proof { lemma_fnv_append(h0, seq![2u8] + seq_bytes(ids@), target.state_bytes()); }
            },
            CommandKind::Stop { ids } => {
                h.write_u8(3);
                h.write(ids);
                proof { lemma_fnv_append(h0, seq![3u8], seq_bytes(ids@)); }
            },
            CommandKind::Gather { ids, node } => {
                h.write_u8(4);
                h.write(ids);
                proof { lemma_fnv_append(h0, seq![4u8], seq_bytes(ids@)); }
                h.write(node);
                proof { lemma_fnv_append(h0, seq![4u8] + seq_bytes(ids@), id_bytes(*node)); }
            },
            CommandKind::Build { kind, x, y, ids } => {
                h.write_u8(5);
                h.write_u16(*kind);
                proof { lemma_fnv_append(h0, seq![5u8], le16(*kind)); }
                h.write_i32(*x);
                proof { lemma_fnv_append(h0, seq![5u8] + le16(*kind), le_i32(*x)); }
                h.write_i32(*y);
                proof { lemma_fnv_append(h0, seq![5u8] + le16(*kind) + le_i32(*x), le_i32(*y)); }
                h.write(ids);
                proof {
                    lemma_fnv_append(h0, seq![5u8] + le16(*kind) + le_i32(*x) + le_i32(*y), seq_bytes(ids@));
                }
            },
            CommandKind::Assist { ids, site } => {
                h.write_u8(6);
                h.write(ids);
                proof { lemma_fnv_append(h0, seq![6u8], seq_bytes(ids@)); }
                h.write(site);
                proof { lemma_fnv_append(h0, seq![6u8] + seq_bytes(ids@), id_bytes(*site)); }
            },
            CommandKind::Train { building, kind } => {
                h.write_u8(7);
                h.write(building);
                proof { lemma_fnv_append(h0, seq![7u8], id_bytes(*building)); }
                h.write_u16(*kind);
                proof { lemma_fnv_append(h0, seq![7u8] + id_bytes(*building), le16(*kind)); }
            },
            CommandKind::CancelTrain { building } => {
                h.write_u8(8);
                h.write(building);
                proof { lemma_fnv_append(h0, seq![8u8], id_bytes(*building)); }
            },
            CommandKind::SetRally { building, rally } => {
                h.write_u8(9);
                h.write(building);
                proof { lemma_fnv_append(h0, seq![9u8], id_bytes(*building)); }
                h.write(rally);
                proof { lemma_fnv_append(h0, seq![9u8] + id_bytes(*building), rally_bytes(*rally)); }
            },
            CommandKind::Research { building, tech } => {
                h.write_u8(10);
                h.write(building);
                proof { lemma_fnv_append(h0, seq![10u8], id_bytes(*building)); }
                h.write_u16(*tech);
                proof { lemma_fnv_append(h0, seq![10u8] + id_bytes(*building), le16(*tech)); }
            },
            CommandKind::SetAutoReseed { enabled } => {
                h.write_u8(11);
                let b: u8 = if *enabled { 1 } else { 0 };
                h.write_u8(b);
                proof { lemma_fnv_append(h0, seq![11u8], seq![b]); }
            },
        }
    }
}

/// The bytes of a command: the player, then the request.
pub open spec fn command_bytes(c: Command) -> Seq<u8> {
    seq![c.player] + kind_bytes(c.kind)
}

impl HashState for Command {
    open spec fn state_bytes(&self) -> Seq<u8> {
        command_bytes(*self)
    }

    fn hash_state(&self, h: &mut StateHasher) {
        let ghost h0 = h@;
        h.write_u8(self.player);
        h.write(&self.kind);
        proof {
            lemma_fnv_append(h0, seq![self.player], kind_bytes(self.kind));
        }
    }
}

/// A command with the per-player sequence number it was given on arrival.
#[derive(Clone, PartialEq, Eq, Debug)]
pub struct Scheduled {
    /// The issuing player's count of commands scheduled before this one.
    pub seq: u32,
    /// The command.
    pub command: Command,
}

/// `a` comes before `b` within a tick: by player, then by sequence.
pub open spec fn key_lt(a: Scheduled, b: Scheduled) -> bool {
    a.command.player < b.command.player || (a.command.player == b.command.player && a.seq < b.seq)
}

impl Scheduled {
    /// True if this one executes before `other` within a tick.
    fn before(&self, other: &Scheduled) -> (r: bool)
        ensures
            r == key_lt(*self, *other),
    {
        self.command.player < other.command.player || (self.command.player == other.command.player
            && self.seq < other.seq)
    }
}

/// The bytes of a scheduled command: its sequence number, then the command.
pub open spec fn scheduled_bytes(s: Scheduled) -> Seq<u8> {
    le32(s.seq) + command_bytes(s.command)
}

impl HashState for Scheduled {
    open spec fn state_bytes(&self) -> Seq<u8> {
        scheduled_bytes(*self)
    }

    fn hash_state(&self, h: &mut StateHasher) {
        let ghost h0 = h@;
        h.write_u32(self.seq);
        h.write(&self.command);
        proof {
            lemma_fnv_append(h0, le32(self.seq), command_bytes(self.command));
        }
    }
}

/// The commands due at one tick, in canonical order.
#[derive(Clone, PartialEq, Eq, Debug)]
struct Batch {
    tick: u64,
    items: Vec<Scheduled>,
}

/// Commands waiting for their execution tick.
#[derive(Clone, PartialEq, Eq, Debug)]
pub struct CommandQueue {
    /// One batch per tick that has commands, ascending by tick.
    pending: Vec<Batch>,
    /// Per player, the sequence number the next command gets.
    next_seq: [u32; 8],
}

/// Within a batch, each command is at or after the one before it.
pub open spec fn canonical(items: Seq<Scheduled>) -> bool {
    forall|a: int, b: int| 0 <= a < b < items.len() ==> !key_lt(#[trigger] items[b], #[trigger] items[a])
}

/// The commands of a run of batches, in order.
pub open spec fn commands_of(bs: Seq<(u64, Seq<Scheduled>)>) -> Seq<Command>
    decreases bs.len(),
{
    if bs.len() == 0 {
        Seq::empty()
    } else {
        commands_of(bs.drop_last()) + bs.last().1.map_values(|s: Scheduled| s.command)
    }
}

/// How many commands a run of batches holds.
pub open spec fn count_of(bs: Seq<(u64, Seq<Scheduled>)>) -> nat
    decreases bs.len(),
{
    if bs.len() == 0 {
        0
    } else {
        count_of(bs.drop_last()) + bs.last().1.len()
    }
}

/// `s` goes into the commands of a batch at position `p`: after every
/// command it comes after, before every other.
pub open spec fn fits_at(items: Seq<Scheduled>, s: Scheduled, p: int) -> bool {
    &&& 0 <= p <= items.len()
    &&& forall|j: int| 0 <= j < p ==> key_lt(#[trigger] items[j], s)
    &&& forall|j: int| p <= j < items.len() ==> !key_lt(#[trigger] items[j], s)
}

/// `b` is the first batch whose tick is not below `tick`.
pub open spec fn batch_slot(bs: Seq<(u64, Seq<Scheduled>)>, tick: u64, b: int) -> bool {
    &&& 0 <= b <= bs.len()
    &&& forall|j: int| 0 <= j < b ==> #[trigger] bs[j].0 < tick
    &&& b < bs.len() ==> bs[b].0 >= tick
}

/// `result` is `bs` with `s` scheduled at `tick`, using batch slot `b` and,
/// when that batch already exists, position `p` within it.
pub open spec fn scheduled_at_slot(bs: Seq<(u64, Seq<Scheduled>)>, tick: u64, s: Scheduled, result: Seq<(u64, Seq<Scheduled>)>, b: int, p: int) -> bool {
    &&& batch_slot(bs, tick, b)
    &&& if b < bs.len() && bs[b].0 == tick {
        fits_at(bs[b].1, s, p) && result == bs.update(b, (tick, bs[b].1.insert(p, s)))
    } else {
        result == bs.insert(b, (tick, seq![s]))
    }
}

/// The queue after `s` is scheduled at `tick`: into the batch for that tick
/// just before the first command it does not come after, or into a new
/// batch placed in tick order. On a well-formed queue the slot and the
/// position are unique, so this names exactly one result.
pub open spec fn scheduled_into(bs: Seq<(u64, Seq<Scheduled>)>, tick: u64, s: Scheduled, result: Seq<(u64, Seq<Scheduled>)>) -> bool {
    exists|b: int, p: int| scheduled_at_slot(bs, tick, s, result, b, p)
}

impl CommandQueue {
    /// The pending batches, ascending by tick, each with its commands in
    /// execution order.
    pub closed spec fn batches(&self) -> Seq<(u64, Seq<Scheduled>)> {
        self.pending@.map_values(|b: Batch| (b.tick, b.items@))
    }

    /// Per player, the sequence number the next command gets.
    pub closed spec fn seqs(&self) -> Seq<u32> {
        self.next_seq@
    }

    /// Ticks ascend strictly, no batch is empty, every batch is in
    /// canonical order, and every command names a valid player.
    pub open spec fn wf(&self) -> bool {
        let bs = self.batches();
        &&& forall|a: int, b: int| 0 <= a < b < bs.len() ==> #[trigger] bs[a].0 < #[trigger] bs[b].0
        &&& forall|a: int| 0 <= a < bs.len() ==> #[trigger] bs[a].1.len() > 0 && canonical(bs[a].1)
        &&& forall|a: int, k: int| 0 <= a < bs.len() && 0 <= k < bs[a].1.len() ==>
            (#[trigger] bs[a].1[k]).command.player < MAX_PLAYERS
    }

    /// An empty queue.
    pub fn new() -> (r: CommandQueue)
        ensures
            r.wf(),
            r.batches().len() == 0,
            forall|p: int| 0 <= p < MAX_PLAYERS ==> #[trigger] r.seqs()[p] == 0,
    {
        let r = CommandQueue { pending: Vec::new(), next_seq: [0; 8] };
        proof {
            assert(r.batches() =~= Seq::empty());
        }
        r
    }

    /// Schedules `command`, issued at `issue_tick`, for execution
    /// [`COMMAND_DELAY`] ticks later (saturating at the last tick).
    /// Returns the execution tick.
    pub fn schedule(&mut self, issue_tick: u64, command: Command) -> (r: u64)
        requires
            old(self).wf(),
            command.player < MAX_PLAYERS,
        ensures
            r == if issue_tick as int + COMMAND_DELAY <= u64::MAX { (issue_tick + COMMAND_DELAY) as u64 } else { u64::MAX },
            final(self).wf(),
            scheduled_into(old(self).batches(), r, Scheduled { seq: old(self).seqs()[command.player as int], command }, final(self).batches()),
            final(self).seqs() == old(self).seqs().update(command.player as int, old(self).seqs()[command.player as int].wrapping_add(1)),
    {
        let exec = issue_tick.saturating_add(COMMAND_DELAY);
        self.schedule_at(exec, command);
        exec
    }

    /// Schedules `command` for a specific tick. Used by replay and by the
    /// network layer, which already knows the execution tick.
    ///
    /// The batch for a tick is kept in canonical `(player, seq)` order as
    /// commands arrive, rather than sorted at drain time, so two peers who
    /// received the same commands in different packet orders hold identical
    /// queues.
    #[verifier::rlimit(40)]
    pub fn schedule_at(&mut self, exec_tick: u64, command: Command)
        requires
            old(self).wf(),
            command.player < MAX_PLAYERS,
        ensures
            final(self).wf(),
            scheduled_into(old(self).batches(), exec_tick, Scheduled { seq: old(self).seqs()[command.player as int], command }, final(self).batches()),
            final(self).seqs() == old(self).seqs().update(command.player as int, old(self).seqs()[command.player as int].wrapping_add(1)),
    {
        let ghost bs = self.batches();
        let p = command.player as usize;
        let seq = self.next_seq[p];
        self.next_seq[p] = seq.wrapping_add(1);
        let entry = Scheduled { seq, command };
        assert(self.batches() == bs);
        let mut b: usize = 0;
        while b < self.pending.len() && self.pending[b].tick < exec_tick
            invariant
                self.batches() == bs,
                b <= bs.len(),
                forall|j: int| 0 <= j < b ==> #[trigger] bs[j].0 < exec_tick,
            decreases self.pending.len() - b,
        {
            b = b + 1;
        }
        if b < self.pending.len() && self.pending[b].tick == exec_tick {
            let mut batch = self.pending.remove(b);
            assert(batch.items@ == bs[b as int].1);
            let mut at: usize = 0;
            while at < batch.items.len() && batch.items[at].before(&entry)
                invariant
                    batch.items@ == bs[b as int].1,
                    at <= batch.items@.len(),
                    forall|j: int| 0 <= j < at ==> key_lt(#[trigger] batch.items@[j], entry),
                decreases batch.items.len() - at,
            {
                at = at + 1;
            }
            proof {
                let items = bs[b as int].1;
                assert(canonical(items));
                assert forall|j: int| at <= j < items.len() implies !key_lt(#[trigger] items[j], entry) by {
                    if at < items.len() {
                        assert(!key_lt(items[at as int], entry));
                        if j > at {
                            assert(!key_lt(items[j], items[at as int]));
                        }
                    }
                }
            }
            batch.items.insert(at, entry);
            let ghost ni = batch.items@;
            self.pending.insert(b, batch);
            proof {
                let items = bs[b as int].1;
                assert(ni == items.insert(at as int, entry));
                assert(self.batches() =~= bs.update(b as int, (exec_tick, items.insert(at as int, entry))));
                assert(canonical(ni)) by {
                    assert forall|x: int, y: int| 0 <= x < y < ni.len() implies !key_lt(#[trigger] ni[y], #[trigger] ni[x]) by {
                        if y < at {
                        } else if y == at {
                        } else if x < at {
                            assert(ni[y] == items[y - 1]);
                        } else if x == at {
                            assert(ni[y] == items[y - 1]);
                        } else {
                            assert(ni[x] == items[x - 1]);
                            assert(ni[y] == items[y - 1]);
                        }
                    }
                }
                let nb = self.batches();
                assert forall|a: int, k: int| 0 <= a < nb.len() && 0 <= k < nb[a].1.len() implies
                    (#[trigger] nb[a].1[k]).command.player < MAX_PLAYERS by {
                    if a == b {
                        if k < at {
                        } else if k > at {
                            assert(nb[a].1[k] == items[k - 1]);
                        }
                    }
                }
                assert(scheduled_at_slot(bs, exec_tick, entry, nb, b as int, at as int));
            }
        } else {
            let mut items: Vec<Scheduled> = Vec::new();
            items.push(entry);
            self.pending.insert(b, Batch { tick: exec_tick, items });
            proof {
                assert(self.batches() =~= bs.insert(b as int, (exec_tick, seq![entry])));
                let nb = self.batches();
                assert forall|x: int, y: int| 0 <= x < y < nb.len() implies #[trigger] nb[x].0 < #[trigger] nb[y].0 by {
                    if b < bs.len() {
                        assert(bs[b as int].0 > exec_tick);
                    }
                    if y < b {
                    } else if y == b {
                    } else if x < b {
                        assert(nb[y] == bs[y - 1]);
                        if y - 1 > b {
                            assert(bs[b as int].0 < bs[y - 1].0);
                        }
                    } else if x == b {
                        assert(nb[y] == bs[y - 1]);
                        if y - 1 > b {
                            assert(bs[b as int].0 < bs[y - 1].0);
                        }
                    } else {
                        assert(nb[x] == bs[x - 1]);
                        assert(nb[y] == bs[y - 1]);
                    }
                }
                assert forall|a: int| 0 <= a < nb.len() implies #[trigger] nb[a].1.len() > 0 && canonical(nb[a].1) by {
                    if a < b {
                    } else if a > b {
                        assert(nb[a] == bs[a - 1]);
                    }
                }
                assert forall|a: int, k: int| 0 <= a < nb.len() && 0 <= k < nb[a].1.len() implies
                    (#[trigger] nb[a].1[k]).command.player < MAX_PLAYERS by {
                    if a > b {
                        assert(nb[a] == bs[a - 1]);
                    }
                }
                assert(scheduled_at_slot(bs, exec_tick, entry, nb, b as int, 0));
            }
        }
    }
}

/// The bytes of a run of batches: per batch its tick, then its commands.
pub open spec fn batches_bytes(bs: Seq<(u64, Seq<Scheduled>)>) -> Seq<u8>
    decreases bs.len(),
{
    if bs.len() == 0 {
        Seq::empty()
    } else {
        batches_bytes(bs.drop_last()) + le64(bs.last().0) + seq_bytes(bs.last().1)
    }
}

/// The bytes of the sequence counters, in player order.
pub open spec fn seqs_bytes(s: Seq<u32>) -> Seq<u8>
    decreases s.len(),
{
    if s.len() == 0 {
        Seq::empty()
    } else {
        seqs_bytes(s.drop_last()) + le32(s.last())
    }
}

/// The bytes of a queue: how many ticks have commands, every batch, then
/// the sequence counters. Contents are hashed, not just the count.
pub open spec fn queue_bytes(q: CommandQueue) -> Seq<u8> {
    le64(q.batches().len() as u64) + batches_bytes(q.batches()) + seqs_bytes(q.seqs())
}

/// `k` batches are due at `tick`: those before it are, the rest are not.
pub open spec fn due_prefix(bs: Seq<(u64, Seq<Scheduled>)>, tick: u64, k: int) -> bool {
    &&& 0 <= k <= bs.len()
    &&& forall|j: int| 0 <= j < k ==> #[trigger] bs[j].0 <= tick
    &&& forall|j: int| k <= j < bs.len() ==> #[trigger] bs[j].0 > tick
}

impl CommandQueue {
    /// Removes and returns every command due at or before `tick`, in
    /// canonical `(tick, player, seq)` order. At the last tick there is,
    /// that is every pending command.
    pub fn drain_due(&mut self, tick: u64) -> (r: Vec<Command>)
        requires
            old(self).wf(),
        ensures
            final(self).wf(),
            final(self).seqs() == old(self).seqs(),
            exists|k: int| {
                &&& due_prefix(old(self).batches(), tick, k)
                &&& r@ == commands_of(old(self).batches().take(k))
                &&& final(self).batches() == old(self).batches().skip(k)
            },
    {
        let ghost bs = self.batches();
        let mut k: usize = 0;
        while k < self.pending.len() && self.pending[k].tick <= tick
            invariant
                self.batches() == bs,
                k <= bs.len(),
                forall|j: int| 0 <= j < k ==> #[trigger] bs[j].0 <= tick,
            decreases self.pending.len() - k,
        {
            k = k + 1;
        }
        proof {
            assert forall|j: int| k <= j < bs.len() implies #[trigger] bs[j].0 > tick by {
                if k < bs.len() {
                    assert(bs[k as int].0 > tick);
                    if j > k {
                        assert(bs[k as int].0 < bs[j].0);
                    }
                }
            }
        }
        let mut due = self.pending.split_off(k);
        std::mem::swap(&mut due, &mut self.pending);
        proof {
            assert(self.batches() =~= bs.skip(k as int));
            assert(due@.map_values(|b: Batch| (b.tick, b.items@)) =~= bs.take(k as int));
        }
        let ghost dbs = bs.take(k as int);
        let mut out: Vec<Command> = Vec::new();
        for batch in it: due.into_iter()
            invariant
                it.seq().map_values(|b: Batch| (b.tick, b.items@)) == dbs,
                out@ == commands_of(dbs.take(it.index() as int)),
        {
            let ghost i = it.index();
            let ghost items = batch.items@;
            assert(dbs[i as int] == (batch.tick, items));
            let ghost base = out@;
            for s in it2: batch.items.into_iter()
                invariant
                    it2.seq() == items,
                    out@ == base + items.take(it2.index() as int).map_values(|x: Scheduled| x.command),
            {
                out.push(s.command);
                proof {
                    assert(items.take(it2.index() + 1).map_values(|x: Scheduled| x.command) =~= items.take(
                        it2.index() as int,
                    ).map_values(|x: Scheduled| x.command).push(s.command));
                }
            }
            proof {
                assert(items.take(items.len() as int) =~= items);
                assert(dbs.take(i + 1).drop_last() =~= dbs.take(i as int));
            }
        }
        proof {
            assert(dbs.take(dbs.len() as int) =~= dbs);
            let nb = self.batches();
            assert forall|a: int, b: int| 0 <= a < b < nb.len() implies #[trigger] nb[a].0 < #[trigger] nb[b].0 by {
                assert(nb[a] == bs[a + k]);
                assert(nb[b] == bs[b + k]);
            }
            assert forall|a: int| 0 <= a < nb.len() implies #[trigger] nb[a].1.len() > 0 && canonical(nb[a].1) by {
                assert(nb[a] == bs[a + k]);
            }
            assert forall|a: int, j: int| 0 <= a < nb.len() && 0 <= j < nb[a].1.len() implies
                (#[trigger] nb[a].1[j]).command.player < MAX_PLAYERS by {
                assert(nb[a] == bs[a + k]);
            }
            assert(due_prefix(bs, tick, k as int));
        }
        out
    }

    /// Number of commands not yet executed.
    pub fn pending_len(&self) -> (r: usize)
        requires
            count_of(self.batches()) <= usize::MAX,
        ensures
            r == count_of(self.batches()),
    {
        let ghost bs = self.batches();
        let mut total: usize = 0;
        let mut i: usize = 0;
        while i < self.pending.len()
            invariant
                bs == self.batches(),
                count_of(bs) <= usize::MAX,
                i <= bs.len(),
                total == count_of(bs.take(i as int)),
            decreases self.pending.len() - i,
        {
            proof {
                assert(bs.take(i + 1).drop_last() =~= bs.take(i as int));
                lemma_count_prefix(bs, i as int + 1);
            }
            total = total + self.pending[i].items.len();
            i = i + 1;
        }
        proof {
            assert(bs.take(i as int) =~= bs);
        }
        total
    }
}

/// A prefix holds no more commands than the whole.
pub proof fn lemma_count_prefix(bs: Seq<(u64, Seq<Scheduled>)>, k: int)
    requires
        0 <= k <= bs.len(),
    ensures
        count_of(bs.take(k)) <= count_of(bs),
    decreases bs.len(),
{
    if k < bs.len() {
        assert(bs.drop_last().take(k) =~= bs.take(k));
        lemma_count_prefix(bs.drop_last(), k);
    } else {
        assert(bs.take(k) =~= bs);
    }
}

proof fn lemma_batches_step(bs: Seq<(u64, Seq<Scheduled>)>, i: int)
    requires
        0 <= i < bs.len(),
    ensures
        batches_bytes(bs.take(i + 1)) == batches_bytes(bs.take(i)) + (le64(bs[i].0) + seq_bytes(bs[i].1)),
{
    let cur = bs.take(i + 1);
    assert(cur.drop_last() =~= bs.take(i));
    assert(cur.last() == bs[i]);
    assert(batches_bytes(bs.take(i)) + le64(bs[i].0) + seq_bytes(bs[i].1) =~= batches_bytes(bs.take(i)) + (le64(bs[i].0) + seq_bytes(bs[i].1)));
}

fn hash_batch(b: &Batch, h: &mut StateHasher)
    ensures
        final(h)@ == fnv(old(h)@, le64(b.tick) + seq_bytes(b.items@)),
{
    let ghost h0 = h@;
    h.write_u64(b.tick);
    h.write(&b.items);
    proof {
        lemma_fnv_append(h0, le64(b.tick), seq_bytes(b.items@));
    }
}

impl HashState for CommandQueue {
    open spec fn state_bytes(&self) -> Seq<u8> {
        queue_bytes(*self)
    }

    fn hash_state(&self, h: &mut StateHasher) {
        let ghost h0 = h@;
        let ghost bs = self.batches();
        h.write_u64(self.pending.len() as u64);
        let ghost h1 = h@;
        let mut i: usize = 0;
        while i < self.pending.len()
            invariant
                bs == self.batches(),
                i <= bs.len(),
                h1 == fnv(h0, le64(bs.len() as u64)),
                h@ == fnv(h1, batches_bytes(bs.take(i as int))),
            decreases self.pending.len() - i,
        {
            let ghost hb = h@;
            hash_batch(&self.pending[i], h);
            proof {
                lemma_batches_step(bs, i as int);
                lemma_fnv_append(h1, batches_bytes(bs.take(i as int)), le64(bs[i as int].0) + seq_bytes(bs[i as int].1));
            }
            i = i + 1;
        }
        proof {
            assert(bs.take(i as int) =~= bs);
            lemma_fnv_append(h0, le64(bs.len() as u64), batches_bytes(bs));
        }
        let ghost h2 = h@;
        let mut p: usize = 0;
        while p < 8
            invariant
                p <= 8,
                h@ == fnv(h2, seqs_bytes(self.seqs().take(p as int))),
            decreases 8 - p,
        {
            let ghost hb = h@;
            h.write_u32(self.next_seq[p]);
            proof {
                assert(self.seqs().take(p + 1).drop_last() =~= self.seqs().take(p as int));
                lemma_fnv_append(h2, seqs_bytes(self.seqs().take(p as int)), le32(self.seqs()[p as int]));
            }
            p = p + 1;
        }
        proof {
            assert(self.seqs().take(8) =~= self.seqs());
            lemma_fnv_append(h0, le64(bs.len() as u64) + batches_bytes(bs), seqs_bytes(self.seqs()));
        }
    }
}

impl Default for CommandQueue {
    /// An empty queue.
    fn default() -> (r: CommandQueue)
        ensures
            r.wf(),
            r.batches().len() == 0,
            forall|p: int| 0 <= p < MAX_PLAYERS ==> #[trigger] r.seqs()[p] == 0,
    {
        CommandQueue::new()
    }
}

/// Ticks ascend strictly, no batch is empty, and within each batch every
/// command comes strictly after the one before it.
pub open spec fn strict_batches(bs: Seq<(u64, Seq<Scheduled>)>) -> bool {
    &&& forall|a: int, b: int| 0 <= a < b < bs.len() ==> #[trigger] bs[a].0 < #[trigger] bs[b].0
    &&& forall|a: int| 0 <= a < bs.len() ==> (#[trigger] bs[a]).1.len() > 0
    &&& forall|a: int, i: int, j: int| 0 <= a < bs.len() && 0 <= i < j < bs[a].1.len() ==> key_lt(
        #[trigger] bs[a].1[i], #[trigger] bs[a].1[j])
}

/// The queue holds `s` for tick `t`.
pub open spec fn holds(bs: Seq<(u64, Seq<Scheduled>)>, t: u64, s: Scheduled) -> bool {
    exists|a: int| 0 <= a < bs.len() && bs[a].0 == t && #[trigger] bs[a].1.contains(s)
}

/// Some command with the key of `s` is held for tick `t`.
pub open spec fn key_held(bs: Seq<(u64, Seq<Scheduled>)>, t: u64, s: Scheduled) -> bool {
    exists|a: int, k: int| 0 <= a < bs.len() && bs[a].0 == t && 0 <= k < bs[a].1.len() && !key_lt(#[trigger] bs[a].1[k], s)
        && !key_lt(s, bs[a].1[k])
}

/// Two sequences in strictly ascending key order with the same elements
/// are the same sequence.
proof fn lemma_sorted_unique(x: Seq<Scheduled>, y: Seq<Scheduled>)
    requires
        forall|i: int, j: int| 0 <= i < j < x.len() ==> key_lt(#[trigger] x[i], #[trigger] x[j]),
        forall|i: int, j: int| 0 <= i < j < y.len() ==> key_lt(#[trigger] y[i], #[trigger] y[j]),
        forall|s: Scheduled| #![trigger x.contains(s)] #![trigger y.contains(s)] x.contains(s) <==> y.contains(s),
    ensures
        x == y,
    decreases x.len(),
{
    if x.len() == 0 {
        if y.len() > 0 {
            assert(y.contains(y[0]));
        }
        assert(x =~= y);
    } else {
        assert(x.contains(x[0]));
        assert(y.len() > 0);
        assert(y.contains(y[0]));
        let i = choose|i: int| 0 <= i < y.len() && y[i] == x[0];
        let j = choose|j: int| 0 <= j < x.len() && x[j] == y[0];
        if i > 0 {
            assert(key_lt(y[0], y[i]));
            if j > 0 {
                assert(key_lt(x[0], x[j]));
            }
        }
        assert(x[0] == y[0]);
        let xr = x.drop_first();
        let yr = y.drop_first();
        assert forall|s: Scheduled| #![trigger xr.contains(s)] #![trigger yr.contains(s)] xr.contains(s) <==> yr.contains(s) by {
            if xr.contains(s) {
                let k = choose|k: int| 0 <= k < xr.len() && xr[k] == s;
                assert(x[k + 1] == s);
                assert(key_lt(x[0], x[k + 1]));
                assert(y.contains(s));
                let m = choose|m: int| 0 <= m < y.len() && y[m] == s;
                assert(m != 0);
                assert(yr[m - 1] == s);
            }
            if yr.contains(s) {
                let k = choose|k: int| 0 <= k < yr.len() && yr[k] == s;
                assert(y[k + 1] == s);
                assert(key_lt(y[0], y[k + 1]));
                assert(x.contains(s));
                let m = choose|m: int| 0 <= m < x.len() && x[m] == s;
                assert(m != 0);
                assert(xr[m - 1] == s);
            }
        }
        lemma_sorted_unique(xr, yr);
        assert(x =~= seq![x[0]] + xr);
        assert(y =~= seq![y[0]] + yr);
    }
}

/// A queue is determined by what it holds: two queues in canonical form
/// holding the same commands for the same ticks are identical.
pub proof fn lemma_canonical_form(b1: Seq<(u64, Seq<Scheduled>)>, b2: Seq<(u64, Seq<Scheduled>)>)
    requires
        strict_batches(b1),
        strict_batches(b2),
        forall|t: u64, s: Scheduled| #![trigger holds(b1, t, s)] #![trigger holds(b2, t, s)] holds(b1, t, s) <==> holds(b2, t, s),
    ensures
        b1 == b2,
    decreases b1.len() + b2.len(),
{
    if b1.len() == 0 || b2.len() == 0 {
        if b1.len() > 0 {
            assert(b1[0].1.contains(b1[0].1[0]));
            assert(holds(b1, b1[0].0, b1[0].1[0]));
        }
        if b2.len() > 0 {
            assert(b2[0].1.contains(b2[0].1[0]));
            assert(holds(b2, b2[0].0, b2[0].1[0]));
        }
        assert(b1 =~= b2);
    } else {
        let t1 = b1[0].0;
        let t2 = b2[0].0;
        assert(b1[0].1.contains(b1[0].1[0]));
        assert(holds(b1, t1, b1[0].1[0]));
        assert(holds(b2, t1, b1[0].1[0]));
        let i = choose|i: int| 0 <= i < b2.len() && b2[i].0 == t1 && #[trigger] b2[i].1.contains(b1[0].1[0]);
        if i > 0 {
            assert(b2[0].0 < b2[i].0);
        }
        assert(b2[0].1.contains(b2[0].1[0]));
        assert(holds(b2, t2, b2[0].1[0]));
        assert(holds(b1, t2, b2[0].1[0]));
        let j = choose|j: int| 0 <= j < b1.len() && b1[j].0 == t2 && #[trigger] b1[j].1.contains(b2[0].1[0]);
        if j > 0 {
            assert(b1[0].0 < b1[j].0);
        }
        assert(t1 == t2);
        assert forall|s: Scheduled| #![trigger b1[0].1.contains(s)] #![trigger b2[0].1.contains(s)] b1[0].1.contains(s) <==> b2[0].1.contains(s) by {
            if b1[0].1.contains(s) {
                assert(holds(b1, t1, s));
                assert(holds(b2, t1, s));
                let k = choose|k: int| 0 <= k < b2.len() && b2[k].0 == t1 && #[trigger] b2[k].1.contains(s);
                if k > 0 {
                    assert(b2[0].0 < b2[k].0);
                }
            }
            if b2[0].1.contains(s) {
                assert(holds(b2, t1, s));
                assert(holds(b1, t1, s));
                let k = choose|k: int| 0 <= k < b1.len() && b1[k].0 == t1 && #[trigger] b1[k].1.contains(s);
                if k > 0 {
                    assert(b1[0].0 < b1[k].0);
                }
            }
        }
        lemma_sorted_unique(b1[0].1, b2[0].1);
        let r1 = b1.drop_first();
        let r2 = b2.drop_first();
        assert forall|t: u64, s: Scheduled| #![trigger holds(r1, t, s)] #![trigger holds(r2, t, s)] holds(r1, t, s) <==> holds(r2, t, s) by {
            if holds(r1, t, s) {
                let a = choose|a: int| 0 <= a < r1.len() && r1[a].0 == t && #[trigger] r1[a].1.contains(s);
                assert(b1[a + 1] == r1[a]);
                assert(b1[0].0 < b1[a + 1].0);
                assert(holds(b1, t, s));
                assert(holds(b2, t, s));
                let c = choose|c: int| 0 <= c < b2.len() && b2[c].0 == t && #[trigger] b2[c].1.contains(s);
                assert(c != 0);
                assert(r2[c - 1] == b2[c]);
            }
            if holds(r2, t, s) {
                let a = choose|a: int| 0 <= a < r2.len() && r2[a].0 == t && #[trigger] r2[a].1.contains(s);
                assert(b2[a + 1] == r2[a]);
                assert(b2[0].0 < b2[a + 1].0);
                assert(holds(b2, t, s));
                assert(holds(b1, t, s));
                let c = choose|c: int| 0 <= c < b1.len() && b1[c].0 == t && #[trigger] b1[c].1.contains(s);
                assert(c != 0);
                assert(r1[c - 1] == b1[c]);
            }
        }
        lemma_canonical_form(r1, r2);
        assert(b1 =~= seq![b1[0]] + r1);
        assert(b2 =~= seq![b2[0]] + r2);
        assert(b1[0] == b2[0]);
    }
}

/// Scheduling a command whose key is new for its tick keeps the queue in
/// canonical form and adds exactly that command.
pub proof fn lemma_schedule_adds(bs: Seq<(u64, Seq<Scheduled>)>, t: u64, s: Scheduled, r: Seq<(u64, Seq<Scheduled>)>)
    requires
        strict_batches(bs),
        !key_held(bs, t, s),
        scheduled_into(bs, t, s, r),
    ensures
        strict_batches(r),
        forall|t2: u64, s2: Scheduled| #[trigger] holds(r, t2, s2) <==> (holds(bs, t2, s2) || (t2 == t && s2 == s)),
{
    let (b, p) = choose|b: int, p: int| scheduled_at_slot(bs, t, s, r, b, p);
    if b < bs.len() && bs[b].0 == t {
        let items = bs[b].1;
        let ni = items.insert(p, s);
        assert forall|k: int| 0 <= k < items.len() implies key_lt(#[trigger] items[k], s) || key_lt(s, items[k]) by {
            if !key_lt(items[k], s) && !key_lt(s, items[k]) {
                assert(key_held(bs, t, s));
            }
        }
        assert forall|a: int, i: int, j: int| 0 <= a < r.len() && 0 <= i < j < r[a].1.len() implies key_lt(
            #[trigger] r[a].1[i], #[trigger] r[a].1[j]) by {
            if a == b {
                let i0 = if i < p { i } else { i - 1 };
                let j0 = if j < p { j } else { j - 1 };
                if i != p && j != p {
                    assert(ni[i] == items[i0] && ni[j] == items[j0]);
                } else if i == p {
                    assert(ni[j] == items[j0]);
                    assert(!key_lt(items[j0], s));
                } else {
                    assert(ni[i] == items[i0]);
                }
            }
        }
        assert forall|t2: u64, s2: Scheduled| #[trigger] holds(r, t2, s2) <==> (holds(bs, t2, s2) || (t2 == t && s2 == s)) by {
            if holds(r, t2, s2) {
                let a = choose|a: int| 0 <= a < r.len() && r[a].0 == t2 && #[trigger] r[a].1.contains(s2);
                if a == b {
                    let k = choose|k: int| 0 <= k < ni.len() && ni[k] == s2;
                    if k != p {
                        let k0 = if k < p { k } else { k - 1 };
                        assert(items[k0] == s2);
                        assert(bs[b].1.contains(s2));
                    }
                } else {
                    assert(r[a] == bs[a]);
                }
            }
            if holds(bs, t2, s2) {
                let a = choose|a: int| 0 <= a < bs.len() && bs[a].0 == t2 && #[trigger] bs[a].1.contains(s2);
                if a == b {
                    let k = choose|k: int| 0 <= k < items.len() && items[k] == s2;
                    let k1 = if k < p { k } else { k + 1 };
                    assert(ni[k1] == s2);
                    assert(r[b].1.contains(s2));
                } else {
                    assert(r[a] == bs[a]);
                }
            }
            if t2 == t && s2 == s {
                assert(ni[p] == s);
                assert(r[b].1.contains(s));
            }
        }
    } else {
        assert forall|a: int, c: int| 0 <= a < c < r.len() implies #[trigger] r[a].0 < #[trigger] r[c].0 by {
            if b < bs.len() {
                assert(bs[b].0 > t);
            }
            if a < b && c > b {
                assert(r[c] == bs[c - 1]);
                if c - 1 > b {
                    assert(bs[b].0 < bs[c - 1].0);
                }
            } else if a == b && c > b {
                assert(r[c] == bs[c - 1]);
                if c - 1 > b {
                    assert(bs[b].0 < bs[c - 1].0);
                }
            } else if a > b {
                assert(r[a] == bs[a - 1] && r[c] == bs[c - 1]);
            }
        }
        assert forall|a: int| 0 <= a < r.len() implies (#[trigger] r[a]).1.len() > 0 by {
            if a > b {
                assert(r[a] == bs[a - 1]);
            }
        }
        assert forall|a: int, i: int, j: int| 0 <= a < r.len() && 0 <= i < j < r[a].1.len() implies key_lt(
            #[trigger] r[a].1[i], #[trigger] r[a].1[j]) by {
            if a > b {
                assert(r[a] == bs[a - 1]);
            }
        }
        assert forall|t2: u64, s2: Scheduled| #[trigger] holds(r, t2, s2) <==> (holds(bs, t2, s2) || (t2 == t && s2 == s)) by {
            if holds(r, t2, s2) {
                let a = choose|a: int| 0 <= a < r.len() && r[a].0 == t2 && #[trigger] r[a].1.contains(s2);
                if a < b {
                    assert(r[a] == bs[a]);
                } else if a > b {
                    assert(r[a] == bs[a - 1]);
                } else {
                    assert(seq![s].contains(s2));
                    assert(s2 == s);
                }
            }
            if holds(bs, t2, s2) {
                let a = choose|a: int| 0 <= a < bs.len() && bs[a].0 == t2 && #[trigger] bs[a].1.contains(s2);
                if a < b {
                    assert(r[a] == bs[a]);
                } else {
                    assert(r[a + 1] == bs[a]);
                }
            }
            if t2 == t && s2 == s {
                assert(r[b].1[0] == s);
                assert(r[b].1.contains(s));
            }
        }
    }
}

/// The commands of `list` issued by player `p`, in order.
pub open spec fn of_player(list: Seq<(u64, Command)>, p: u8) -> Seq<(u64, Command)>
    decreases list.len(),
{
    if list.len() == 0 {
        Seq::empty()
    } else {
        of_player(list.drop_last(), p) + if list.last().1.player == p {
            seq![list.last()]
        } else {
            Seq::empty()
        }
    }
}

/// `s` is, for tick `t`, what scheduling `list` in order on an empty queue
/// puts there: the command its player issued as their `s.seq`-th.
pub open spec fn listed(list: Seq<(u64, Command)>, t: u64, s: Scheduled) -> bool {
    let own = of_player(list, s.command.player);
    0 <= s.seq < own.len() && own[s.seq as int] == (t, s.command)
}

/// `states` are the queue's batches and per-player counters before and
/// after each scheduling of `list`, on a queue that starts empty, each step
/// as [`CommandQueue::schedule_at`] states it.
pub open spec fn schedule_chain(list: Seq<(u64, Command)>, states: Seq<(Seq<(u64, Seq<Scheduled>)>, Seq<u32>)>) -> bool {
    &&& states.len() == list.len() + 1
    &&& states[0].0.len() == 0
    &&& states[0].1.len() == MAX_PLAYERS
    &&& forall|p: int| 0 <= p < MAX_PLAYERS ==> #[trigger] states[0].1[p] == 0
    &&& forall|k: int|
        #![trigger list[k]]
        0 <= k < list.len() ==> {
            let p = list[k].1.player as int;
            &&& scheduled_into(states[k].0, list[k].0, Scheduled { seq: states[k].1[p], command: list[k].1 }, states[k + 1].0)
            &&& states[k + 1].1 == states[k].1.update(p, states[k].1[p].wrapping_add(1))
        }
}

proof fn lemma_of_player_len(list: Seq<(u64, Command)>, p: u8)
    ensures
        of_player(list, p).len() <= list.len(),
        (forall|k: int| 0 <= k < list.len() ==> (#[trigger] list[k]).1.player != p) ==> of_player(list, p).len() == 0,
    decreases list.len(),
{
    if list.len() > 0 {
        lemma_of_player_len(list.drop_last(), p);
        if forall|k: int| 0 <= k < list.len() ==> (#[trigger] list[k]).1.player != p {
            assert forall|k: int| 0 <= k < list.drop_last().len() implies (#[trigger] list.drop_last()[k]).1.player != p by {
                assert(list.drop_last()[k] == list[k]);
            }
            assert(list.last() == list[list.len() - 1]);
        }
    }
}

/// Along a chain of schedulings from an empty queue, the queue stays in
/// canonical form, each counter counts its player's commands so far, and
/// the queue holds exactly what [`listed`] names.
proof fn lemma_chain_holds(list: Seq<(u64, Command)>, states: Seq<(Seq<(u64, Seq<Scheduled>)>, Seq<u32>)>, k: int)
    requires
        schedule_chain(list, states),
        0 <= k <= list.len(),
        list.len() <= u32::MAX,
        forall|i: int| 0 <= i < list.len() ==> (#[trigger] list[i]).1.player < MAX_PLAYERS,
    ensures
        strict_batches(states[k].0),
        states[k].1.len() == MAX_PLAYERS,
        forall|p: int| 0 <= p < MAX_PLAYERS ==> #[trigger] states[k].1[p] == of_player(list.take(k), p as u8).len(),
        forall|t: u64, s: Scheduled| #[trigger] holds(states[k].0, t, s) <==> listed(list.take(k), t, s),
    decreases k,
{
    if k == 0 {
        assert(list.take(0) =~= Seq::<(u64, Command)>::empty());
        assert forall|t: u64, s: Scheduled| #[trigger] holds(states[k].0, t, s) <==> listed(list.take(k), t, s) by {
            assert(of_player(list.take(0), s.command.player).len() == 0);
        }
        assert forall|p: int| 0 <= p < MAX_PLAYERS implies #[trigger] states[k].1[p] == of_player(list.take(k), p as u8).len() by {
            assert(of_player(list.take(0), p as u8).len() == 0);
        }
    } else {
        let j = k - 1;
        lemma_chain_holds(list, states, j);
        let pre = list.take(j);
        let cur = list.take(k);
        assert(cur.drop_last() =~= pre);
        assert(cur.last() == list[j]);
        let x = list[j];
        let p = x.1.player;
        let bs = states[j].0;
        let e = Scheduled { seq: states[j].1[p as int], command: x.1 };
        assert(scheduled_into(bs, x.0, e, states[k].0) && states[k].1 == states[j].1.update(p as int, states[j].1[p as int].wrapping_add(1)));
        lemma_of_player_len(pre, p);
        assert(pre.len() == j);
        assert(!key_held(bs, x.0, e)) by {
            if key_held(bs, x.0, e) {
                let (a, m) = choose|a: int, m: int| 0 <= a < bs.len() && bs[a].0 == x.0 && 0 <= m < bs[a].1.len() && !key_lt(
                    #[trigger] bs[a].1[m], e) && !key_lt(e, bs[a].1[m]);
                let it = bs[a].1[m];
                assert(bs[a].1.contains(it));
                assert(holds(bs, x.0, it));
                assert(listed(pre, x.0, it));
                assert(it.command.player == p && it.seq == e.seq);
                assert(states[j].1[p as int] == of_player(pre, p).len());
            }
        }
        lemma_schedule_adds(bs, x.0, e, states[k].0);
        assert forall|q: u8| #[trigger] of_player(cur, q) == of_player(pre, q) + if p == q { seq![x] } else { Seq::<(u64, Command)>::empty() } by {
        }
        assert(states[j].1[p as int] == of_player(pre, p).len());
        assert(states[j].1[p as int].wrapping_add(1) == states[j].1[p as int] + 1);
        assert forall|pp: int| 0 <= pp < MAX_PLAYERS implies #[trigger] states[k].1[pp] == of_player(cur, pp as u8).len() by {
            assert(states[j].1[pp] == of_player(pre, pp as u8).len());
            assert(of_player(cur, pp as u8) == of_player(pre, pp as u8) + if p == pp as u8 { seq![x] } else { Seq::<(u64, Command)>::empty() });
        }
        assert forall|t: u64, s: Scheduled| #[trigger] holds(states[k].0, t, s) <==> listed(cur, t, s) by {
            let q = s.command.player;
            let own = of_player(pre, q);
            assert(of_player(cur, q) == own + if p == q { seq![x] } else { Seq::<(u64, Command)>::empty() });
            assert(holds(states[k].0, t, s) == (holds(bs, t, s) || (t == x.0 && s == e)));
            assert(holds(bs, t, s) == listed(pre, t, s));
            if q == p {
                let own2 = own.push(x);
                assert(of_player(cur, q) =~= own2);
                if s.seq as int == own.len() {
                    assert(own2[s.seq as int] == x);
                } else if s.seq < own.len() {
                    assert(own2[s.seq as int] == own[s.seq as int]);
                }
            } else {
                assert(of_player(cur, q) =~= own);
            }
        }
    }
}

/// The lockstep guarantee for whole runs of commands: two queues that
/// start empty and are given the same commands, each player's in the same
/// order, end up identical, whatever the interleaving of the players.
pub proof fn lemma_interleaving_irrelevant(
    l1: Seq<(u64, Command)>,
    s1: Seq<(Seq<(u64, Seq<Scheduled>)>, Seq<u32>)>,
    l2: Seq<(u64, Command)>,
    s2: Seq<(Seq<(u64, Seq<Scheduled>)>, Seq<u32>)>,
)
    requires
        l1.len() <= u32::MAX,
        l2.len() <= u32::MAX,
        forall|k: int| 0 <= k < l1.len() ==> (#[trigger] l1[k]).1.player < MAX_PLAYERS,
        forall|k: int| 0 <= k < l2.len() ==> (#[trigger] l2[k]).1.player < MAX_PLAYERS,
        forall|p: u8| p < MAX_PLAYERS ==> #[trigger] of_player(l1, p) == of_player(l2, p),
        schedule_chain(l1, s1),
        schedule_chain(l2, s2),
    ensures
        s1.last() == s2.last(),
{
    lemma_chain_holds(l1, s1, l1.len() as int);
    lemma_chain_holds(l2, s2, l2.len() as int);
    assert(l1.take(l1.len() as int) =~= l1);
    assert(l2.take(l2.len() as int) =~= l2);
    let b1 = s1[l1.len() as int].0;
    let b2 = s2[l2.len() as int].0;
    assert forall|t: u64, s: Scheduled| #![trigger holds(b1, t, s)] #![trigger holds(b2, t, s)] holds(b1, t, s) <==> holds(b2, t, s) by {
        let q = s.command.player;
        if q < MAX_PLAYERS {
            assert(of_player(l1, q) == of_player(l2, q));
        } else {
            lemma_of_player_len(l1, q);
            lemma_of_player_len(l2, q);
        }
        assert(holds(b1, t, s) == listed(l1, t, s));
        assert(holds(b2, t, s) == listed(l2, t, s));
    }
    lemma_canonical_form(b1, b2);
    let c1 = s1[l1.len() as int].1;
    let c2 = s2[l2.len() as int].1;
    assert forall|p: int| 0 <= p < MAX_PLAYERS implies c1[p] == c2[p] by {
        assert(of_player(l1, p as u8) == of_player(l2, p as u8));
    }
    assert(c1 =~= c2);
}

/// The lockstep guarantee: the order in which two commands arrive does not
/// reach the queue. Scheduling `a` for tick `ta` then `b` for tick `tb`
/// leaves the queue exactly as scheduling `b` then `a` does, whenever
/// neither key is already held for its tick and the two are not the same
/// key for the same tick.
pub proof fn lemma_arrival_order_irrelevant(
    bs: Seq<(u64, Seq<Scheduled>)>,
    ta: u64,
    a: Scheduled,
    tb: u64,
    b: Scheduled,
    r1: Seq<(u64, Seq<Scheduled>)>,
    r2: Seq<(u64, Seq<Scheduled>)>,
    r3: Seq<(u64, Seq<Scheduled>)>,
    r4: Seq<(u64, Seq<Scheduled>)>,
)
    requires
        strict_batches(bs),
        !key_held(bs, ta, a),
        !key_held(bs, tb, b),
        ta != tb || key_lt(a, b) || key_lt(b, a),
        scheduled_into(bs, ta, a, r1),
        scheduled_into(r1, tb, b, r2),
        scheduled_into(bs, tb, b, r3),
        scheduled_into(r3, ta, a, r4),
    ensures
        r2 == r4,
{
    lemma_schedule_adds(bs, ta, a, r1);
    lemma_schedule_adds(bs, tb, b, r3);
    assert(!key_held(r1, tb, b)) by {
        if key_held(r1, tb, b) {
            let (x, k) = choose|x: int, k: int| 0 <= x < r1.len() && r1[x].0 == tb && 0 <= k < r1[x].1.len() && !key_lt(
                #[trigger] r1[x].1[k], b) && !key_lt(b, r1[x].1[k]);
            assert(r1[x].1.contains(r1[x].1[k]));
            assert(holds(r1, tb, r1[x].1[k]));
            if holds(bs, tb, r1[x].1[k]) {
                let y = choose|y: int| 0 <= y < bs.len() && bs[y].0 == tb && #[trigger] bs[y].1.contains(r1[x].1[k]);
                let m = choose|m: int| 0 <= m < bs[y].1.len() && bs[y].1[m] == r1[x].1[k];
                assert(key_held(bs, tb, b));
            }
        }
    }
    assert(!key_held(r3, ta, a)) by {
        if key_held(r3, ta, a) {
            let (x, k) = choose|x: int, k: int| 0 <= x < r3.len() && r3[x].0 == ta && 0 <= k < r3[x].1.len() && !key_lt(
                #[trigger] r3[x].1[k], a) && !key_lt(a, r3[x].1[k]);
            assert(r3[x].1.contains(r3[x].1[k]));
            assert(holds(r3, ta, r3[x].1[k]));
            if holds(bs, ta, r3[x].1[k]) {
                let y = choose|y: int| 0 <= y < bs.len() && bs[y].0 == ta && #[trigger] bs[y].1.contains(r3[x].1[k]);
                let m = choose|m: int| 0 <= m < bs[y].1.len() && bs[y].1[m] == r3[x].1[k];
                assert(key_held(bs, ta, a));
            }
        }
    }
    lemma_schedule_adds(r1, tb, b, r2);
    lemma_schedule_adds(r3, ta, a, r4);
    assert forall|t: u64, s: Scheduled| #![trigger holds(r2, t, s)] #![trigger holds(r4, t, s)] holds(r2, t, s) <==> holds(r4, t, s) by {
        assert(holds(r2, t, s) == (holds(r1, t, s) || (t == tb && s == b)));
        assert(holds(r1, t, s) == (holds(bs, t, s) || (t == ta && s == a)));
        assert(holds(r4, t, s) == (holds(r3, t, s) || (t == ta && s == a)));
        assert(holds(r3, t, s) == (holds(bs, t, s) || (t == tb && s == b)));
    }
    lemma_canonical_form(r2, r4);
}

} // verus!
