//! Match parameters and the answers the simulation gives about them: the
//! configuration a match is created with, its validation, the per-tick
//! diagnostics, and the reasons a placement, a research order or an
//! invariant check is refused.

use vstd::prelude::*;
use crate::entity::{EntityId, Slot, World, WorldViolation, violation_text, world_bytes, world_verdict, edited, relocated, retargeted, despawn_result, spawned_into};
use crate::command::{Command, CommandKind, CommandQueue, Scheduled, MAX_PLAYERS, COMMAND_DELAY, same_command, scheduled_into};
use crate::kinds::{Resource, info, kind_info, counts_for_age, VILLAGER, HOUSE, TOWN_CENTER, FARM, MAX_BUILDERS, FARM_RESEED_COST};
use crate::map::TileMap;
use crate::mapgen::{generate, clamp_int, starts_inside, Generated, Spawn};
use crate::nav::{NavGrid, Tile, anchor_tile, in_footprint, cheb, spread_lt, centre_spec, tile_spec, tile_of, centre};
use crate::orders::{Player, Production, Modifiers, Order, Item, QueueItem, Rally, GatherPhase, Nav, NavState, strictly_sorted, affords};
use crate::rng::{Rng, below_spec, xoshiro_next};
use crate::vec2::vadd;
use crate::kinds::GAIA;
use crate::replay::Replay;
use crate::fx::{Fx, from_int_raw};
use crate::hash::{HashState, StateHasher, OFFSET, fnv, le64, le16, le32, le_i32, bool_byte, lemma_fnv_append};
use crate::mapgen::{MapKind, MapSpec};
use crate::tech::{Age, TechId, tech_row, age_rank, advance_of, AGE_BUILDINGS_REQUIRED, matches_row};
use crate::tech::info as tech_info;
use crate::fx::{dec_digits, fx_text};
use crate::text::{dec_int, push_unsigned, push_signed};
use crate::vec2::{Vec2Fx, vec_debug_text};

verus! {

/// Simulation ticks per second of game time.
pub const TICKS_PER_SECOND: u32 = 20;

/// Milliseconds of game time per tick.
pub const TICK_MS: u32 = 50;

/// The standard opening stockpile: food, wood, stone, gold.
pub const DEFAULT_STOCKPILE: [i32; 4] = [200, 200, 100, 100];

/// The population caps a skirmish may be set up with, both ends included.
pub fn POP_CAP_RANGE() -> (r: (u32, u32))
    ensures
        r == (50u32, 200u32),
{
    (50, 200)
}

/// Match parameters that are fixed for the whole match.
#[derive(Clone, Copy, PartialEq, Eq, Debug)]
pub struct SimConfig {
    /// The map to generate.
    pub map: MapSpec,
    /// Hard cap on live entities; spawns beyond it are ignored.
    pub max_entities: u32,
    /// Whether wild animals wander.
    pub wander: bool,
    /// Population limit per player.
    pub pop_cap_max: u32,
    /// What every player starts with, food, wood, stone and gold.
    pub starting_stockpile: [i32; 4],
}

impl Default for SimConfig {
    /// The default inland map, 4000 entities, wandering animals, a
    /// population limit of 75 and the standard stockpile.
    fn default() -> (r: SimConfig)
        ensures
            r.map == (MapSpec { kind: MapKind::Inland, size: 128, players: 2 }),
            r.max_entities == 4000,
            r.wander,
            r.pop_cap_max == 75,
            r.starting_stockpile@ == seq![200i32, 200, 100, 100],
    {
        let c = SimConfig {
            map: MapSpec::default(),
            max_entities: 4000,
            wander: true,
            pop_cap_max: 75,
            starting_stockpile: DEFAULT_STOCKPILE,
        };
        assert(c.starting_stockpile@ =~= seq![200i32, 200, 100, 100]);
        c
    }
}

/// Why a match setup was refused. See [`SimConfig::validate`].
#[derive(Clone, Copy, PartialEq, Eq, Structural, Debug)]
pub enum ConfigError {
    /// `pop_cap_max` is outside [`POP_CAP_RANGE`].
    PopCapOutOfRange {
        /// The value offered.
        got: u32,
    },
    /// A starting stockpile entry is below zero.
    NegativeStockpile {
        /// Which resource, food, wood, stone or gold.
        resource: usize,
        /// The value offered.
        amount: i32,
    },
}

/// The first resource, in index order, whose amount is below zero; 4 when
/// none is.
pub open spec fn first_negative(s: Seq<i32>) -> int
    decreases s.len(),
{
    if s.len() == 0 {
        0
    } else if s[0] < 0 {
        0
    } else {
        1 + first_negative(s.drop_first())
    }
}

/// A generator's code in the state hash.
pub open spec fn map_kind_code(k: MapKind) -> u8 {
    match k {
        MapKind::Flat => 0,
        MapKind::Inland => 1,
    }
}

/// The bytes a configuration feeds to the state hash.
pub open spec fn config_bytes(c: SimConfig) -> Seq<u8> {
    seq![map_kind_code(c.map.kind)] + le16(c.map.size) + seq![c.map.players] + le32(c.max_entities) + bool_byte(
        c.wander,
    ) + le32(c.pop_cap_max) + le_i32(c.starting_stockpile[0]) + le_i32(c.starting_stockpile[1]) + le_i32(
        c.starting_stockpile[2],
    ) + le_i32(c.starting_stockpile[3])
}

impl SimConfig {
    /// Checks the values a match setup screen may offer: a population limit
    /// in [`POP_CAP_RANGE`], then no negative stockpile entry, the first
    /// one in index order reported.
    ///
    /// The simulation itself honours any config it is given; this is the
    /// front door's check, not the engine's.
    pub fn validate(&self) -> (r: Result<(), ConfigError>)
        ensures
            !(50 <= self.pop_cap_max <= 200) ==> r == Err::<(), ConfigError>(
                ConfigError::PopCapOutOfRange { got: self.pop_cap_max },
            ),
            50 <= self.pop_cap_max <= 200 && first_negative(self.starting_stockpile@) < 4 ==> r == Err::<
                (),
                ConfigError,
            >(
                ConfigError::NegativeStockpile {
                    resource: first_negative(self.starting_stockpile@) as usize,
                    amount: self.starting_stockpile@[first_negative(self.starting_stockpile@)],
                },
            ),
            r is Ok <==> 50 <= self.pop_cap_max <= 200 && forall|k: int| 0 <= k < 4 ==> #[trigger] self.starting_stockpile@[k]
                >= 0,
    {
        if self.pop_cap_max < 50 || self.pop_cap_max > 200 {
            return Err(ConfigError::PopCapOutOfRange { got: self.pop_cap_max });
        }
        let mut k: usize = 0;
        while k < 4
            invariant
                k <= 4,
                50 <= self.pop_cap_max <= 200,
                self.starting_stockpile@.len() == 4,
                forall|j: int| 0 <= j < k ==> #[trigger] self.starting_stockpile@[j] >= 0,
            decreases 4 - k,
        {
            if self.starting_stockpile[k] < 0 {
                proof {
                    lemma_first_negative(self.starting_stockpile@, k as int);
                }
                return Err(ConfigError::NegativeStockpile { resource: k, amount: self.starting_stockpile[k] });
            }
            k = k + 1;
        }
        proof {
            lemma_first_negative(self.starting_stockpile@, 4);
        }
        Ok(())
    }
}

/// `first_negative` finds the first entry below zero: at `k` when the
/// entries before it are not and it is (or `k` is the length).
proof fn lemma_first_negative(s: Seq<i32>, k: int)
    requires
        0 <= k <= s.len(),
        forall|j: int| 0 <= j < k ==> #[trigger] s[j] >= 0,
        k < s.len() ==> s[k] < 0,
    ensures
        first_negative(s) == k,
    decreases k,
{
    if k > 0 {
        let t = s.drop_first();
        assert forall|j: int| 0 <= j < k - 1 implies #[trigger] t[j] >= 0 by {
            assert(t[j] == s[j + 1]);
        }
        if k < s.len() {
            assert(t[k - 1] == s[k]);
        }
        lemma_first_negative(t, k - 1);
    }
}

impl HashState for SimConfig {
    open spec fn state_bytes(&self) -> Seq<u8> {
        config_bytes(*self)
    }

    fn hash_state(&self, h: &mut StateHasher) {
        let ghost h0 = h@;
        let code: u8 = match self.map.kind {
            MapKind::Flat => 0,
            MapKind::Inland => 1,
        };
        h.write_u8(code);
        h.write_u16(self.map.size);
        h.write_u8(self.map.players);
        h.write_u32(self.max_entities);
        h.write_bool(self.wander);
        h.write_u32(self.pop_cap_max);
        h.write_i32(self.starting_stockpile[0]);
        h.write_i32(self.starting_stockpile[1]);
        h.write_i32(self.starting_stockpile[2]);
        h.write_i32(self.starting_stockpile[3]);
        proof {
            let b0: Seq<u8> = seq![code];
            let b1 = le16(self.map.size);
            let b2: Seq<u8> = seq![self.map.players];
            let b3 = le32(self.max_entities);
            let b4 = bool_byte(self.wander);
            let b5 = le32(self.pop_cap_max);
            let b6 = le_i32(self.starting_stockpile[0]);
            let b7 = le_i32(self.starting_stockpile[1]);
            let b8 = le_i32(self.starting_stockpile[2]);
            let b9 = le_i32(self.starting_stockpile[3]);
            lemma_fnv_append(h0, b0, b1);
            lemma_fnv_append(h0, b0 + b1, b2);
            lemma_fnv_append(h0, b0 + b1 + b2, b3);
            lemma_fnv_append(h0, b0 + b1 + b2 + b3, b4);
            lemma_fnv_append(h0, b0 + b1 + b2 + b3 + b4, b5);
            lemma_fnv_append(h0, b0 + b1 + b2 + b3 + b4 + b5, b6);
            lemma_fnv_append(h0, b0 + b1 + b2 + b3 + b4 + b5 + b6, b7);
            lemma_fnv_append(h0, b0 + b1 + b2 + b3 + b4 + b5 + b6 + b7, b8);
            lemma_fnv_append(h0, b0 + b1 + b2 + b3 + b4 + b5 + b6 + b7 + b8, b9);
        }
    }
}

/// Per-tick diagnostics. Not state: excluded from hashes, saves and equality.
#[derive(Clone, Copy, Debug, PartialEq, Eq, Structural)]
pub struct TickStats {
    /// Path searches run this tick.
    pub path_searches: u32,
    /// A\* nodes expanded this tick.
    pub path_nodes: u32,
    /// Walkers that gave up this tick.
    pub path_failures: u32,
    /// Walkers still waiting for a plan at the end of the tick.
    pub path_deferred: u32,
}

impl Default for TickStats {
    /// All counts zero.
    fn default() -> (r: TickStats)
        ensures
            r == (TickStats { path_searches: 0, path_nodes: 0, path_failures: 0, path_deferred: 0 }),
    {
        TickStats { path_searches: 0, path_nodes: 0, path_failures: 0, path_deferred: 0 }
    }
}

/// Why a building cannot be placed.
#[derive(Clone, Copy, PartialEq, Eq, Structural, Debug)]
pub enum PlaceError {
    /// Not a kind players build.
    NotBuildable,
    /// The player has not reached the age it belongs to.
    AgeLocked {
        /// The age it unlocks in.
        needs: Age,
    },
    /// Footprint off the map, on water, or over something.
    Blocked,
    /// Not enough resources.
    Unaffordable,
}

/// Why a technology cannot be queued.
#[derive(Clone, Copy, PartialEq, Eq, Structural, Debug)]
pub enum ResearchError {
    /// No such technology.
    UnknownTech,
    /// The building does not exist or belongs to someone else.
    NotYourBuilding,
    /// The technology is researched somewhere else.
    WrongBuilding,
    /// The building is still a site.
    UnderConstruction,
    /// The player has not reached the age it belongs to.
    AgeLocked {
        /// The age it unlocks in.
        needs: Age,
    },
    /// Another technology must come first.
    MissingPrerequisite {
        /// Which one.
        tech: TechId,
    },
    /// Already complete.
    AlreadyResearched,
    /// Already in a queue somewhere.
    AlreadyQueued,
    /// The building's queue is full.
    QueueFull,
    /// An age advance needs more buildings of the current age.
    NeedBuildings {
        /// Complete, counting buildings the player has.
        have: usize,
        /// How many the advance needs.
        need: usize,
    },
    /// Not enough resources.
    Unaffordable,
}

/// An age's name.
pub open spec fn age_name(a: Age) -> Seq<char> {
    match a {
        Age::Stone => "Stone Age"@,
        Age::Tool => "Tool Age"@,
        Age::Bronze => "Bronze Age"@,
        Age::Iron => "Iron Age"@,
    }
}

/// What a refused setup reads as.
pub open spec fn config_error_text(e: ConfigError) -> Seq<char> {
    match e {
        ConfigError::PopCapOutOfRange { got } => "population cap "@ + dec_digits(got as nat) + " is outside "@ + dec_digits(50)
            + "..="@ + dec_digits(200),
        ConfigError::NegativeStockpile { resource, amount } => "starting stockpile entry "@ + dec_digits(resource as nat)
            + " is "@ + dec_int(amount as int),
    }
}

/// What a refused placement reads as.
pub open spec fn place_error_text(e: PlaceError) -> Seq<char> {
    match e {
        PlaceError::NotBuildable => "not something you can build"@,
        PlaceError::AgeLocked { needs } => "needs the "@ + age_name(needs),
        PlaceError::Blocked => "cannot build there"@,
        PlaceError::Unaffordable => "not enough resources"@,
    }
}

/// A technology's name, or a stand-in for an id the table lacks.
pub open spec fn tech_name(id: TechId) -> Seq<char> {
    match tech_row(id) {
        Some(r) => r.name@,
        None => "another technology"@,
    }
}

/// What a refused research order reads as.
pub open spec fn research_error_text(e: ResearchError) -> Seq<char> {
    match e {
        ResearchError::UnknownTech => "no such technology"@,
        ResearchError::NotYourBuilding => "not your building"@,
        ResearchError::WrongBuilding => "researched elsewhere"@,
        ResearchError::UnderConstruction => "still under construction"@,
        ResearchError::AgeLocked { needs } => "needs the "@ + age_name(needs),
        ResearchError::MissingPrerequisite { tech } => "needs "@ + tech_name(tech),
        ResearchError::AlreadyResearched => "already researched"@,
        ResearchError::AlreadyQueued => "already queued"@,
        ResearchError::QueueFull => "queue is full"@,
        ResearchError::NeedBuildings { have, need } => "needs "@ + dec_digits(need as nat) + " buildings of this age, have "@
            + dec_digits(have as nat),
        ResearchError::Unaffordable => "not enough resources"@,
    }
}

impl ConfigError {
    /// The refusal in words, with the value offered.
    pub fn to_string(&self) -> (r: String)
        ensures
            r@ == config_error_text(*self),
    {
        let mut s = String::new();
        match *self {
            ConfigError::PopCapOutOfRange { got } => {
                let (lo, hi) = POP_CAP_RANGE();
                s.append("population cap ");
                push_unsigned(&mut s, got as u64);
                s.append(" is outside ");
                push_unsigned(&mut s, lo as u64);
                s.append("..=");
                push_unsigned(&mut s, hi as u64);
            },
            ConfigError::NegativeStockpile { resource, amount } => {
                s.append("starting stockpile entry ");
                push_unsigned(&mut s, resource as u64);
                s.append(" is ");
                push_signed(&mut s, amount as i64);
            },
        }
        proof {
            assert(s@ =~= config_error_text(*self));
        }
        s
    }
}

impl PlaceError {
    /// The refusal in words.
    pub fn to_string(&self) -> (r: String)
        ensures
            r@ == place_error_text(*self),
    {
        let mut s = String::new();
        match *self {
            PlaceError::NotBuildable => s.append("not something you can build"),
            PlaceError::AgeLocked { needs } => {
                s.append("needs the ");
                s.append(needs.name());
            },
            PlaceError::Blocked => s.append("cannot build there"),
            PlaceError::Unaffordable => s.append("not enough resources"),
        }
        proof {
            assert(s@ =~= place_error_text(*self));
        }
        s
    }
}

impl ResearchError {
    /// The refusal in words, the way a command panel shows it.
    pub fn to_string(&self) -> (r: String)
        ensures
            r@ == research_error_text(*self),
    {
        let mut s = String::new();
        match *self {
            ResearchError::UnknownTech => s.append("no such technology"),
            ResearchError::NotYourBuilding => s.append("not your building"),
            ResearchError::WrongBuilding => s.append("researched elsewhere"),
            ResearchError::UnderConstruction => s.append("still under construction"),
            ResearchError::AgeLocked { needs } => {
                s.append("needs the ");
                s.append(needs.name());
            },
            ResearchError::MissingPrerequisite { tech } => {
                s.append("needs ");
                match crate::tech::info(tech) {
                    Some(t) => s.append(t.name),
                    None => s.append("another technology"),
                }
            },
            ResearchError::AlreadyResearched => s.append("already researched"),
            ResearchError::AlreadyQueued => s.append("already queued"),
            ResearchError::QueueFull => s.append("queue is full"),
            ResearchError::NeedBuildings { have, need } => {
                s.append("needs ");
                push_unsigned(&mut s, need as u64);
                s.append(" buildings of this age, have ");
                push_unsigned(&mut s, have as u64);
            },
            ResearchError::Unaffordable => s.append("not enough resources"),
        }
        proof {
            assert(s@ =~= research_error_text(*self));
        }
        s
    }
}

/// A simulation invariant that does not hold.
#[derive(Clone, Copy, PartialEq, Eq, Debug)]
pub enum Violation {
    /// The entity store itself is inconsistent.
    World(WorldViolation),
    /// More live entities than `max_entities` allows.
    OverEntityCap {
        /// How many are live.
        live: u32,
        /// The configured cap.
        cap: u32,
    },
    /// A live entity is outside the map.
    PositionOutOfMap {
        /// Which slot.
        slot: u32,
        /// Its position.
        pos: Vec2Fx,
    },
    /// A move order points outside the map.
    TargetOutOfMap {
        /// Which slot.
        slot: u32,
        /// The target.
        target: Vec2Fx,
    },
    /// A live entity has negative health.
    NegativeHealth {
        /// Which slot.
        slot: u32,
        /// Its health.
        health: Fx,
    },
    /// A resource node holds a negative amount.
    NegativeResource {
        /// Which slot.
        slot: u32,
        /// The amount.
        amount: i32,
    },
    /// A villager carries a negative amount.
    NegativeCarry {
        /// Which slot.
        slot: u32,
        /// The amount.
        amount: i32,
    },
    /// A facing is outside `0..8`.
    BadFacing {
        /// Which slot.
        slot: u32,
        /// The value.
        facing: u8,
    },
    /// A stockpile went negative, so something was spent that was not there.
    NegativeStockpile {
        /// Which player.
        player: usize,
        /// Which resource index.
        resource: usize,
        /// The amount.
        amount: i32,
    },
    /// A running gathered total went backwards.
    NegativeGathered {
        /// Which player.
        player: usize,
        /// Which resource index.
        resource: usize,
        /// The amount.
        amount: i32,
    },
    /// A player's population headroom exceeds the match limit.
    PopCapAboveLimit {
        /// Which player.
        player: usize,
        /// Their cap.
        pop_cap: u32,
        /// The match limit.
        limit: u32,
    },
}

/// What a broken invariant reads as.
pub open spec fn sim_violation_text(v: Violation) -> Seq<char> {
    match v {
        Violation::World(w) => violation_text(w),
        Violation::OverEntityCap { live, cap } => dec_digits(live as nat) + " live entities exceeds the cap of "@
            + dec_digits(cap as nat),
        Violation::PositionOutOfMap { slot, pos } => "slot "@ + dec_digits(slot as nat) + " is at "@ + vec_debug_text(pos)
            + ", outside the map"@,
        Violation::TargetOutOfMap { slot, target } => "slot "@ + dec_digits(slot as nat) + " is ordered to "@
            + vec_debug_text(target) + ", outside the map"@,
        Violation::NegativeHealth { slot, health } => "slot "@ + dec_digits(slot as nat) + " has health "@ + fx_text(
            health.0,
        ),
        Violation::NegativeResource { slot, amount } => "slot "@ + dec_digits(slot as nat) + " holds "@ + dec_int(
            amount as int,
        ) + " resource"@,
        Violation::NegativeCarry { slot, amount } => "slot "@ + dec_digits(slot as nat) + " carries "@ + dec_int(amount as int),
        Violation::BadFacing { slot, facing } => "slot "@ + dec_digits(slot as nat) + " faces "@ + dec_digits(facing as nat)
            + ", which is not one of 8"@,
        Violation::NegativeStockpile { player, resource, amount } => "player "@ + dec_digits(player as nat) + " has "@
            + dec_int(amount as int) + " of resource "@ + dec_digits(resource as nat)
            + ": something was spent that was never gathered"@,
        Violation::NegativeGathered { player, resource, amount } => "player "@ + dec_digits(player as nat)
            + " has gathered "@ + dec_int(amount as int) + " of resource "@ + dec_digits(resource as nat),
        Violation::PopCapAboveLimit { player, pop_cap, limit } => "player "@ + dec_digits(player as nat)
            + " has population headroom "@ + dec_digits(pop_cap as nat) + ", above the match limit of "@ + dec_digits(
            limit as nat,
        ),
    }
}

impl Violation {
    /// The broken invariant in words, naming the slot or player.
    pub fn to_string(&self) -> (r: String)
        ensures
            r@ == sim_violation_text(*self),
    {
        let mut s = String::new();
        match *self {
            Violation::World(w) => {
                let t = w.to_string();
                s.append(t.as_str());
            },
            Violation::OverEntityCap { live, cap } => {
                push_unsigned(&mut s, live as u64);
                s.append(" live entities exceeds the cap of ");
                push_unsigned(&mut s, cap as u64);
            },
            Violation::PositionOutOfMap { slot, pos } => {
                s.append("slot ");
                push_unsigned(&mut s, slot as u64);
                s.append(" is at ");
                let t = pos.to_debug_string();
                s.append(t.as_str());
                s.append(", outside the map");
            },
            Violation::TargetOutOfMap { slot, target } => {
                s.append("slot ");
                push_unsigned(&mut s, slot as u64);
                s.append(" is ordered to ");
                let t = target.to_debug_string();
                s.append(t.as_str());
                s.append(", outside the map");
            },
            Violation::NegativeHealth { slot, health } => {
                s.append("slot ");
                push_unsigned(&mut s, slot as u64);
                s.append(" has health ");
                let t = health.to_string();
                s.append(t.as_str());
            },
            Violation::NegativeResource { slot, amount } => {
                s.append("slot ");
                push_unsigned(&mut s, slot as u64);
                s.append(" holds ");
                push_signed(&mut s, amount as i64);
                s.append(" resource");
            },
            Violation::NegativeCarry { slot, amount } => {
                s.append("slot ");
                push_unsigned(&mut s, slot as u64);
                s.append(" carries ");
                push_signed(&mut s, amount as i64);
            },
            Violation::BadFacing { slot, facing } => {
                s.append("slot ");
                push_unsigned(&mut s, slot as u64);
                s.append(" faces ");
                push_unsigned(&mut s, facing as u64);
                s.append(", which is not one of 8");
            },
            Violation::NegativeStockpile { player, resource, amount } => {
                s.append("player ");
                push_unsigned(&mut s, player as u64);
                s.append(" has ");
                push_signed(&mut s, amount as i64);
                s.append(" of resource ");
                push_unsigned(&mut s, resource as u64);
                s.append(": something was spent that was never gathered");
            },
            Violation::NegativeGathered { player, resource, amount } => {
                s.append("player ");
                push_unsigned(&mut s, player as u64);
                s.append(" has gathered ");
                push_signed(&mut s, amount as i64);
                s.append(" of resource ");
                push_unsigned(&mut s, resource as u64);
            },
            Violation::PopCapAboveLimit { player, pop_cap, limit } => {
                s.append("player ");
                push_unsigned(&mut s, player as u64);
                s.append(" has population headroom ");
                push_unsigned(&mut s, pop_cap as u64);
                s.append(", above the match limit of ");
                push_unsigned(&mut s, limit as u64);
            },
        }
        proof {
            assert(s@ =~= sim_violation_text(*self));
        }
        s
    }
}

/// A running match: its parameters, map, players, entities, the commands
/// waiting for their tick, and the log of every command issued.
pub struct Simulation {
    seed: u64,
    tick: u64,
    config: SimConfig,
    rng: Rng,
    map: TileMap,
    /// Hash of the immutable map, folded into every state hash.
    map_hash: u64,
    starts: Vec<(i32, i32)>,
    players: Vec<Player>,
    nav: NavGrid,
    world: World,
    queue: CommandQueue,
    /// Every command ever issued, with its issue tick.
    log: Vec<(u64, Command)>,
    stats: TickStats,
}

/// The largest number of slots a match holds.
pub const MAX_SLOTS: usize = 100_000;

/// `p` moved onto a `w` × `h` map: each coordinate clamped into
/// `0..=edge - 1/65536`.
pub open spec fn clamped_pos(p: Vec2Fx, w: int, h: int) -> Vec2Fx {
    Vec2Fx { x: Fx(clamp_raw(p.x.0 as int, 0, w * 65536 - 1) as i32), y: Fx(clamp_raw(p.y.0 as int, 0, h * 65536 - 1) as i32) }
}

/// The store holds exactly the first `count` of `list`, one per slot in
/// order, each live, of its kind and owner, at its position moved onto a
/// `w` × `h` map; nothing is free.
pub open spec fn holds_spawns(world: World, list: Seq<Spawn>, count: int, w: int, h: int) -> bool {
    &&& world.n() == count
    &&& world.free_list().len() == 0
    &&& forall|k: int|
        0 <= k < count ==> {
            &&& #[trigger] world.flags()[k]
            &&& world.kinds()[k] == list[k].kind
            &&& world.owners()[k] == list[k].owner
            &&& world.positions()[k] == clamped_pos(list[k].pos, w, h)
        }
}

/// `v` clamped into `lo..=hi`.
pub open spec fn clamp_raw(v: int, lo: int, hi: int) -> int {
    if v < lo { lo } else if v > hi { hi } else { v }
}

/// Population used by `p`'s units among the first `k` slots.
pub open spec fn pop_used(w: World, p: int, k: int) -> int
    decreases k,
{
    if k <= 0 {
        0
    } else {
        pop_used(w, p, k - 1) + if w.flags()[k - 1] && w.owners()[k - 1] == p && kind_info(w.kinds()[k - 1]).mobile {
            kind_info(w.kinds()[k - 1]).pop_cost as int
        } else {
            0
        }
    }
}

/// Population room `p`'s finished buildings among the first `k` slots
/// provide.
pub open spec fn pop_room(w: World, p: int, k: int) -> int
    decreases k,
{
    if k <= 0 {
        0
    } else {
        pop_room(w, p, k - 1) + if w.flags()[k - 1] && w.owners()[k - 1] == p && !kind_info(w.kinds()[k - 1]).mobile
            && w.constructions()[k - 1] is None {
            kind_info(w.kinds()[k - 1]).pop_provided as int
        } else {
            0
        }
    }
}

proof fn lemma_pop_bounds(kind: u16)
    ensures
        kind_info(kind).pop_cost <= 1,
        kind_info(kind).pop_provided <= 5,
{
}

proof fn lemma_pop_sums(w: World, p: int, k: int)
    requires
        0 <= k <= w.n(),
        w.wf(),
    ensures
        0 <= pop_used(w, p, k) <= k,
        0 <= pop_room(w, p, k) <= 5 * k,
    decreases k,
{
    if k > 0 {
        lemma_pop_sums(w, p, k - 1);
        w.lemma_wf_cols();
        w.lemma_cols();
        lemma_pop_bounds(w.kinds()[k - 1]);
    }
}

/// Slot `i` holds an idle villager of `p`.
pub open spec fn idle_villager_at(w: World, p: u8, i: int) -> bool {
    &&& w.flags()[i]
    &&& w.owners()[i] == p
    &&& w.kinds()[i] == VILLAGER
    &&& w.orders()[i] is Idle
}

/// The slots among the first `k` holding an idle villager of `p`, in order.
pub open spec fn idle_slots(w: World, p: u8, k: int) -> Seq<int>
    decreases k,
{
    if k <= 0 {
        Seq::empty()
    } else {
        idle_slots(w, p, k - 1) + if idle_villager_at(w, p, k - 1) { seq![k - 1] } else { Seq::empty() }
    }
}

/// Slot `i` holds a finished building of `p` from `age` that counts toward
/// advancing: neither a House, the Town Center nor a Farm.
pub open spec fn age_building_at(w: World, p: u8, age: Age, i: int) -> bool {
    let k = w.kinds()[i];
    &&& w.flags()[i]
    &&& w.owners()[i] == p
    &&& w.constructions()[i] is None
    &&& kind_info(k).buildable && !kind_info(k).mobile && k != HOUSE && k != TOWN_CENTER && k != FARM
    &&& kind_info(k).age == age
}

/// How many of the first `k` slots hold such a building.
pub open spec fn age_building_count(w: World, p: u8, age: Age, k: int) -> int
    decreases k,
{
    if k <= 0 {
        0
    } else {
        age_building_count(w, p, age, k - 1) + if age_building_at(w, p, age, k - 1) { 1int } else { 0 }
    }
}

/// Slot `i` of `v` can never count toward `age`: it is an unfinished site,
/// a house, a town centre, a farm, a unit, or of another age.
pub open spec fn never_counts(v: World, age: Age, i: int) -> bool {
    let k = v.kinds()[i];
    ||| v.constructions()[i] is Some
    ||| k == HOUSE
    ||| k == TOWN_CENTER
    ||| k == FARM
    ||| kind_info(k).mobile
    ||| kind_info(k).age != age
}

/// Replacing entities by ones that can never count (unfinished sites,
/// houses, town centres, farms, units, or buildings of another age) never
/// raises a player's count of buildings toward `age`, and lowers it when a
/// replaced entity was counted.
pub proof fn lemma_never_counts(w: World, v: World, p: u8, age: Age, k: int)
    requires
        0 <= k <= w.n(),
        v.n() == w.n(),
        forall|i: int| 0 <= i < k ==> #[trigger] v.flags()[i] == w.flags()[i] && v.owners()[i] == w.owners()[i]
            && (v.kinds()[i] == w.kinds()[i] && v.constructions()[i] == w.constructions()[i] || never_counts(v, age, i)),
    ensures
        age_building_count(v, p, age, k) <= age_building_count(w, p, age, k),
        (exists|i: int| 0 <= i < k && #[trigger] age_building_at(w, p, age, i) && never_counts(v, age, i))
            ==> age_building_count(v, p, age, k) < age_building_count(w, p, age, k),
    decreases k,
{
    if k > 0 {
        lemma_never_counts(w, v, p, age, k - 1);
        let i = k - 1;
        assert(v.flags()[i] == w.flags()[i]);
        if exists|j: int| 0 <= j < k && #[trigger] age_building_at(w, p, age, j) && never_counts(v, age, j) {
            let j = choose|j: int| 0 <= j < k && #[trigger] age_building_at(w, p, age, j) && never_counts(v, age, j);
            if j < k - 1 {
                assert(exists|j2: int| 0 <= j2 < k - 1 && #[trigger] age_building_at(w, p, age, j2) && never_counts(v, age, j2));
            }
        }
    }
}

/// A player none of whose entities is finished has no building toward any
/// age.
pub proof fn lemma_only_sites_count_nothing(w: World, p: u8, age: Age, k: int)
    requires
        0 <= k <= w.n(),
        forall|i: int| 0 <= i < k && w.flags()[i] && w.owners()[i] == p ==> #[trigger] w.constructions()[i] is Some,
    ensures
        age_building_count(w, p, age, k) == 0,
    decreases k,
{
    if k > 0 {
        lemma_only_sites_count_nothing(w, p, age, k - 1);
        assert(w.flags()[k - 1] && w.owners()[k - 1] == p ==> w.constructions()[k - 1] is Some);
    }
}

/// A production queue holds technology `id`.
pub open spec fn queues_tech(prod: Option<Production>, id: u16) -> bool {
    prod matches Some(q) && exists|j: int| 0 <= j < q.queue@.len() && (#[trigger] q.queue@[j]).item == Item::Tech(id)
}

/// Some live building of `p` has technology `id` queued.
pub open spec fn tech_queued_in(w: World, p: u8, id: u16) -> bool {
    exists|i: int| 0 <= i < w.n() && w.flags()[i] && w.owners()[i] == p && queues_tech(#[trigger] w.productions()[i], id)
}

/// A position lies on a `mw` × `mh` tile map.
pub open spec fn on_map(v: Vec2Fx, mw: int, mh: int) -> bool {
    0 <= v.x.0 < mw * 65536 && 0 <= v.y.0 < mh * 65536
}

/// The amount carried; nothing carried counts as zero.
pub open spec fn carried(c: Option<(Resource, i32)>) -> int {
    match c {
        Some((_, n)) => n as int,
        None => 0,
    }
}

/// What is wrong with live slot `i`, checked in order: position, move
/// target, health, resource, carried amount, facing.
pub open spec fn slot_problem(w: World, mw: int, mh: int, i: int) -> Option<Violation> {
    let s = i as u32;
    if !on_map(w.positions()[i], mw, mh) {
        Some(Violation::PositionOutOfMap { slot: s, pos: w.positions()[i] })
    } else if w.move_targets()[i] matches Some(t) && !on_map(t, mw, mh) {
        Some(Violation::TargetOutOfMap { slot: s, target: w.move_targets()[i]->0 })
    } else if w.healths()[i].0 < 0 {
        Some(Violation::NegativeHealth { slot: s, health: w.healths()[i] })
    } else if w.resources()[i] < 0 {
        Some(Violation::NegativeResource { slot: s, amount: w.resources()[i] })
    } else if carried(w.carries()[i]) < 0 {
        Some(Violation::NegativeCarry { slot: s, amount: carried(w.carries()[i]) as i32 })
    } else if w.facings()[i] >= 8 {
        Some(Violation::BadFacing { slot: s, facing: w.facings()[i] })
    } else {
        None
    }
}

/// The problem of the lowest live slot among the first `k` that has one.
pub open spec fn first_slot_problem(w: World, mw: int, mh: int, k: int) -> Option<Violation>
    decreases k,
{
    if k <= 0 {
        None
    } else {
        match first_slot_problem(w, mw, mh, k - 1) {
            Some(v) => Some(v),
            None => if w.flags()[k - 1] { slot_problem(w, mw, mh, k - 1) } else { None },
        }
    }
}

/// The first negative entry among the first `k` of `xs`.
pub open spec fn first_negative_at(xs: Seq<i32>, k: int) -> Option<int>
    decreases k,
{
    if k <= 0 {
        None
    } else {
        match first_negative_at(xs, k - 1) {
            Some(j) => Some(j),
            None => if xs[k - 1] < 0 { Some(k - 1) } else { None },
        }
    }
}

/// What is wrong with player `p`: a negative stockpile, then a negative
/// running total, then headroom above the match limit.
pub open spec fn player_problem(pl: Player, p: int, cap: u32) -> Option<Violation> {
    match first_negative_at(pl.stockpile@, 4) {
        Some(r) => Some(Violation::NegativeStockpile { player: p as usize, resource: r as usize, amount: pl.stockpile@[r] }),
        None => match first_negative_at(pl.gathered@, 4) {
            Some(r) => Some(Violation::NegativeGathered { player: p as usize, resource: r as usize, amount: pl.gathered@[r] }),
            None => if pl.pop_cap > cap {
                Some(Violation::PopCapAboveLimit { player: p as usize, pop_cap: pl.pop_cap, limit: cap })
            } else {
                None
            },
        },
    }
}

/// The problem of the first of the first `k` players that has one.
pub open spec fn first_player_problem(ps: Seq<Player>, cap: u32, k: int) -> Option<Violation>
    decreases k,
{
    if k <= 0 {
        None
    } else {
        match first_player_problem(ps, cap, k - 1) {
            Some(v) => Some(v),
            None => player_problem(ps[k - 1], k - 1, cap),
        }
    }
}

/// What [`Simulation::check`] reports for a well-formed entity store: too
/// many live entities, else the first slot problem, else the first player
/// problem, else nothing.
pub open spec fn sim_verdict(w: World, mw: int, mh: int, max_entities: u32, ps: Seq<Player>, cap: u32) -> Result<(), Violation> {
    if w.live_count() > max_entities {
        Err(Violation::OverEntityCap { live: w.live_count(), cap: max_entities })
    } else {
        match first_slot_problem(w, mw, mh, w.n() as int) {
            Some(v) => Err(v),
            None => match first_player_problem(ps, cap, ps.len() as int) {
                Some(v) => Err(v),
                None => Ok(()),
            },
        }
    }
}

/// Once a slot problem is found, scanning further slots keeps it.
proof fn lemma_first_slot_kept(w: World, mw: int, mh: int, k: int, m: int)
    requires
        0 <= k <= m,
        first_slot_problem(w, mw, mh, k) is Some,
    ensures
        first_slot_problem(w, mw, mh, m) == first_slot_problem(w, mw, mh, k),
    decreases m - k,
{
    if m > k {
        lemma_first_slot_kept(w, mw, mh, k, m - 1);
    }
}

/// Once a negative entry is found, scanning further entries keeps it.
proof fn lemma_first_negative_kept(xs: Seq<i32>, k: int, m: int)
    requires
        0 <= k <= m,
        first_negative_at(xs, k) is Some,
    ensures
        first_negative_at(xs, m) == first_negative_at(xs, k),
    decreases m - k,
{
    if m > k {
        lemma_first_negative_kept(xs, k, m - 1);
    }
}

/// Once a player problem is found, scanning further players keeps it.
proof fn lemma_first_player_kept(ps: Seq<Player>, cap: u32, k: int, m: int)
    requires
        0 <= k <= m,
        first_player_problem(ps, cap, k) is Some,
    ensures
        first_player_problem(ps, cap, m) == first_player_problem(ps, cap, k),
    decreases m - k,
{
    if m > k {
        lemma_first_player_kept(ps, cap, k, m - 1);
    }
}

/// Every live slot of `w` passes the per-entity checks on a `mw` × `mh`
/// map.
pub open spec fn slots_sane(w: World, mw: int, mh: int) -> bool {
    forall|i: int| 0 <= i < w.n() && w.flags()[i] ==> #[trigger] slot_problem(w, mw, mh, i) is None
}

/// Every kind's full health and fresh node amount are not negative.
proof fn lemma_kind_sane(kind: u16)
    ensures
        kind_info(kind).max_health >= 0,
        kind_info(kind).resource matches Some(r) ==> r.1 >= 0,
{
}

/// With every live slot sane, no slot problem is found.
proof fn lemma_sane_no_problem(w: World, mw: int, mh: int, k: int)
    requires
        slots_sane(w, mw, mh),
        0 <= k <= w.n(),
    ensures
        first_slot_problem(w, mw, mh, k) is None,
    decreases k,
{
    if k > 0 {
        lemma_sane_no_problem(w, mw, mh, k - 1);
        if w.flags()[k - 1] {
            assert(slot_problem(w, mw, mh, k - 1) is None);
        }
    }
}

/// No entry is negative, so none is found.
proof fn lemma_no_negative(xs: Seq<i32>, k: int)
    requires
        0 <= k <= xs.len(),
        forall|j: int| 0 <= j < k ==> xs[j] >= 0,
    ensures
        first_negative_at(xs, k) is None,
    decreases k,
{
    if k > 0 {
        lemma_no_negative(xs, k - 1);
    }
}

/// Players with nothing negative and headroom within the limit have no
/// problem.
proof fn lemma_players_sound(ps: Seq<Player>, cap: u32, k: int)
    requires
        0 <= k <= ps.len(),
        forall|p: int| 0 <= p < k ==> {
            &&& (forall|j: int| 0 <= j < 4 ==> (#[trigger] ps[p].stockpile@[j]) >= 0)
            &&& (forall|j: int| 0 <= j < 4 ==> (#[trigger] ps[p].gathered@[j]) >= 0)
            &&& (#[trigger] ps[p]).pop_cap <= cap
        },
    ensures
        first_player_problem(ps, cap, k) is None,
    decreases k,
{
    if k > 0 {
        lemma_players_sound(ps, cap, k - 1);
        let pl = ps[k - 1];
        assert(pl.pop_cap <= cap);
        lemma_no_negative(pl.stockpile@, 4);
        lemma_no_negative(pl.gathered@, 4);
    }
}

/// The first of `reqs` not in `done`.
pub open spec fn first_missing(reqs: Seq<u16>, done: Seq<u16>) -> Option<u16>
    decreases reqs.len(),
{
    if reqs.len() == 0 {
        None
    } else if !done.contains(reqs[0]) {
        Some(reqs[0])
    } else {
        first_missing(reqs.skip(1), done)
    }
}

/// Production queues hold at most this many items.
pub const QUEUE_LIMIT: usize = 5;

/// What [`Simulation::can_research`] answers for `p` queueing technology
/// `id` at `building`: the first check that fails, in the order the
/// `Research` command runs them.
pub open spec fn research_verdict(players: Seq<Player>, w: World, p: u8, building: EntityId, id: u16) -> Result<(), ResearchError> {
    match tech_row(id) {
        None => Err(ResearchError::UnknownTech),
        Some(t) => {
            let i = building.idx() as int;
            if !(w.live_id(building) && w.owners()[i] == p) {
                Err(ResearchError::NotYourBuilding)
            } else if w.kinds()[i] != t.building {
                Err(ResearchError::WrongBuilding)
            } else if w.constructions()[i] is Some {
                Err(ResearchError::UnderConstruction)
            } else if p >= players.len() {
                Err(ResearchError::NotYourBuilding)
            } else if players[p as int].researched@.contains(id) {
                Err(ResearchError::AlreadyResearched)
            } else if advance_of(t.effects) is Some && age_rank(players[p as int].age) > age_rank(t.age) {
                Err(ResearchError::AlreadyResearched)
            } else if age_rank(players[p as int].age) < age_rank(t.age) {
                Err(ResearchError::AgeLocked { needs: t.age })
            } else if first_missing(t.requires, players[p as int].researched@) is Some {
                Err(ResearchError::MissingPrerequisite { tech: first_missing(t.requires, players[p as int].researched@)->0 })
            } else if tech_queued_in(w, p, id) {
                Err(ResearchError::AlreadyQueued)
            } else if w.productions()[i] matches Some(q) && q.queue@.len() >= QUEUE_LIMIT {
                Err(ResearchError::QueueFull)
            } else if advance_of(t.effects) is Some && age_building_count(w, p, players[p as int].age, w.n() as int)
                < AGE_BUILDINGS_REQUIRED {
                Err(
                    ResearchError::NeedBuildings {
                        have: age_building_count(w, p, players[p as int].age, w.n() as int) as usize,
                        need: AGE_BUILDINGS_REQUIRED,
                    },
                )
            } else if !affords(players[p as int].stockpile@, t.cost@) {
                Err(ResearchError::Unaffordable)
            } else {
                Ok(())
            }
        },
    }
}

/// What [`Simulation::can_place`] answers for `p` placing `kind` anchored
/// at `(x, y)`.
pub open spec fn place_verdict(players: Seq<Player>, nav: NavGrid, p: int, kind: u16, x: int, y: int) -> Result<(), PlaceError> {
    let k = kind_info(kind);
    if !k.buildable {
        Err(PlaceError::NotBuildable)
    } else if p >= players.len() {
        Err(PlaceError::Unaffordable)
    } else if age_rank(players[p].age) < age_rank(k.age) {
        Err(PlaceError::AgeLocked { needs: k.age })
    } else if !(forall|tx: int, ty: int| in_footprint(x, y, k.footprint as int, tx, ty) ==> #[trigger] nav.open_at(tx, ty)) {
        Err(PlaceError::Blocked)
    } else if !affords(players[p].stockpile@, k.cost@) {
        Err(PlaceError::Unaffordable)
    } else {
        Ok(())
    }
}

/// Every entry is a technology id of the table's range.
pub open spec fn ids_in_table(s: Seq<u16>) -> bool {
    forall|k: int| 0 <= k < s.len() ==> 1 <= #[trigger] s[k] <= 22
}

/// Every bonus lies between zero and what `n` technologies can add.
pub open spec fn mods_within(m: Modifiers, n: int) -> bool {
    &&& forall|i: int| 0 <= i < 4 ==> 0 <= #[trigger] m.gather_rate_pct@[i] <= 400 * n
    &&& 0 <= m.carry_bonus <= 400 * n
    &&& 0 <= m.farm_yield_bonus <= 400 * n
    &&& 0 <= m.villager_speed_pct <= 400 * n
    &&& 0 <= m.build_speed_pct <= 400 * n
}

/// What a player's technology record keeps: researched ids sorted, each
/// from the table, and bonuses no larger than those technologies give.
pub open spec fn player_ok(pl: Player) -> bool {
    &&& strictly_sorted(pl.researched@)
    &&& ids_in_table(pl.researched@)
    &&& pl.researched@.len() <= 22
    &&& mods_within(pl.modifiers, pl.researched@.len() as int)
}

/// The players' state bytes, one after another.
pub open spec fn players_bytes(ps: Seq<Player>) -> Seq<u8>
    decreases ps.len(),
{
    if ps.len() == 0 {
        Seq::empty()
    } else {
        players_bytes(ps.drop_last()) + ps.last().state_bytes()
    }
}

/// The players' bytes grow by one player's bytes at a time.
proof fn lemma_players_bytes_step(ps: Seq<Player>, i: int, acc: Seq<u8>)
    requires
        0 <= i < ps.len(),
    ensures
        (acc + players_bytes(ps.take(i))) + ps[i].state_bytes() == acc + players_bytes(ps.take(i + 1)),
{
    assert(ps.take(i + 1).drop_last() =~= ps.take(i));
    assert(ps.take(i + 1).last() == ps[i]);
    assert((acc + players_bytes(ps.take(i))) + ps[i].state_bytes() =~= acc + players_bytes(ps.take(i + 1)));
}

/// `pl` with its population and headroom replaced.
pub open spec fn with_pop(pl: Player, pop: int, cap: int) -> Player {
    Player { pop: pop as u32, pop_cap: cap as u32, ..pl }
}

/// `p`'s headroom: the room its finished buildings provide, capped by the
/// match limit.
pub open spec fn capped_room(w: World, p: int, cap: u32) -> int {
    if pop_room(w, p, w.n() as int) < cap { pop_room(w, p, w.n() as int) } else { cap as int }
}

/// The players as a recount leaves them: every other field as it was.
pub open spec fn recounted(players: Seq<Player>, w: World, cap: u32) -> Seq<Player> {
    Seq::new(players.len(), |p: int| with_pop(players[p], pop_used(w, p, w.n() as int), capped_room(w, p, cap)))
}

/// Recounting players who hold the opening economy changes only their
/// population and headroom.
proof fn lemma_recounted_opening(p0: Seq<Player>, w: World, cap: u32, stockpile: [i32; 4])
    requires
        forall|p: int| 0 <= p < p0.len() ==> (#[trigger] p0[p]).opening(stockpile),
        w.wf(),
        w.n() <= MAX_SLOTS,
    ensures
        forall|p: int| 0 <= p < p0.len() ==> {
            let pl = #[trigger] recounted(p0, w, cap)[p];
            &&& pl.pop == pop_used(w, p, w.n() as int)
            &&& pl.pop_cap == capped_room(w, p, cap)
            &&& with_pop(pl, 0, 0).opening(stockpile)
        },
{
    assert forall|p: int| 0 <= p < p0.len() implies {
        let pl = #[trigger] recounted(p0, w, cap)[p];
        &&& pl.pop == pop_used(w, p, w.n() as int)
        &&& pl.pop_cap == capped_room(w, p, cap)
        &&& with_pop(pl, 0, 0).opening(stockpile)
    } by {
        assert(p0[p].opening(stockpile));
        lemma_pop_sums(w, p, w.n() as int);
        assert(with_pop(recounted(p0, w, cap)[p], 0, 0) == p0[p]);
    }
}

impl Simulation {
    /// The seed the match was created with.
    pub closed spec fn seed_of(&self) -> u64 {
        self.seed
    }

    /// Ticks completed.
    pub closed spec fn tick_of(&self) -> u64 {
        self.tick
    }

    /// The match parameters.
    pub closed spec fn config_of(&self) -> SimConfig {
        self.config
    }

    /// The generator.
    pub closed spec fn rng_of(&self) -> Rng {
        self.rng
    }

    /// Terrain and elevation.
    pub closed spec fn map_of(&self) -> TileMap {
        self.map
    }

    /// The hash of the map.
    pub closed spec fn map_hash_of(&self) -> u64 {
        self.map_hash
    }

    /// Each player's Town Center tile.
    pub closed spec fn starts_of(&self) -> Seq<(i32, i32)> {
        self.starts@
    }

    /// The players' economies.
    pub closed spec fn players_of(&self) -> Seq<Player> {
        self.players@
    }

    /// Passability.
    pub closed spec fn nav_of(&self) -> NavGrid {
        self.nav
    }

    /// The entities.
    pub closed spec fn world_of(&self) -> World {
        self.world
    }

    /// The commands waiting for their tick.
    pub closed spec fn queue_of(&self) -> CommandQueue {
        self.queue
    }

    /// Every command issued, with its issue tick.
    pub closed spec fn log_of(&self) -> Seq<(u64, Command)> {
        self.log@
    }

    /// The last tick's diagnostics.
    pub closed spec fn stats_of(&self) -> TickStats {
        self.stats
    }

    /// The bytes the state hash covers.
    pub closed spec fn hashed_bytes(&self) -> Seq<u8> {
        le64(self.tick) + config_bytes(self.config) + le64(self.map_hash) + self.rng.state_bytes() + players_bytes(
            self.players@,
        ) + self.nav.state_bytes() + world_bytes(&self.world) + self.queue.state_bytes()
    }

    /// Everything the match keeps holds together, the labels of the
    /// passability grid aside.
    pub closed spec fn parts_ok(&self) -> bool {
        &&& self.world.wf()
        &&& self.world.n() <= MAX_SLOTS
        &&& self.map.wf()
        &&& 48 <= self.map.w() <= 256
        &&& 48 <= self.map.h() <= 256
        &&& self.nav.wf()
        &&& self.nav.gw() == self.map.w()
        &&& self.nav.gh() == self.map.h()
        &&& 1 <= self.players@.len() <= 8
        &&& forall|p: int| 0 <= p < self.players@.len() ==> player_ok(#[trigger] self.players@[p])
        &&& self.queue.wf()
    }

    /// Everything the match keeps holds together, and the passability
    /// grid's labels are current.
    pub closed spec fn wf(&self) -> bool {
        &&& self.parts_ok()
        &&& !self.nav.is_dirty()
    }
}

impl Simulation {
    /// A fresh match at tick 0, with its map generated from the seed and
    /// populated as [`Simulation::from_generated`] does.
    pub fn new(seed: u64, config: SimConfig) -> (r: Simulation)
        ensures
            r.wf(),
            r.seed_of() == seed,
            r.tick_of() == 0,
            r.config_of() == config,
            r.rng_of().seeded(seed),
            r.rng_of().words().len() == 4,
            r.map_of().smooth(),
            r.map_of().w() == clamp_int(config.map.size as int, 48, 256),
            r.map_of().h() == clamp_int(config.map.size as int, 48, 256),
            r.map_hash_of() == fnv(OFFSET, r.map_of().state_bytes()),
            r.starts_of().len() == clamp_int(config.map.players as int, 1, 8),
            starts_inside(r.starts_of(), clamp_int(config.map.size as int, 48, 256)),
            r.players_of().len() == clamp_int(config.map.players as int, 1, 8),
            forall|p: int| 0 <= p < r.players_of().len() ==> {
                let pl = #[trigger] r.players_of()[p];
                &&& pl.pop == pop_used(r.world_of(), p, r.world_of().n() as int)
                &&& pl.pop_cap == capped_room(r.world_of(), p, config.pop_cap_max)
                &&& with_pop(pl, 0, 0).opening(config.starting_stockpile)
            },
            r.world_of().live_count() <= config.max_entities,
            r.world_of().n() <= MAX_SLOTS,
            config.map.kind == MapKind::Flat ==> r.world_of().n() == 0,
            (forall|j: int| 0 <= j < 4 ==> config.starting_stockpile@[j] >= 0) ==> sim_verdict(
                r.world_of(),
                r.map_of().w() as int,
                r.map_of().h() as int,
                config.max_entities,
                r.players_of(),
                config.pop_cap_max,
            ) == Ok::<(), Violation>(()),
            r.nav_of().gw() == r.map_of().w(),
            r.nav_of().gh() == r.map_of().h(),
            r.queue_of().batches().len() == 0,
            forall|p: int| 0 <= p < MAX_PLAYERS ==> #[trigger] r.queue_of().seqs()[p] == 0,
            r.log_of().len() == 0,
            r.stats_of() == (TickStats { path_searches: 0, path_nodes: 0, path_failures: 0, path_deferred: 0 }),
    {
        let generated = generate(seed, &config.map);
        Simulation::from_generated(seed, config, generated)
    }

    /// A fresh match at tick 0 on a generated map: its tiles and starts as
    /// given, its spawns placed in order (up to `max_entities`), every
    /// player with the starting stockpile and its population counted.
    pub fn from_generated(seed: u64, config: SimConfig, generated: Generated) -> (r: Simulation)
        requires
            generated.tiles.wf(),
            48 <= generated.tiles.w() <= 256,
            48 <= generated.tiles.h() <= 256,
            generated.spawns@.len() <= 100_000,
        ensures
            r.wf(),
            r.seed_of() == seed,
            r.tick_of() == 0,
            r.config_of() == config,
            r.rng_of().seeded(seed),
            r.rng_of().words().len() == 4,
            r.map_of() == generated.tiles,
            r.map_hash_of() == fnv(OFFSET, r.map_of().state_bytes()),
            r.starts_of() == generated.starts@,
            r.players_of().len() == clamp_int(config.map.players as int, 1, 8),
            forall|p: int| 0 <= p < r.players_of().len() ==> {
                let pl = #[trigger] r.players_of()[p];
                &&& pl.pop == pop_used(r.world_of(), p, r.world_of().n() as int)
                &&& pl.pop_cap == capped_room(r.world_of(), p, config.pop_cap_max)
                &&& with_pop(pl, 0, 0).opening(config.starting_stockpile)
            },
            r.world_of().live_count() <= config.max_entities,
            r.world_of().n() <= MAX_SLOTS,
            holds_spawns(
                r.world_of(),
                generated.spawns@,
                if generated.spawns@.len() <= config.max_entities {
                    generated.spawns@.len() as int
                } else {
                    config.max_entities as int
                },
                generated.tiles.w() as int,
                generated.tiles.h() as int,
            ),
            (forall|j: int| 0 <= j < 4 ==> config.starting_stockpile@[j] >= 0) ==> sim_verdict(
                r.world_of(),
                r.map_of().w() as int,
                r.map_of().h() as int,
                config.max_entities,
                r.players_of(),
                config.pop_cap_max,
            ) == Ok::<(), Violation>(()),
            r.nav_of().gw() == r.map_of().w(),
            r.nav_of().gh() == r.map_of().h(),
            r.queue_of().batches().len() == 0,
            forall|p: int| 0 <= p < MAX_PLAYERS ==> #[trigger] r.queue_of().seqs()[p] == 0,
            r.log_of().len() == 0,
            r.stats_of() == (TickStats { path_searches: 0, path_nodes: 0, path_failures: 0, path_deferred: 0 }),
    {
        let mut map_hasher = StateHasher::new();
        generated.tiles.hash_state(&mut map_hasher);
        let np: u8 = if config.map.players < 1 { 1 } else if config.map.players > 8 { 8 } else { config.map.players };
        let mut players: Vec<Player> = Vec::new();
        let mut k: u8 = 0;
        while k < np
            invariant
                k <= np,
                players@.len() == k,
                forall|p: int| 0 <= p < k ==> (#[trigger] players@[p]).opening(config.starting_stockpile),
            decreases np - k,
        {
            players.push(Player::with_stockpile(config.starting_stockpile));
            k = k + 1;
        }
        let ghost p0 = players@;
        proof {
            let w = generated.tiles.w();
            let h = generated.tiles.h();
            assert(w * h <= 65536) by (nonlinear_arith)
                requires
                    0 <= w <= 256,
                    0 <= h <= 256,
            ;
        }
        let nav = NavGrid::from_map(&generated.tiles);
        let ghost spawns = generated.spawns@;
        let Generated { tiles, spawns: spawn_list, starts, attempts: _ } = generated;
        let mut sim = Simulation {
            seed,
            tick: 0,
            config,
            rng: Rng::new(seed),
            map: tiles,
            map_hash: map_hasher.finish(),
            starts,
            players,
            nav,
            world: World::new(),
            queue: CommandQueue::new(),
            log: Vec::new(),
            stats: TickStats::default(),
        };
        sim.place_spawns(&spawn_list);
        sim.nav.refresh();
        sim.recount_population();
        proof {
            lemma_recounted_opening(p0, sim.world, config.pop_cap_max, config.starting_stockpile);
            let w = sim.world;
            let mw = sim.map.w() as int;
            let mh = sim.map.h() as int;
            lemma_sane_no_problem(w, mw, mh, w.n() as int);
            if forall|j: int| 0 <= j < 4 ==> config.starting_stockpile@[j] >= 0 {
                assert forall|p: int| 0 <= p < sim.players@.len() implies {
                    &&& (forall|j: int| 0 <= j < 4 ==> (#[trigger] sim.players@[p].stockpile@[j]) >= 0)
                    &&& (forall|j: int| 0 <= j < 4 ==> (#[trigger] sim.players@[p].gathered@[j]) >= 0)
                    &&& (#[trigger] sim.players@[p]).pop_cap <= config.pop_cap_max
                } by {
                    assert(sim.players@[p] == recounted(p0, w, config.pop_cap_max)[p]);
                    assert(p0[p].opening(config.starting_stockpile));
                }
                lemma_players_sound(sim.players@, config.pop_cap_max, sim.players@.len() as int);
            }
        }
        sim
    }
}

impl Simulation {
    /// The seed this match was created with.
    pub fn seed(&self) -> (r: u64)
        ensures
            r == self.seed_of(),
    {
        self.seed
    }

    /// Ticks completed so far.
    pub fn tick(&self) -> (r: u64)
        ensures
            r == self.tick_of(),
    {
        self.tick
    }

    /// Match parameters.
    pub fn config(&self) -> (r: &SimConfig)
        ensures
            *r == self.config_of(),
    {
        &self.config
    }

    /// Terrain and elevation.
    pub fn map(&self) -> (r: &TileMap)
        ensures
            *r == self.map_of(),
    {
        &self.map
    }

    /// Passability.
    pub fn nav(&self) -> (r: &NavGrid)
        ensures
            *r == self.nav_of(),
    {
        &self.nav
    }

    /// Each player's Town Center tile.
    pub fn starts(&self) -> (r: &[(i32, i32)])
        ensures
            r@ == self.starts_of(),
    {
        self.starts.as_slice()
    }

    /// Read access to entities.
    pub fn world(&self) -> (r: &World)
        ensures
            *r == self.world_of(),
    {
        &self.world
    }

    /// Every player's economy.
    pub fn players(&self) -> (r: &[Player])
        ensures
            r@ == self.players_of(),
    {
        self.players.as_slice()
    }

    /// One player's economy, if the id is valid.
    pub fn player(&self, p: u8) -> (r: Option<&Player>)
        ensures
            (p as int) < self.players_of().len() ==> r == Some(&self.players_of()[p as int]),
            (p as int) >= self.players_of().len() ==> r is None,
    {
        if (p as usize) < self.players.len() {
            Some(&self.players[p as usize])
        } else {
            None
        }
    }

    /// The generator's draw count; handy in desync diagnostics.
    pub fn rng_draws(&self) -> (r: u64)
        ensures
            r == self.rng_of().count(),
    {
        self.rng.draws()
    }

    /// Diagnostics for the last tick.
    pub fn stats(&self) -> (r: TickStats)
        ensures
            r == self.stats_of(),
    {
        self.stats
    }

    /// A point moved onto the map: each coordinate clamped into
    /// `0..=edge - 1/65536`.
    fn clamp_to_map(&self, p: Vec2Fx) -> (r: Vec2Fx)
        requires
            self.parts_ok(),
        ensures
            r.x.0 == clamp_raw(p.x.0 as int, 0, self.map.w() * 65536 - 1),
            r.y.0 == clamp_raw(p.y.0 as int, 0, self.map.h() * 65536 - 1),
    {
        let max_x = Fx::from_int(self.map.width()) - Fx::EPSILON();
        let max_y = Fx::from_int(self.map.height()) - Fx::EPSILON();
        Vec2Fx::new(p.x.clamp(Fx::ZERO(), max_x), p.y.clamp(Fx::ZERO(), max_y))
    }

    /// Issues a command at the current tick; returns the tick it will run
    /// on, [`COMMAND_DELAY`] ticks on (saturating). The command is logged
    /// with its issue tick and scheduled under the player's next sequence
    /// number; nothing else changes.
    pub fn issue(&mut self, command: Command) -> (r: u64)
        requires
            old(self).wf(),
            command.player < MAX_PLAYERS,
        ensures
            final(self).wf(),
            r == if old(self).tick_of() as int + COMMAND_DELAY <= u64::MAX {
                (old(self).tick_of() + COMMAND_DELAY) as u64
            } else {
                u64::MAX
            },
            final(self).log_of().len() == old(self).log_of().len() + 1,
            final(self).log_of().take(old(self).log_of().len() as int) == old(self).log_of(),
            final(self).log_of().last().0 == old(self).tick_of(),
            same_command(final(self).log_of().last().1, command),
            scheduled_into(
                old(self).queue_of().batches(),
                r,
                Scheduled { seq: old(self).queue_of().seqs()[command.player as int], command },
                final(self).queue_of().batches(),
            ),
            final(self).queue_of().seqs() == old(self).queue_of().seqs().update(
                command.player as int,
                old(self).queue_of().seqs()[command.player as int].wrapping_add(1),
            ),
            final(self).seed_of() == old(self).seed_of(),
            final(self).tick_of() == old(self).tick_of(),
            final(self).config_of() == old(self).config_of(),
            final(self).rng_of() == old(self).rng_of(),
            final(self).map_of() == old(self).map_of(),
            final(self).map_hash_of() == old(self).map_hash_of(),
            final(self).starts_of() == old(self).starts_of(),
            final(self).players_of() == old(self).players_of(),
            final(self).nav_of() == old(self).nav_of(),
            final(self).world_of() == old(self).world_of(),
            final(self).stats_of() == old(self).stats_of(),
    {
        let copy = command.clone();
        self.log.push((self.tick, copy));
        let r = self.queue.schedule(self.tick, command);
        proof {
            assert(self.log@.take(self.log@.len() - 1) =~= old(self).log@);
        }
        r
    }

    /// Everything needed to reproduce this match up to the current tick:
    /// the seed, the parameters, the ticks run and the command log.
    pub fn replay(&self) -> (r: Replay)
        ensures
            r.version == Replay::VERSION,
            r.seed == self.seed_of(),
            r.config == self.config_of(),
            r.ticks == self.tick_of(),
            r.commands@.len() == self.log_of().len(),
            forall|i: int| 0 <= i < self.log_of().len() ==> (#[trigger] r.commands@[i]).0 == self.log_of()[i].0
                && same_command(r.commands@[i].1, self.log_of()[i].1),
    {
        let mut commands: Vec<(u64, Command)> = Vec::new();
        let mut i: usize = 0;
        while i < self.log.len()
            invariant
                i <= self.log@.len(),
                commands@.len() == i,
                forall|j: int| 0 <= j < i ==> (#[trigger] commands@[j]).0 == self.log@[j].0
                    && same_command(commands@[j].1, self.log@[j].1),
            decreases self.log.len() - i,
        {
            let t = self.log[i].0;
            let c = self.log[i].1.clone();
            commands.push((t, c));
            i = i + 1;
        }
        Replay { version: Replay::VERSION, seed: self.seed, config: self.config, ticks: self.tick, commands }
    }

    /// A player's technology modifiers; the neutral ones for an owner the
    /// match does not have (Gaia, or a scenario's spare player).
    pub fn modifiers(&self, p: u8) -> (r: Modifiers)
        ensures
            (p as int) < self.players_of().len() ==> r == self.players_of()[p as int].modifiers,
            (p as int) >= self.players_of().len() ==> r.neutral(),
    {
        if (p as usize) < self.players.len() {
            self.players[p as usize].modifiers
        } else {
            Modifiers::default()
        }
    }

    /// The slot of `id` when it is live and `player` owns it.
    fn owned_slot(&self, id: EntityId, player: u8) -> (r: Option<usize>)
        requires
            self.parts_ok(),
        ensures
            r is Some <==> self.world.live_id(id) && self.world.owners()[id.idx() as int] == player,
            r matches Some(i) ==> i == id.idx() && i < self.world.n(),
    {
        proof {
            self.world.lemma_wf_cols();
            self.world.lemma_cols();
        }
        match self.world.slot(id) {
            Some(slot) => {
                let i = slot.index();
                if self.world.owner_at(i) == player {
                    Some(i)
                } else {
                    None
                }
            },
            None => None,
        }
    }

    /// Canonical hash of everything that matters: the tick, the parameters,
    /// the map's hash, the generator, every player, passability, the
    /// entities and the pending commands. Equal hashes on two machines at
    /// the same tick mean they are in the same world.
    pub fn state_hash(&self) -> (r: u64)
        requires
            self.wf(),
        ensures
            r == fnv(OFFSET, self.hashed_bytes()),
    {
        proof {
            self.world.lemma_wf_cols();
        }
        let mut h = StateHasher::new();
        h.write_u64(self.tick);
        h.write(&self.config);
        h.write_u64(self.map_hash);
        h.write(&self.rng);
        let ghost h1 = h@;
        let ghost acc = le64(self.tick) + config_bytes(self.config) + le64(self.map_hash) + self.rng.state_bytes();
        proof {
            lemma_fnv_append(OFFSET, le64(self.tick), config_bytes(self.config));
            lemma_fnv_append(OFFSET, le64(self.tick) + config_bytes(self.config), le64(self.map_hash));
            lemma_fnv_append(OFFSET, le64(self.tick) + config_bytes(self.config) + le64(self.map_hash), self.rng.state_bytes());
            assert(h1 == fnv(OFFSET, acc));
        }
        let mut i: usize = 0;
        while i < self.players.len()
            invariant
                i <= self.players@.len(),
                h@ == fnv(OFFSET, acc + players_bytes(self.players@.take(i as int))),
            decreases self.players.len() - i,
        {
            let ghost hb = h@;
            h.write(&self.players[i]);
            proof {
                lemma_fnv_append(OFFSET, acc + players_bytes(self.players@.take(i as int)), self.players@[i as int].state_bytes());
                lemma_players_bytes_step(self.players@, i as int, acc);
            }
            i = i + 1;
        }
        proof {
            assert(self.players@.take(self.players@.len() as int) =~= self.players@);
        }
        let ghost acc2 = acc + players_bytes(self.players@);
        h.write(&self.nav);
        self.world.hash_state(&mut h);
        h.write(&self.queue);
        proof {
            lemma_fnv_append(OFFSET, acc2, self.nav.state_bytes());
            lemma_fnv_append(OFFSET, acc2 + self.nav.state_bytes(), world_bytes(&self.world));
            lemma_fnv_append(OFFSET, acc2 + self.nav.state_bytes() + world_bytes(&self.world), self.queue.state_bytes());
            assert(acc2 + self.nav.state_bytes() + world_bytes(&self.world) + self.queue.state_bytes() =~= self.hashed_bytes());
        }
        h.finish()
    }

    /// Whether `p` could place `kind` anchored at `(x, y)` right now: the
    /// first of "not a kind players build", "no such player" (reported as
    /// unaffordable), "not yet in its age", "footprint not all open
    /// ground" and "cannot pay" that applies, else `Ok`.
    pub fn can_place(&self, p: u8, kind: u16, x: i32, y: i32) -> (r: Result<(), PlaceError>)
        requires
            self.parts_ok(),
        ensures
            r == place_verdict(self.players_of(), self.nav_of(), p as int, kind, x as int, y as int),
    {
        let k = info(kind);
        if !k.buildable {
            return Err(PlaceError::NotBuildable);
        }
        if (p as usize) >= self.players.len() {
            return Err(PlaceError::Unaffordable);
        }
        let pl = &self.players[p as usize];
        if pl.age.index() < k.age.index() {
            return Err(PlaceError::AgeLocked { needs: k.age });
        }
        let fp = k.footprint as i32;
        // Far off the map the anchor tile itself is outside, so the
        // footprint cannot be clear.
        let fits = -2_000_000 <= x && x <= 2_000_000 && -2_000_000 <= y && y <= 2_000_000;
        if !fits {
            proof {
                assert(in_footprint(x as int, y as int, fp as int, x as int, y as int));
                assert(!self.nav.open_at(x as int, y as int));
            }
            return Err(PlaceError::Blocked);
        }
        if !self.nav.footprint_clear(x, y, fp) {
            return Err(PlaceError::Blocked);
        }
        if !pl.can_afford(&k.cost) {
            return Err(PlaceError::Unaffordable);
        }
        Ok(())
    }

    /// Villagers of `p` with nothing to do, in slot order.
    pub fn idle_villagers(&self, p: u8) -> (r: Vec<EntityId>)
        requires
            self.wf(),
        ensures
            r@.len() == idle_slots(self.world_of(), p, self.world_of().n() as int).len(),
            forall|j: int| 0 <= j < r@.len() ==> {
                let i = idle_slots(self.world_of(), p, self.world_of().n() as int)[j];
                &&& (#[trigger] r@[j]).idx() == i
                &&& r@[j].gen() == self.world_of().gens()[i]
            },
    {
        proof {
            self.world.lemma_wf_cols();
            self.world.lemma_cols();
        }
        let ghost w = self.world;
        let n = self.world.capacity();
        let mut r: Vec<EntityId> = Vec::new();
        let mut i: usize = 0;
        while i < n
            invariant
                i <= n,
                n == w.n(),
                n <= MAX_SLOTS,
                self.world == w,
                w.cols_ok(),
                r@.len() == idle_slots(w, p, i as int).len(),
                forall|j: int| 0 <= j < r@.len() ==> {
                    let s = idle_slots(w, p, i as int)[j];
                    &&& (#[trigger] r@[j]).idx() == s
                    &&& r@[j].gen() == w.gens()[s]
                },
            decreases n - i,
        {
            let ghost before = r@;
            if self.world.live_at(i) && self.world.owner_at(i) == p && self.world.kind_at(i) == VILLAGER
                && matches!(self.world.order_at(i), Order::Idle) {
                let id = self.world.id_at(Slot::new(i));
                r.push(id);
            }
            proof {
                assert(idle_slots(w, p, i + 1) == idle_slots(w, p, i as int) + if idle_villager_at(w, p, i as int) {
                    seq![i as int]
                } else {
                    Seq::<int>::empty()
                });
            }
            i = i + 1;
        }
        r
    }

    /// Finished buildings of `p` from `age` that count toward advancing:
    /// neither Houses, the Town Center nor Farms.
    pub fn age_buildings(&self, p: u8, age: Age) -> (r: usize)
        requires
            self.parts_ok(),
        ensures
            r == age_building_count(self.world_of(), p, age, self.world_of().n() as int),
            (forall|i: int| 0 <= i < self.world_of().n() && self.world_of().flags()[i] && self.world_of().owners()[i] == p
                ==> #[trigger] self.world_of().constructions()[i] is Some) ==> r == 0,
    {
        proof {
            self.world.lemma_wf_cols();
            self.world.lemma_cols();
        }
        let ghost w = self.world;
        let n = self.world.capacity();
        let mut r: usize = 0;
        let mut i: usize = 0;
        while i < n
            invariant
                i <= n,
                n == w.n(),
                n <= MAX_SLOTS,
                self.world == w,
                w.cols_ok(),
                r == age_building_count(w, p, age, i as int),
                r <= i,
            decreases n - i,
        {
            if self.world.live_at(i) && self.world.owner_at(i) == p && self.world.construction_at(i).is_none() {
                let k = self.world.kind_at(i);
                if counts_for_age(k) && info(k).age == age {
                    r = r + 1;
                }
            }
            i = i + 1;
        }
        proof {
            if forall|j: int| 0 <= j < self.world_of().n() && self.world_of().flags()[j] && self.world_of().owners()[j] == p
                ==> #[trigger] self.world_of().constructions()[j] is Some {
                assert forall|j: int| 0 <= j < w.n() && w.flags()[j] && w.owners()[j] == p implies #[trigger] w.constructions()[j] is Some by {
                    assert(self.world_of().constructions()[j] == w.constructions()[j]);
                }
                lemma_only_sites_count_nothing(w, p, age, w.n() as int);
            }
        }
        r
    }

    /// True if `p` has technology `id` queued at any building.
    pub fn tech_queued(&self, p: u8, id: u16) -> (r: bool)
        requires
            self.parts_ok(),
        ensures
            r == tech_queued_in(self.world_of(), p, id),
    {
        proof {
            self.world.lemma_wf_cols();
            self.world.lemma_cols();
        }
        let ghost w = self.world;
        let n = self.world.capacity();
        let mut i: usize = 0;
        while i < n
            invariant
                i <= n,
                n == w.n(),
                self.world == w,
                w.cols_ok(),
                forall|k: int| 0 <= k < i ==> !(w.flags()[k] && w.owners()[k] == p && queues_tech(#[trigger] w.productions()[k], id)),
            decreases n - i,
        {
            if self.world.live_at(i) && self.world.owner_at(i) == p {
                match self.world.production_at(i) {
                    Some(q) => {
                        let mut j: usize = 0;
                        while j < q.queue.len()
                            invariant
                                j <= q.queue@.len(),
                                i < n,
                                n == w.n(),
                                self.world == w,
                                w.productions()[i as int] == Some(*q),
                                w.flags()[i as int],
                                w.owners()[i as int] == p,
                                forall|m: int| 0 <= m < j ==> (#[trigger] q.queue@[m]).item != Item::Tech(id),
                            decreases q.queue.len() - j,
                        {
                            let found = match q.queue[j].item {
                                Item::Tech(t) => t == id,
                                Item::Unit(_) => false,
                            };
                            if found {
                                proof {
                                    assert(q.queue@[j as int].item == Item::Tech(id));
                                    assert(queues_tech(w.productions()[i as int], id));
                                    assert(tech_queued_in(w, p, id));
                                }
                                return true;
                            }
                            j = j + 1;
                        }
                    },
                    None => {},
                }
            }
            i = i + 1;
        }
        false
    }

    /// Whether `p` could queue technology `id` at `building` right now: the
    /// same checks, in the same order, that the `Research` command runs
    /// before paying, so a command panel can say why a button is grey.
    pub fn can_research(&self, p: u8, building: EntityId, id: u16) -> (r: Result<(), ResearchError>)
        requires
            self.parts_ok(),
        ensures
            r == research_verdict(self.players_of(), self.world_of(), p, building, id),
    {
        proof {
            self.world.lemma_wf_cols();
            self.world.lemma_cols();
        }
        let t = match tech_info(id) {
            Some(t) => t,
            None => {
                return Err(ResearchError::UnknownTech);
            },
        };
        let i = match self.owned_slot(building, p) {
            Some(i) => i,
            None => {
                return Err(ResearchError::NotYourBuilding);
            },
        };
        if self.world.kind_at(i) != t.building {
            return Err(ResearchError::WrongBuilding);
        }
        if self.world.construction_at(i).is_some() {
            return Err(ResearchError::UnderConstruction);
        }
        if (p as usize) >= self.players.len() {
            return Err(ResearchError::NotYourBuilding);
        }
        let player = &self.players[p as usize];
        if player.has_researched(id) {
            return Err(ResearchError::AlreadyResearched);
        }
        let advance = t.advances_age();
        if advance.is_some() && player.age.index() > t.age.index() {
            return Err(ResearchError::AlreadyResearched);
        }
        if player.age.index() < t.age.index() {
            return Err(ResearchError::AgeLocked { needs: t.age });
        }
        let mut k: usize = 0;
        proof {
            assert(t.requires@.skip(0) =~= t.requires@);
        }
        #[verifier::loop_isolation(false)]
        while k < t.requires.len()
            invariant
                k <= t.requires@.len(),
                strictly_sorted(player.researched@),
                first_missing(t.requires@, player.researched@) == first_missing(t.requires@.skip(k as int), player.researched@),
            decreases t.requires.len() - k,
        {
            let r = t.requires[k];
            if !player.has_researched(r) {
                return Err(ResearchError::MissingPrerequisite { tech: r });
            }
            proof {
                assert(t.requires@.skip(k as int).skip(1) =~= t.requires@.skip(k + 1));
            }
            k = k + 1;
        }
        if self.tech_queued(p, id) {
            return Err(ResearchError::AlreadyQueued);
        }
        let full = match self.world.production_at(i) {
            Some(q) => q.queue.len() >= QUEUE_LIMIT,
            None => false,
        };
        if full {
            return Err(ResearchError::QueueFull);
        }
        if advance.is_some() {
            let have = self.age_buildings(p, player.age);
            if have < AGE_BUILDINGS_REQUIRED {
                return Err(ResearchError::NeedBuildings { have, need: AGE_BUILDINGS_REQUIRED });
            }
        }
        if !player.can_afford(&t.cost) {
            return Err(ResearchError::Unaffordable);
        }
        Ok(())
    }

    /// Verifies every invariant the simulation is supposed to maintain: the
    /// entity store's own, then the entity cap, then each live entity's
    /// position, target, health, resource, cargo and facing, then each
    /// player's stockpile, running totals and headroom. Reports the first
    /// that fails.
    ///
    /// Deliberately conservative: population above headroom (a destroyed
    /// house) and owners the match does not have (Gaia, a scenario's
    /// spare player) are legal and not reported.
    pub fn check(&self) -> (r: Result<(), Violation>)
        requires
            self.world_of().n() <= u32::MAX,
        ensures
            (r matches Err(Violation::World(_))) <==> !self.world_of().wf(),
            r matches Err(Violation::World(v)) ==> world_verdict(self.world_of(), Err(v)),
            self.world_of().wf() ==> r == sim_verdict(
                self.world_of(),
                self.map_of().w() as int,
                self.map_of().h() as int,
                self.config_of().max_entities,
                self.players_of(),
                self.config_of().pop_cap_max,
            ),
    {
        match self.world.check() {
            Ok(()) => {},
            Err(v) => {
                return Err(Violation::World(v));
            },
        }
        proof {
            self.world.lemma_wf_cols();
            self.world.lemma_cols();
        }
        let live = self.world.len() as u32;
        if live > self.config.max_entities {
            return Err(Violation::OverEntityCap { live, cap: self.config.max_entities });
        }
        let ghost w = self.world;
        let mw = self.map.width() as i64 * 65536;
        let mh = self.map.height() as i64 * 65536;
        let ghost gw = self.map.w() as int;
        let ghost gh = self.map.h() as int;
        let n = self.world.capacity();
        let mut i: usize = 0;
        #[verifier::loop_isolation(false)]
        while i < n
            invariant
                i <= n,
                n == w.n(),
                n <= u32::MAX,
                self.world == w,
                w.cols_ok(),
                mw == gw * 65536,
                mh == gh * 65536,
                first_slot_problem(w, gw, gh, i as int) is None,
            decreases n - i,
        {
            if self.world.live_at(i) {
                let s = i as u32;
                let pos = self.world.pos_at(i);
                if !(pos.x.0 >= 0 && (pos.x.0 as i64) < mw && pos.y.0 >= 0 && (pos.y.0 as i64) < mh) {
                    proof {
                        lemma_first_slot_kept(w, gw, gh, i + 1, n as int);
                    }
                    return Err(Violation::PositionOutOfMap { slot: s, pos });
                }
                match self.world.move_target_at(i) {
                    Some(t) => {
                        if !(t.x.0 >= 0 && (t.x.0 as i64) < mw && t.y.0 >= 0 && (t.y.0 as i64) < mh) {
                            proof {
                        lemma_first_slot_kept(w, gw, gh, i + 1, n as int);
                    }
                    return Err(Violation::TargetOutOfMap { slot: s, target: t });
                        }
                    },
                    None => {},
                }
                let health = self.world.health_at(i);
                if health.0 < 0 {
                    proof {
                        lemma_first_slot_kept(w, gw, gh, i + 1, n as int);
                    }
                    return Err(Violation::NegativeHealth { slot: s, health });
                }
                let amount = self.world.resource_at(i);
                if amount < 0 {
                    proof {
                        lemma_first_slot_kept(w, gw, gh, i + 1, n as int);
                    }
                    return Err(Violation::NegativeResource { slot: s, amount });
                }
                match self.world.carry_at(i) {
                    Some((_, c)) => {
                        if c < 0 {
                            proof {
                        lemma_first_slot_kept(w, gw, gh, i + 1, n as int);
                    }
                    return Err(Violation::NegativeCarry { slot: s, amount: c });
                        }
                    },
                    None => {},
                }
                let facing = self.world.facing_at(i);
                if facing >= 8 {
                    proof {
                        lemma_first_slot_kept(w, gw, gh, i + 1, n as int);
                    }
                    return Err(Violation::BadFacing { slot: s, facing });
                }
            }
            i = i + 1;
        }
        let cap = self.config.pop_cap_max;
        let np = self.players.len();
        let mut p: usize = 0;
        #[verifier::loop_isolation(false)]
        while p < np
            invariant
                p <= np,
                np == self.players@.len(),
                cap == self.config.pop_cap_max,
                first_player_problem(self.players@, cap, p as int) is None,
            decreases np - p,
        {
            let pl = &self.players[p];
            let mut r: usize = 0;
            #[verifier::loop_isolation(false)]
            while r < 4
                invariant
                    r <= 4,
                    first_negative_at(pl.stockpile@, r as int) is None,
                decreases 4 - r,
            {
                if pl.stockpile[r] < 0 {
                    proof {
                    lemma_first_negative_kept(pl.stockpile@, r + 1, 4);
                    lemma_first_player_kept(self.players@, cap, p + 1, np as int);
                }
                return Err(Violation::NegativeStockpile { player: p, resource: r, amount: pl.stockpile[r] });
                }
                r = r + 1;
            }
            let mut r: usize = 0;
            #[verifier::loop_isolation(false)]
            while r < 4
                invariant
                    r <= 4,
                    first_negative_at(pl.stockpile@, 4) is None,
                    first_negative_at(pl.gathered@, r as int) is None,
                decreases 4 - r,
            {
                if pl.gathered[r] < 0 {
                    proof {
                    lemma_first_negative_kept(pl.gathered@, r + 1, 4);
                    lemma_first_player_kept(self.players@, cap, p + 1, np as int);
                }
                return Err(Violation::NegativeGathered { player: p, resource: r, amount: pl.gathered[r] });
                }
                r = r + 1;
            }
            if pl.pop_cap > cap {
                proof {
                    lemma_first_player_kept(self.players@, cap, p + 1, np as int);
                }
                return Err(Violation::PopCapAboveLimit { player: p, pop_cap: pl.pop_cap, limit: cap });
            }
            p = p + 1;
        }
        Ok(())
    }

    /// Recomputes every player's population (the cost of its live mobile
    /// units) and headroom (what its finished buildings provide, capped by
    /// `pop_cap_max`). Owners the match does not have are skipped.
    fn recount_population(&mut self)
        requires
            old(self).parts_ok(),
        ensures
            final(self).parts_ok(),
            final(self).players@ == recounted(old(self).players@, old(self).world, old(self).config.pop_cap_max),
            final(self).seed == old(self).seed,
            final(self).tick == old(self).tick,
            final(self).config == old(self).config,
            final(self).rng == old(self).rng,
            final(self).map == old(self).map,
            final(self).map_hash == old(self).map_hash,
            final(self).starts == old(self).starts,
            final(self).nav == old(self).nav,
            final(self).world == old(self).world,
            final(self).queue == old(self).queue,
            final(self).log == old(self).log,
            final(self).stats == old(self).stats,
    {
        let ghost p0 = self.players@;
        let ghost w = self.world;
        let mut players: Vec<Player> = Vec::new();
        std::mem::swap(&mut players, &mut self.players);
        let np = players.len();
        let n = self.world.capacity();
        proof {
            w.lemma_wf_cols();
            w.lemma_cols();
        }
        let mut i: usize = 0;
        while i < np
            invariant
                i <= np,
                np == players@.len(),
                np == p0.len(),
                forall|p: int| 0 <= p < i ==> #[trigger] players@[p] == with_pop(p0[p], 0, 0),
                forall|p: int| i <= p < np ==> #[trigger] players@[p] == p0[p],
            decreases np - i,
        {
            players[i].pop = 0;
            players[i].pop_cap = 0;
            i = i + 1;
        }
        let mut s: usize = 0;
        while s < n
            invariant
                s <= n,
                n == w.n(),
                w.cols_ok(),
                w.wf(),
                self.world == w,
                np == players@.len(),
                np == p0.len(),
                forall|p: int| 0 <= p < np ==> #[trigger] players@[p] == with_pop(p0[p], pop_used(w, p, s as int), pop_room(w, p, s as int)),
                forall|p: int| 0 <= p < np ==> 0 <= #[trigger] pop_used(w, p, s as int) <= s,
                forall|p: int| 0 <= p < np ==> 0 <= #[trigger] pop_room(w, p, s as int) <= 5 * s,
                n <= MAX_SLOTS,
            decreases n - s,
        {
            proof {
                let s1 = s + 1;
                assert forall|p: int| 0 <= p < np implies 0 <= #[trigger] pop_used(w, p, s1) <= s1 by {
                    lemma_pop_sums(w, p, s1);
                }
                assert forall|p: int| 0 <= p < np implies 0 <= #[trigger] pop_room(w, p, s1) <= 5 * s1 by {
                    lemma_pop_sums(w, p, s1);
                }
            }
            if self.world.live_at(s) {
                let owner = self.world.owner_at(s) as usize;
                if owner < np {
                    let k = info(self.world.kind_at(s));
                    proof {
                        lemma_pop_bounds(w.kinds()[s as int]);
                    }
                    if k.mobile {
                        let v = players[owner].pop + k.pop_cost;
                        players[owner].pop = v;
                    } else if self.world.construction_at(s).is_none() {
                        let v = players[owner].pop_cap + k.pop_provided;
                        players[owner].pop_cap = v;
                    }
                }
            }
            s = s + 1;
        }
        let cap = self.config.pop_cap_max;
        let mut i: usize = 0;
        while i < np
            invariant
                i <= np,
                np == players@.len(),
                np == p0.len(),
                n == w.n(),
                self.world == w,
                self.config.pop_cap_max == cap,
                forall|p: int| 0 <= p < i ==> #[trigger] players@[p] == with_pop(p0[p], pop_used(w, p, n as int), capped_room(w, p, cap)),
                forall|p: int| i <= p < np ==> #[trigger] players@[p] == with_pop(p0[p], pop_used(w, p, n as int), pop_room(w, p, n as int)),
                forall|p: int| 0 <= p < np ==> 0 <= #[trigger] pop_used(w, p, n as int) <= n,
                forall|p: int| 0 <= p < np ==> 0 <= #[trigger] pop_room(w, p, n as int) <= 5 * n,
                n <= MAX_SLOTS,
            decreases np - i,
        {
            if players[i].pop_cap > cap {
                players[i].pop_cap = cap;
            }
            i = i + 1;
        }
        proof {
            assert(players@ =~= recounted(p0, w, cap));
            assert forall|p: int| 0 <= p < players@.len() implies player_ok(#[trigger] players@[p]) by {
                assert(players@[p].researched == p0[p].researched);
                assert(players@[p].modifiers == p0[p].modifiers);
                assert(player_ok(p0[p]));
            }
        }
        self.players = players;
    }

    /// Places each of `list`, in order, as `spawn` does.
    fn place_spawns(&mut self, list: &Vec<Spawn>)
        requires
            old(self).parts_ok(),
            old(self).world.n() + list@.len() <= MAX_SLOTS,
            old(self).world.live_count() <= old(self).config.max_entities,
        ensures
            final(self).parts_ok(),
            old(self).world.n() == 0 && old(self).world.free_list().len() == 0 ==> holds_spawns(
                final(self).world,
                list@,
                if list@.len() <= old(self).config.max_entities { list@.len() as int } else { old(self).config.max_entities as int },
                old(self).map.w() as int,
                old(self).map.h() as int,
            ),
            final(self).world.n() <= old(self).world.n() + list@.len(),
            final(self).world.live_count() <= old(self).config.max_entities,
            final(self).world.live_count() == if old(self).world.live_count() + list@.len() <= old(self).config.max_entities {
                old(self).world.live_count() + list@.len()
            } else {
                old(self).config.max_entities as int
            },
            slots_sane(old(self).world, old(self).map.w() as int, old(self).map.h() as int) ==> slots_sane(
                final(self).world,
                old(self).map.w() as int,
                old(self).map.h() as int,
            ),
            final(self).seed == old(self).seed,
            final(self).tick == old(self).tick,
            final(self).config == old(self).config,
            final(self).rng == old(self).rng,
            final(self).map == old(self).map,
            final(self).map_hash == old(self).map_hash,
            final(self).starts == old(self).starts,
            final(self).players == old(self).players,
            final(self).queue == old(self).queue,
            final(self).log == old(self).log,
            final(self).stats == old(self).stats,
    {
        let ghost s0 = *self;
        proof {
            self.world.lemma_wf_cols();
            self.world.lemma_cols();
            if self.world.n() == 0 {
                assert(self.world.flags() =~= Seq::<bool>::empty());
            }
        }
        let mut i: usize = 0;
        while i < list.len()
            invariant
                i <= list@.len(),
                s0.world.n() == 0 && s0.world.free_list().len() == 0 ==> {
                    &&& holds_spawns(self.world, list@, self.world.n() as int, s0.map.w() as int, s0.map.h() as int)
                    &&& self.world.n() == self.world.live_count()
                },
                s0.world.n() + list@.len() <= MAX_SLOTS,
                self.parts_ok(),
                self.world.n() <= s0.world.n() + i,
                self.world.live_count() <= s0.config.max_entities,
                self.world.live_count() == if s0.world.live_count() + i <= s0.config.max_entities {
                    s0.world.live_count() + i
                } else {
                    s0.config.max_entities as int
                },
                slots_sane(s0.world, s0.map.w() as int, s0.map.h() as int) ==> slots_sane(
                    self.world,
                    s0.map.w() as int,
                    s0.map.h() as int,
                ),
                self.seed == s0.seed,
                self.tick == s0.tick,
                self.config == s0.config,
                self.rng == s0.rng,
                self.map == s0.map,
                self.map_hash == s0.map_hash,
                self.starts == s0.starts,
                self.players == s0.players,
                self.queue == s0.queue,
                self.log == s0.log,
                self.stats == s0.stats,
            decreases list.len() - i,
        {
            let sp = list[i];
            let ghost wb = self.world;
            let placed = self.spawn(sp.kind, sp.owner, sp.pos);
            proof {
                if s0.world.n() == 0 && s0.world.free_list().len() == 0 && placed is Some {
                    assert(wb.n() == i);
                    wb.lemma_wf_cols();
                    wb.lemma_cols();
                    let mw = s0.map.w() as int;
                    let mh = s0.map.h() as int;
                    assert forall|k: int| 0 <= k < self.world.n() implies {
                        &&& #[trigger] self.world.flags()[k]
                        &&& self.world.kinds()[k] == list@[k].kind
                        &&& self.world.owners()[k] == list@[k].owner
                        &&& self.world.positions()[k] == clamped_pos(list@[k].pos, mw, mh)
                    } by {
                        if k < wb.n() {
                            assert(wb.flags()[k]);
                            assert(self.world.flags()[k] == wb.flags()[k]);
                            assert(self.world.kinds()[k] == wb.kinds()[k]);
                            assert(self.world.owners()[k] == wb.owners()[k]);
                            assert(self.world.positions()[k] == wb.positions()[k]);
                        } else {
                            assert(k == i);
                            assert(self.world.kinds()[k] == sp.kind);
                            assert(self.world.positions()[k] == clamped_pos(sp.pos, mw, mh));
                        }
                    }
                    assert(self.world.free_list().len() == 0);
                    assert(self.world.n() == self.world.live_count());
                    assert(holds_spawns(self.world, list@, self.world.n() as int, mw, mh));
                }
                if s0.world.n() == 0 && s0.world.free_list().len() == 0 && placed is None {
                    assert(self.world == wb);
                }
            }
            i = i + 1;
        }
    }

    /// Places an entity of `kind` for `owner` at `pos` moved onto the map,
    /// with its full health and its node's amount, blocking its footprint
    /// and giving a building that trains an empty queue; nothing when the
    /// match already holds `max_entities`.
    fn spawn(&mut self, kind: u16, owner: u8, pos: Vec2Fx) -> (r: Option<EntityId>)
        requires
            old(self).parts_ok(),
            old(self).world.n() < MAX_SLOTS,
        ensures
            final(self).parts_ok(),
            final(self).seed == old(self).seed,
            final(self).tick == old(self).tick,
            final(self).config == old(self).config,
            final(self).rng == old(self).rng,
            final(self).map == old(self).map,
            final(self).map_hash == old(self).map_hash,
            final(self).starts == old(self).starts,
            final(self).players == old(self).players,
            final(self).queue == old(self).queue,
            final(self).log == old(self).log,
            final(self).stats == old(self).stats,
            final(self).world.n() <= old(self).world.n() + 1,
            slots_sane(old(self).world, old(self).map.w() as int, old(self).map.h() as int) ==> slots_sane(
                final(self).world,
                old(self).map.w() as int,
                old(self).map.h() as int,
            ),
            old(self).world.live_count() >= old(self).config.max_entities ==> r is None && final(self).world == old(self).world
                && final(self).nav == old(self).nav,
            old(self).world.live_count() < old(self).config.max_entities ==> r is Some,
            old(self).world.free_list().len() == 0 ==> final(self).world.free_list().len() == 0,
            old(self).world.free_list().len() == 0 && r is Some ==> {
                &&& final(self).world.n() == old(self).world.n() + 1
                &&& final(self).world.flags() == old(self).world.flags().push(true)
                &&& final(self).world.kinds() == old(self).world.kinds().push(kind)
                &&& final(self).world.owners() == old(self).world.owners().push(owner)
                &&& final(self).world.positions() == old(self).world.positions().push(
                    clamped_pos(pos, old(self).map.w() as int, old(self).map.h() as int),
                )
            },
            r matches Some(id) ==> {
                &&& final(self).world.live_id(id)
                &&& final(self).world.live_count() == old(self).world.live_count() + 1
                &&& final(self).world.kinds()[id.idx() as int] == kind
                &&& final(self).world.owners()[id.idx() as int] == owner
                &&& final(self).world.positions()[id.idx() as int].x.0 == clamp_raw(pos.x.0 as int, 0, old(self).map.w() * 65536 - 1)
                &&& final(self).world.positions()[id.idx() as int].y.0 == clamp_raw(pos.y.0 as int, 0, old(self).map.h() * 65536 - 1)
            },
            Simulation::spawned(*old(self), kind, owner, pos, r, *final(self)),
    {
        proof {
            self.world.lemma_wf_cols();
            crate::entity::lemma_count_le(self.world.flags());
        }
        if self.world.len() as u32 >= self.config.max_entities {
            return None;
        }
        let k = info(kind);
        let at = self.clamp_to_map(pos);
        let resource = match k.resource {
            Some((_, amount)) => amount,
            None => 0,
        };
        let ghost w0 = self.world;
        let ghost nav0 = self.nav;
        let ghost s0 = *self;
        let id = self.world.spawn_with_resource(kind, owner, at, Fx::from_int(k.max_health), resource);
        let ghost wsp = self.world;
        proof {
            assert(resource == start_resource(kind));
            assert(spawned_into(w0, kind, owner, at, Fx(from_int_raw(k.max_health as int) as i32), start_resource(kind), wsp, id));
            w0.lemma_wf_cols();
            w0.lemma_cols();
            self.world.lemma_wf_cols();
            self.world.lemma_cols();
            assert(self.world.kinds()[id.idx() as int] == kind);
            assert(self.world.owners()[id.idx() as int] == owner);
            assert(self.world.positions()[id.idx() as int] == at);
            assert(at == clamped_pos(pos, self.map.w() as int, self.map.h() as int));
            if w0.free_list().len() == 0 {
                assert(self.world.flags() =~= w0.flags().push(true));
                assert(self.world.kinds() =~= w0.kinds().push(kind));
                assert(self.world.owners() =~= w0.owners().push(owner));
                assert(self.world.positions() =~= w0.positions().push(at));
            }
            lemma_kind_sane(kind);
            if slots_sane(w0, self.map.w() as int, self.map.h() as int) {
                let mw = self.map.w() as int;
                let mh = self.map.h() as int;
                assert forall|j: int| 0 <= j < self.world.n() && self.world.flags()[j] implies #[trigger] slot_problem(
                    self.world,
                    mw,
                    mh,
                    j,
                ) is None by {
                    if j != id.idx() as int {
                        assert(w0.flags()[j]);
                        assert(slot_problem(w0, mw, mh, j) is None);
                    }
                }
            }
        }
        if k.footprint > 0 {
            let fp = k.footprint as i32;
            let (ax, ay) = anchor_tile(at, fp);
            self.nav.block_footprint(ax, ay, fp);
            proof {
                assert(ax as int == anchor_spec(at, k.footprint as int).0);
                assert(ay as int == anchor_spec(at, k.footprint as int).1);
                assert(blocked_by(nav0, anchor_spec(at, k.footprint as int).0, anchor_spec(at, k.footprint as int).1, k.footprint as int, self.nav));
            }
        }
        let ghost nav1 = self.nav;
        if k.trains {
            let i = id.index();
            proof {
                self.world.lemma_wf_cols();
            }
            let ghost w1 = self.world;
            self.world.set_production(i, Some(Production::default()));
            proof {
                let mw = self.map.w() as int;
                let mh = self.map.h() as int;
                if slots_sane(w1, mw, mh) {
                    assert forall|j: int| 0 <= j < self.world.n() && self.world.flags()[j] implies #[trigger] slot_problem(
                        self.world,
                        mw,
                        mh,
                        j,
                    ) is None by {
                        assert(slot_problem(w1, mw, mh, j) is None);
                    }
                }
            }
        }
        proof {
            self.world.lemma_wf_cols();
            if k.trains {
                wsp.lemma_cols();
                assert forall|j: int| 0 <= j < wsp.n() && j != id.idx() implies #[trigger] self.world.productions()[j] == wsp.productions()[j] by {
                }
            }
            assert(self.nav == nav1);
            if k.footprint == 0 {
                assert(self.nav == nav0);
            }
            assert(at == clamped_pos(pos, self.map.w() as int, self.map.h() as int));
            assert(spawned_into(w0, kind, owner, clamped_pos(pos, self.map.w() as int, self.map.h() as int), Fx(from_int_raw(kind_info(kind).max_health as int) as i32), start_resource(kind), wsp, id));
            if k.trains {
                assert(edited(wsp, self.world, false, false, false, true));
                assert(prod_queue(self.world.productions()[id.idx() as int]).len() == 0);
            } else {
                assert(self.world == wsp);
            }
            let kk = kind_info(kind);
            assert({
                &&& spawned_into(w0, kind, owner, clamped_pos(pos, self.map.w() as int, self.map.h() as int), Fx(from_int_raw(kk.max_health as int) as i32), start_resource(kind), wsp, id)
                &&& !kk.trains ==> self.world == wsp
                &&& kk.trains ==> {
                    &&& edited(wsp, self.world, false, false, false, true)
                    &&& forall|j: int| 0 <= j < wsp.n() && j != id.idx() ==> #[trigger] self.world.productions()[j] == wsp.productions()[j]
                    &&& self.world.productions()[id.idx() as int] is Some
                    &&& prod_queue(self.world.productions()[id.idx() as int]).len() == 0
                    &&& prod_rally(self.world.productions()[id.idx() as int]) is None
                }
            });
            assert(Simulation::same_frame(s0, *self));
            assert(self.players_of() == s0.players_of());
            assert(s0.world_of().live_count() < s0.config_of().max_entities);
            let at2 = clamped_pos(pos, s0.map_of().w() as int, s0.map_of().h() as int);
            assert(at2 == clamped_pos(pos, self.map.w() as int, self.map.h() as int));
            assert(exists|w1: World| {
                &&& #[trigger] spawned_into(s0.world_of(), kind, owner, at2, Fx(from_int_raw(kk.max_health as int) as i32), start_resource(kind), w1, id)
                &&& !kk.trains ==> self.world_of() == w1
                &&& kk.trains ==> {
                    &&& edited(w1, self.world_of(), false, false, false, true)
                    &&& forall|j: int| 0 <= j < w1.n() && j != id.idx() ==> #[trigger] self.world_of().productions()[j] == w1.productions()[j]
                    &&& self.world_of().productions()[id.idx() as int] is Some
                    &&& prod_queue(self.world_of().productions()[id.idx() as int]).len() == 0
                    &&& prod_rally(self.world_of().productions()[id.idx() as int]) is None
                }
            });
            assert(kk.footprint > 0 ==> blocked_by(s0.nav_of(), anchor_spec(at2, kk.footprint as int).0, anchor_spec(at2, kk.footprint as int).1, kk.footprint as int, self.nav_of()));
            assert(kk.footprint == 0 ==> self.nav_of() == s0.nav_of());
            assert(Simulation::spawned(s0, kind, owner, pos, Some(id), *self));
        }
        Some(id)
    }
}


/// `id` names a live entity of player `p`.
pub open spec fn owned_by(w: World, id: EntityId, p: u8) -> bool {
    w.live_id(id) && w.owners()[id.idx() as int] == p
}

/// `id` names a live, mobile entity of player `p`.
pub open spec fn owned_mobile(w: World, id: EntityId, p: u8) -> bool {
    owned_by(w, id, p) && kind_info(w.kinds()[id.idx() as int]).mobile
}

/// `id` names a live villager of player `p`.
pub open spec fn owned_villager(w: World, id: EntityId, p: u8) -> bool {
    owned_by(w, id, p) && w.kinds()[id.idx() as int] == VILLAGER
}

/// Some entry of `ids` names slot `i` and is a mobile entity of `p`.
pub open spec fn names_mobile(w: World, ids: Seq<EntityId>, p: u8, i: int) -> bool {
    exists|k: int| 0 <= k < ids.len() && #[trigger] ids[k].idx() == i && owned_mobile(w, ids[k], p)
}

/// Some entry of `ids` names slot `i` and is a villager of `p`.
pub open spec fn names_villager(w: World, ids: Seq<EntityId>, p: u8, i: int) -> bool {
    exists|k: int| 0 <= k < ids.len() && #[trigger] ids[k].idx() == i && owned_villager(w, ids[k], p)
}

/// `b` is grid `a` with one more blocker on every tile of the footprint of
/// side `fp` anchored at `(x, y)`.
pub open spec fn blocked_by(a: NavGrid, x: int, y: int, fp: int, b: NavGrid) -> bool {
    &&& b.wf()
    &&& b.gw() == a.gw()
    &&& b.gh() == a.gh()
    &&& forall|tx: int, ty: int| #[trigger] a.inside(tx, ty) ==> b.blocks()[ty * a.gw() + tx] == if in_footprint(x, y, fp, tx, ty) {
        a.blocks()[ty * a.gw() + tx].saturating_add(1)
    } else {
        a.blocks()[ty * a.gw() + tx]
    }
}

/// What a new entity of kind `k` starts holding: its node's amount, else 0.
pub open spec fn start_resource(k: u16) -> i32 {
    match kind_info(k).resource {
        Some((_, amount)) => amount,
        None => 0,
    }
}

impl Simulation {
    /// `b` is `a` after an entity of `kind` for `owner` was spawned at `pos`
    /// (moved onto the map), unless the entity cap is reached: full health,
    /// its node's resource, a production slot if it trains, and its
    /// footprint blocked on the grid. `r` is the new handle.
    pub open spec fn spawned(a: Simulation, kind: u16, owner: u8, pos: Vec2Fx, r: Option<EntityId>, b: Simulation) -> bool {
        let k = kind_info(kind);
        let at = clamped_pos(pos, a.map_of().w() as int, a.map_of().h() as int);
        let anchor = anchor_spec(at, k.footprint as int);
        &&& Simulation::same_frame(a, b)
        &&& b.players_of() == a.players_of()
        &&& a.world_of().live_count() >= a.config_of().max_entities ==> r is None && b.world_of() == a.world_of() && b.nav_of()
            == a.nav_of()
        &&& a.world_of().live_count() < a.config_of().max_entities ==> (r matches Some(id) && exists|w1: World| {
            &&& #[trigger] spawned_into(a.world_of(), kind, owner, at, Fx(from_int_raw(k.max_health as int) as i32), start_resource(kind), w1, id)
            &&& !k.trains ==> b.world_of() == w1
            &&& k.trains ==> {
                &&& edited(w1, b.world_of(), false, false, false, true)
                &&& forall|j: int| 0 <= j < w1.n() && j != id.idx() ==> #[trigger] b.world_of().productions()[j] == w1.productions()[j]
                &&& b.world_of().productions()[id.idx() as int] is Some
                &&& prod_queue(b.world_of().productions()[id.idx() as int]).len() == 0
                &&& prod_rally(b.world_of().productions()[id.idx() as int]) is None
            }
        })
        &&& a.world_of().live_count() < a.config_of().max_entities && k.footprint > 0 ==> blocked_by(a.nav_of(), anchor.0, anchor.1, k.footprint as int, b.nav_of())
        &&& a.world_of().live_count() < a.config_of().max_entities && k.footprint == 0 ==> b.nav_of() == a.nav_of()
    }
}

impl Simulation {
    /// Everything but the entity store, the players and the passability
    /// grid is the same in `a` and `b`.
    pub open spec fn same_frame(a: Simulation, b: Simulation) -> bool {
        &&& b.seed_of() == a.seed_of()
        &&& b.tick_of() == a.tick_of()
        &&& b.config_of() == a.config_of()
        &&& b.rng_of() == a.rng_of()
        &&& b.map_of() == a.map_of()
        &&& b.map_hash_of() == a.map_hash_of()
        &&& b.starts_of() == a.starts_of()
        &&& b.queue_of() == a.queue_of()
        &&& b.log_of() == a.log_of()
        &&& b.stats_of() == a.stats_of()
    }

    /// `b` is `a` after the mobile entities of `p` among `ids` stop: idle,
    /// with no trip.
    pub open spec fn stopped(a: Simulation, ids: Seq<EntityId>, p: u8, b: Simulation) -> bool {
        &&& Simulation::same_frame(a, b)
        &&& b.players_of() == a.players_of()
        &&& b.nav_of() == a.nav_of()
        &&& edited(a.world_of(), b.world_of(), true, false, false, false)
        &&& forall|i: int| 0 <= i < a.world_of().n() ==> if names_mobile(a.world_of(), ids, p, i) {
            &&& #[trigger] b.world_of().orders()[i] == Order::Idle
            &&& b.world_of().navs()[i] is None
        } else {
            &&& b.world_of().orders()[i] == a.world_of().orders()[i]
            &&& b.world_of().navs()[i] == a.world_of().navs()[i]
        }
    }

    /// Stops the mobile entities of `p` among `ids`.
    fn stop_units(&mut self, ids: &Vec<EntityId>, p: u8)
        requires
            old(self).parts_ok(),
        ensures
            final(self).parts_ok(),
            Simulation::stopped(*old(self), ids@, p, *final(self)),
    {
        let ghost s0 = *self;
        let mut k: usize = 0;
        while k < ids.len()
            invariant
                self.parts_ok(),
                k <= ids@.len(),
                Simulation::same_frame(s0, *self),
                self.players == s0.players,
                self.nav == s0.nav,
                edited(s0.world, self.world, true, false, false, false),
                forall|i: int| 0 <= i < s0.world.n() ==> if names_mobile(s0.world, ids@.take(k as int), p, i) {
                    &&& #[trigger] self.world.orders()[i] == Order::Idle
                    &&& self.world.navs()[i] is None
                } else {
                    &&& self.world.orders()[i] == s0.world.orders()[i]
                    &&& self.world.navs()[i] == s0.world.navs()[i]
                },
            decreases ids.len() - k,
        {
            let id = ids[k];
            let ghost pre = ids@.take(k as int);
            let ghost nxt = ids@.take(k + 1);
            proof {
                assert(nxt =~= pre.push(id));
                self.world.lemma_wf_cols();
                self.world.lemma_cols();
            }
            let mobile = match self.owned_slot(id, p) {
                Some(i) => info(self.world.kind_at(i)).mobile,
                None => false,
            };
            let ghost w1 = self.world;
            assert(mobile == owned_mobile(s0.world, id, p));
            if mobile {
                let i = id.index();
                self.world.set_job(i, Order::Idle, None);
            }
            proof {
                assert forall|i: int| 0 <= i < s0.world.n() implies if names_mobile(s0.world, nxt, p, i) {
                    &&& #[trigger] self.world.orders()[i] == Order::Idle
                    &&& self.world.navs()[i] is None
                } else {
                    &&& self.world.orders()[i] == s0.world.orders()[i]
                    &&& self.world.navs()[i] == s0.world.navs()[i]
                } by {
                    assert(w1.orders()[i] == w1.orders()[i]);
                    if i == id.idx() as int && mobile {
                        assert(nxt[k as int].idx() == i && owned_mobile(s0.world, nxt[k as int], p));
                    } else {
                        assert(self.world.orders()[i] == w1.orders()[i]);
                        assert(self.world.navs()[i] == w1.navs()[i]);
                        if names_mobile(s0.world, nxt, p, i) {
                            let j = choose|j: int| 0 <= j < nxt.len() && #[trigger] nxt[j].idx() == i && owned_mobile(s0.world, nxt[j], p);
                            if j == k {
                                assert(nxt[j] == id);
                            } else {
                                assert(pre[j] == nxt[j]);
                            }
                        }
                        if names_mobile(s0.world, pre, p, i) {
                            let j = choose|j: int| 0 <= j < pre.len() && #[trigger] pre[j].idx() == i && owned_mobile(s0.world, pre[j], p);
                            assert(nxt[j] == pre[j]);
                        }
                    }
                }
            }
            k = k + 1;
        }
        proof {
            assert(ids@.take(ids@.len() as int) =~= ids@);
        }
    }
}


impl Simulation {
    /// `b` is `a` after every villager of `p` among `ids` takes order `o`
    /// and drops its trip, with its work accumulator cleared too when
    /// `reset_work`.
    pub open spec fn assigned(a: Simulation, ids: Seq<EntityId>, p: u8, o: Order, reset_work: bool, b: Simulation) -> bool {
        &&& Simulation::same_frame(a, b)
        &&& b.players_of() == a.players_of()
        &&& b.nav_of() == a.nav_of()
        &&& edited(a.world_of(), b.world_of(), true, reset_work, false, false)
        &&& forall|i: int| 0 <= i < a.world_of().n() ==> if names_villager(a.world_of(), ids, p, i) {
            &&& #[trigger] b.world_of().orders()[i] == o
            &&& b.world_of().navs()[i] is None
            &&& reset_work ==> b.world_of().works()[i] == Fx(0)
        } else {
            &&& b.world_of().orders()[i] == a.world_of().orders()[i]
            &&& b.world_of().navs()[i] == a.world_of().navs()[i]
            &&& b.world_of().works()[i] == a.world_of().works()[i]
        }
    }

    /// Gives every villager of `p` among `ids` order `o`, dropping its trip
    /// and, when `reset_work`, its work accumulator.
    #[verifier::spinoff_prover]
    #[verifier::rlimit(40)]
    fn assign_villagers(&mut self, ids: &Vec<EntityId>, p: u8, o: Order, reset_work: bool)
        requires
            old(self).parts_ok(),
        ensures
            final(self).parts_ok(),
            Simulation::assigned(*old(self), ids@, p, o, reset_work, *final(self)),
    {
        let ghost s0 = *self;
        let mut k: usize = 0;
        while k < ids.len()
            invariant
                self.parts_ok(),
                k <= ids@.len(),
                Simulation::same_frame(s0, *self),
                self.players == s0.players,
                self.nav == s0.nav,
                edited(s0.world, self.world, true, reset_work, false, false),
                forall|i: int| 0 <= i < s0.world.n() ==> if names_villager(s0.world, ids@.take(k as int), p, i) {
                    &&& #[trigger] self.world.orders()[i] == o
                    &&& self.world.navs()[i] is None
                    &&& reset_work ==> self.world.works()[i] == Fx(0)
                } else {
                    &&& self.world.orders()[i] == s0.world.orders()[i]
                    &&& self.world.navs()[i] == s0.world.navs()[i]
                    &&& self.world.works()[i] == s0.world.works()[i]
                },
            decreases ids.len() - k,
        {
            let id = ids[k];
            let ghost pre = ids@.take(k as int);
            let ghost nxt = ids@.take(k + 1);
            proof {
                assert(nxt =~= pre.push(id));
                self.world.lemma_wf_cols();
                self.world.lemma_cols();
            }
            let villager = match self.owned_slot(id, p) {
                Some(i) => self.world.kind_at(i) == VILLAGER,
                None => false,
            };
            let ghost w1 = self.world;
            assert(villager == owned_villager(s0.world, id, p));
            if villager {
                let i = id.index();
                self.world.set_job(i, o, None);
                if reset_work {
                    proof {
                        self.world.lemma_wf_cols();
                    }
                    self.world.set_work(i, Fx::ZERO());
                }
            }
            proof {
                assert forall|i: int| 0 <= i < s0.world.n() implies if names_villager(s0.world, nxt, p, i) {
                    &&& #[trigger] self.world.orders()[i] == o
                    &&& self.world.navs()[i] is None
                    &&& reset_work ==> self.world.works()[i] == Fx(0)
                } else {
                    &&& self.world.orders()[i] == s0.world.orders()[i]
                    &&& self.world.navs()[i] == s0.world.navs()[i]
                    &&& self.world.works()[i] == s0.world.works()[i]
                } by {
                    assert(w1.orders()[i] == w1.orders()[i]);
                    if i == id.idx() as int && villager {
                        assert(nxt[k as int].idx() == i && owned_villager(s0.world, nxt[k as int], p));
                    } else {
                        assert(self.world.orders()[i] == w1.orders()[i]);
                        assert(self.world.navs()[i] == w1.navs()[i]);
                        assert(self.world.works()[i] == w1.works()[i]);
                        if names_villager(s0.world, nxt, p, i) {
                            let j = choose|j: int| 0 <= j < nxt.len() && #[trigger] nxt[j].idx() == i && owned_villager(s0.world, nxt[j], p);
                            if j == k {
                                assert(nxt[j] == id);
                            } else {
                                assert(pre[j] == nxt[j]);
                            }
                        }
                        if names_villager(s0.world, pre, p, i) {
                            let j = choose|j: int| 0 <= j < pre.len() && #[trigger] pre[j].idx() == i && owned_villager(s0.world, pre[j], p);
                            assert(nxt[j] == pre[j]);
                        }
                    }
                }
            }
            k = k + 1;
        }
        proof {
            assert(ids@.take(ids@.len() as int) =~= ids@);
            assert forall|i: int| 0 <= i < s0.world.n() implies if names_villager(s0.world, ids@, p, i) {
                &&& #[trigger] self.world.orders()[i] == o
                &&& self.world.navs()[i] is None
                &&& reset_work ==> self.world.works()[i] == Fx(0)
            } else {
                &&& self.world.orders()[i] == s0.world.orders()[i]
                &&& self.world.navs()[i] == s0.world.navs()[i]
                &&& self.world.works()[i] == s0.world.works()[i]
            } by {
                assert(self.world.orders()[i] == self.world.orders()[i]);
            }
        }
    }
}


/// The queue a production slot holds; empty when there is none.
pub open spec fn prod_queue(o: Option<Production>) -> Seq<QueueItem> {
    match o {
        Some(pr) => pr.queue@,
        None => Seq::empty(),
    }
}

/// The rally point a production slot holds; none when there is no slot.
pub open spec fn prod_rally(o: Option<Production>) -> Option<Rally> {
    match o {
        Some(pr) => pr.rally,
        None => None,
    }
}

impl Simulation {
    /// `b` is `a` with slot `i` holding a production slot with queue `q` and
    /// rally point `r`, the players' stockpiles as `players`, and nothing else
    /// changed.
    pub open spec fn produced(a: Simulation, i: int, q: Seq<QueueItem>, r: Option<Rally>, b: Simulation) -> bool {
        &&& Simulation::same_frame(a, b)
        &&& b.nav_of() == a.nav_of()
        &&& edited(a.world_of(), b.world_of(), false, false, false, true)
        &&& b.world_of().productions()[i] is Some
        &&& prod_queue(b.world_of().productions()[i]) == q
        &&& prod_rally(b.world_of().productions()[i]) == r
        &&& forall|j: int| 0 <= j < a.world_of().n() && j != i ==> #[trigger] b.world_of().productions()[j] == a.world_of().productions()[j]
    }

    /// Replaces the production slot of live slot `i` by one holding `q` and
    /// `r`.
    fn put_production(&mut self, i: usize, q: Vec<QueueItem>, r: Option<Rally>)
        requires
            old(self).parts_ok(),
            i < old(self).world.n(),
            old(self).world.flags()[i as int],
        ensures
            final(self).parts_ok(),
            Simulation::produced(*old(self), i as int, q@, r, *final(self)),
            final(self).players == old(self).players,
    {
        proof {
            self.world.lemma_wf_cols();
            self.world.lemma_cols();
        }
        let ghost w0 = self.world;
        self.world.set_production(i, Some(Production { queue: q, rally: r }));
        proof {
            assert(self.world.productions() == w0.productions().update(i as int, Some(Production { queue: q, rally: r })));
        }
    }

    /// A copy of the queue and rally point of slot `i`'s production slot.
    fn production_copy(&self, i: usize) -> (r: (Vec<QueueItem>, Option<Rally>))
        requires
            self.parts_ok(),
            i < self.world.n(),
        ensures
            r.0@ == prod_queue(self.world.productions()[i as int]),
            r.1 == prod_rally(self.world.productions()[i as int]),
    {
        proof {
            self.world.lemma_wf_cols();
        }
        match self.world.production_at(i) {
            Some(pr) => {
                let mut q: Vec<QueueItem> = Vec::new();
                let mut k: usize = 0;
                while k < pr.queue.len()
                    invariant
                        k <= pr.queue@.len(),
                        q@ == pr.queue@.take(k as int),
                    decreases pr.queue.len() - k,
                {
                    q.push(pr.queue[k]);
                    k = k + 1;
                    proof {
                        assert(q@ =~= pr.queue@.take(k as int));
                    }
                }
                proof {
                    assert(pr.queue@.take(k as int) =~= pr.queue@);
                }
                (q, pr.rally)
            },
            None => (Vec::new(), None),
        }
    }
}


/// `b` is player `a` with `sign` times `cost` taken from its stockpile,
/// everything else the same.
pub open spec fn charged(a: Player, b: Player, cost: Seq<i32>, sign: int) -> bool {
    &&& forall|j: int| 0 <= j < 4 ==> #[trigger] b.stockpile@[j] == a.stockpile@[j] - sign * cost[j]
    &&& b.pop == a.pop
    &&& b.pop_cap == a.pop_cap
    &&& b.gathered == a.gathered
    &&& b.age == a.age
    &&& b.modifiers == a.modifiers
    &&& b.researched == a.researched
    &&& b.auto_reseed == a.auto_reseed
}

/// Only player `p` changed, and only as [`charged`] says.
pub open spec fn players_charged(a: Seq<Player>, b: Seq<Player>, p: int, cost: Seq<i32>, sign: int) -> bool {
    &&& b.len() == a.len()
    &&& 0 <= p < a.len()
    &&& charged(a[p], b[p], cost, sign)
    &&& forall|q: int| 0 <= q < a.len() && q != p ==> #[trigger] b[q] == a[q]
}

impl Simulation {
    /// Nothing that a command can touch changed.
    pub open spec fn unchanged(a: Simulation, b: Simulation) -> bool {
        &&& Simulation::same_frame(a, b)
        &&& b.players_of() == a.players_of()
        &&& b.world_of() == a.world_of()
        &&& b.nav_of() == a.nav_of()
    }

    /// A `Train` of `kind` at `building` by `p` goes ahead: the building is
    /// `p`'s, trains, is finished, the queue has room, the unit is a
    /// villager, and `p` can pay.
    pub open spec fn train_ok(a: Simulation, p: u8, building: EntityId, kind: u16) -> bool {
        let w = a.world_of();
        let i = building.idx() as int;
        &&& owned_by(w, building, p)
        &&& kind_info(w.kinds()[i]).trains
        &&& w.constructions()[i] is None
        &&& kind_info(kind).mobile
        &&& kind == VILLAGER
        &&& prod_queue(w.productions()[i]).len() < QUEUE_LIMIT
        &&& affords(a.players_of()[p as int].stockpile@, kind_info(kind).cost@)
    }

    /// Pays `cost` for player `p`, if they can afford it.
    fn charge(&mut self, p: usize, cost: &[i32; 4]) -> (r: bool)
        requires
            old(self).parts_ok(),
            p < old(self).players@.len(),
            forall|j: int| 0 <= j < 4 ==> 0 <= #[trigger] cost@[j],
        ensures
            final(self).parts_ok(),
            r == affords(old(self).players@[p as int].stockpile@, cost@),
            r ==> players_charged(old(self).players@, final(self).players@, p as int, cost@, 1),
            !r ==> final(self).players@ == old(self).players@,
            final(self).world == old(self).world,
            final(self).nav == old(self).nav,
            Simulation::same_frame(*old(self), *final(self)),
    {
        let ghost ps = self.players@;
        let r = self.players[p].pay(cost);
        proof {
            assert forall|q: int| 0 <= q < self.players@.len() implies player_ok(#[trigger] self.players@[q]) by {
                assert(player_ok(ps[q]));
            }
            if !r {
                assert(self.players@ =~= ps);
            }
        }
        r
    }

    /// Gives player `p` back `cost`.
    fn give_back(&mut self, p: usize, cost: &[i32; 4])
        requires
            old(self).parts_ok(),
            p < old(self).players@.len(),
            forall|j: int| 0 <= j < 4 ==> i32::MIN <= old(self).players@[p as int].stockpile@[j] + #[trigger] cost@[j] <= i32::MAX,
        ensures
            final(self).parts_ok(),
            players_charged(old(self).players@, final(self).players@, p as int, cost@, -1),
            final(self).world == old(self).world,
            final(self).nav == old(self).nav,
            Simulation::same_frame(*old(self), *final(self)),
    {
        let ghost ps = self.players@;
        self.players[p].refund(cost);
        proof {
            assert forall|q: int| 0 <= q < self.players@.len() implies player_ok(#[trigger] self.players@[q]) by {
                assert(player_ok(ps[q]));
            }
        }
    }

    /// Carries out `Train`: queues a villager at a town building of `p`'s,
    /// paid on queueing.
    fn cmd_train(&mut self, p: u8, building: EntityId, kind: u16)
        requires
            old(self).parts_ok(),
            p < old(self).players@.len(),
        ensures
            final(self).parts_ok(),
            Simulation::train_ok(*old(self), p, building, kind) ==> {
                let i = building.idx() as int;
                let pr = old(self).world_of().productions()[i];
                &&& Simulation::produced(*old(self), i, prod_queue(pr).push(QueueItem { item: Item::Unit(kind), progress: 0 }), prod_rally(pr), *final(self))
                &&& players_charged(old(self).players_of(), final(self).players_of(), p as int, kind_info(kind).cost@, 1)
            },
            !Simulation::train_ok(*old(self), p, building, kind) ==> Simulation::unchanged(*old(self), *final(self)),
    {
        proof {
            self.world.lemma_wf_cols();
        }
        let i = match self.owned_slot(building, p) {
            Some(i) => i,
            None => {
                return;
            },
        };
        let binfo = info(self.world.kind_at(i));
        let uinfo = info(kind);
        if !binfo.trains || self.world.construction_at(i).is_some() || !uinfo.mobile || kind != VILLAGER {
            return;
        }
        let (mut q, r) = self.production_copy(i);
        if q.len() >= QUEUE_LIMIT {
            return;
        }
        if !self.charge(p as usize, &uinfo.cost) {
            return;
        }
        q.push(QueueItem::unit(kind));
        let ghost s1 = *self;
        self.put_production(i, q, r);
    }
}


/// What a queued item cost, and so what cancelling it gives back.
pub open spec fn item_cost(it: QueueItem) -> [i32; 4] {
    match it.item {
        Item::Unit(k) => kind_info(k).cost,
        Item::Tech(t) => match tech_row(t) {
            Some(row) => row.cost,
            None => [0, 0, 0, 0],
        },
    }
}

impl Simulation {
    /// A `Research` of `tech` at `building` by `p` goes ahead: every check
    /// of [`Simulation::can_research`] passes and `p` can pay.
    pub open spec fn research_ok(a: Simulation, p: u8, building: EntityId, tech: u16) -> bool {
        &&& research_verdict(a.players_of(), a.world_of(), p, building, tech) is Ok
        &&& affords(a.players_of()[p as int].stockpile@, tech_row(tech)->0.cost@)
    }

    /// Carries out `Research`: queues `tech` at `building`, paid on
    /// queueing.
    fn cmd_research(&mut self, p: u8, building: EntityId, tech: u16)
        requires
            old(self).parts_ok(),
        ensures
            final(self).parts_ok(),
            Simulation::research_ok(*old(self), p, building, tech) ==> {
                let i = building.idx() as int;
                let pr = old(self).world_of().productions()[i];
                &&& Simulation::produced(*old(self), i, prod_queue(pr).push(QueueItem { item: Item::Tech(tech), progress: 0 }), prod_rally(pr), *final(self))
                &&& players_charged(old(self).players_of(), final(self).players_of(), p as int, tech_row(tech)->0.cost@, 1)
            },
            !Simulation::research_ok(*old(self), p, building, tech) ==> Simulation::unchanged(*old(self), *final(self)),
    {
        proof {
            self.world.lemma_wf_cols();
        }
        if self.can_research(p, building, tech).is_err() {
            return;
        }
        let i = match self.owned_slot(building, p) {
            Some(i) => i,
            None => {
                return;
            },
        };
        let t = match tech_info(tech) {
            Some(t) => t,
            None => {
                return;
            },
        };
        let (mut q, r) = self.production_copy(i);
        if !self.charge(p as usize, &t.cost) {
            return;
        }
        q.push(QueueItem::tech(tech));
        self.put_production(i, q, r);
    }

    /// Carries out `CancelTrain`: takes the last item off the queue of a
    /// building of `p`'s and gives back what it cost.
    fn cmd_cancel(&mut self, p: u8, building: EntityId)
        requires
            old(self).parts_ok(),
            p < old(self).players@.len(),
            owned_by(old(self).world_of(), building, p) && prod_queue(old(self).world_of().productions()[building.idx() as int]).len() > 0
                ==> forall|j: int| 0 <= j < 4 ==> i32::MIN <= old(self).players_of()[p as int].stockpile@[j] + #[trigger] item_cost(
                prod_queue(old(self).world_of().productions()[building.idx() as int]).last(),
            )@[j] <= i32::MAX,
        ensures
            final(self).parts_ok(),
            owned_by(old(self).world_of(), building, p) && prod_queue(old(self).world_of().productions()[building.idx() as int]).len() > 0
                ==> {
                let i = building.idx() as int;
                let pr = old(self).world_of().productions()[i];
                &&& Simulation::produced(*old(self), i, prod_queue(pr).drop_last(), prod_rally(pr), *final(self))
                &&& players_charged(old(self).players_of(), final(self).players_of(), p as int, item_cost(prod_queue(pr).last())@, -1)
            },
            !(owned_by(old(self).world_of(), building, p) && prod_queue(old(self).world_of().productions()[building.idx() as int]).len() > 0)
                ==> Simulation::unchanged(*old(self), *final(self)),
    {
        proof {
            self.world.lemma_wf_cols();
        }
        let i = match self.owned_slot(building, p) {
            Some(i) => i,
            None => {
                return;
            },
        };
        let (mut q, r) = self.production_copy(i);
        if q.len() == 0 {
            return;
        }
        let item = q.pop().unwrap();
        let cost: [i32; 4] = match item.item {
            Item::Unit(k) => info(k).cost,
            Item::Tech(t) => match tech_info(t) {
                Some(ti) => ti.cost,
                None => [0, 0, 0, 0],
            },
        };
        proof {
            assert(item == prod_queue(self.world.productions()[i as int]).last());
            assert(cost == item_cost(item));
            assert forall|j: int| 0 <= j < 4 implies i32::MIN <= self.players@[p as int].stockpile@[j] + #[trigger] cost@[j] <= i32::MAX by {
                assert(cost@[j] == item_cost(prod_queue(self.world.productions()[i as int]).last())@[j]);
            }
        }
        self.give_back(p as usize, &cost);
        self.put_production(i, q, r);
    }

    /// Carries out `SetRally`: a building of `p`'s that trains sends what it
    /// produces to `rally`.
    fn cmd_rally(&mut self, p: u8, building: EntityId, rally: Rally)
        requires
            old(self).parts_ok(),
        ensures
            final(self).parts_ok(),
            owned_by(old(self).world_of(), building, p) && kind_info(old(self).world_of().kinds()[building.idx() as int]).trains ==> {
                let pr = old(self).world_of().productions()[building.idx() as int];
                &&& Simulation::produced(*old(self), building.idx() as int, prod_queue(pr), Some(rally), *final(self))
                &&& final(self).players_of() == old(self).players_of()
            },
            !(owned_by(old(self).world_of(), building, p) && kind_info(old(self).world_of().kinds()[building.idx() as int]).trains)
                ==> Simulation::unchanged(*old(self), *final(self)),
    {
        proof {
            self.world.lemma_wf_cols();
        }
        let i = match self.owned_slot(building, p) {
            Some(i) => i,
            None => {
                return;
            },
        };
        if !info(self.world.kind_at(i)).trains {
            return;
        }
        let (q, _) = self.production_copy(i);
        self.put_production(i, q, Some(rally));
    }

    /// Carries out `SetAutoReseed` for player `p`, if there is one.
    fn cmd_auto_reseed(&mut self, p: u8, enabled: bool)
        requires
            old(self).parts_ok(),
        ensures
            final(self).parts_ok(),
            Simulation::same_frame(*old(self), *final(self)),
            final(self).world_of() == old(self).world_of(),
            final(self).nav_of() == old(self).nav_of(),
            final(self).players_of() == if p < old(self).players_of().len() {
                old(self).players_of().update(p as int, Player { auto_reseed: enabled, ..old(self).players_of()[p as int] })
            } else {
                old(self).players_of()
            },
    {
        if (p as usize) < self.players.len() {
            let ghost ps = self.players@;
            self.players[p as usize].auto_reseed = enabled;
            proof {
                assert(self.players@ =~= ps.update(p as int, Player { auto_reseed: enabled, ..ps[p as int] }));
                assert forall|q: int| 0 <= q < self.players@.len() implies player_ok(#[trigger] self.players@[q]) by {
                    assert(player_ok(ps[q]));
                }
            }
        }
    }
}


/// Player `p`'s villagers may gather from the entity in slot `n`: a static
/// node with something left, not a site, and, for a farm, theirs.
pub open spec fn gatherable_by(w: World, n: int, p: u8) -> bool {
    let k = w.kinds()[n];
    &&& kind_info(k).resource is Some && !kind_info(k).mobile
    &&& w.resources()[n] > 0
    &&& w.constructions()[n] is None
    &&& (k != FARM || w.owners()[n] == p)
}

/// What gathering from an entity of kind `k` yields.
pub open spec fn yield_of(k: u16) -> Resource {
    match kind_info(k).resource {
        Some((r, _)) => r,
        None => Resource::Food,
    }
}

impl Simulation {
    /// Carries out `Gather`: villagers of `p`'s among `ids` go to work
    /// `node`, when it is live and theirs to gather from.
    fn cmd_gather(&mut self, p: u8, ids: &Vec<EntityId>, node: EntityId)
        requires
            old(self).parts_ok(),
        ensures
            final(self).parts_ok(),
            old(self).world_of().live_id(node) && gatherable_by(old(self).world_of(), node.idx() as int, p) ==> Simulation::assigned(
                *old(self),
                ids@,
                p,
                Order::Gather {
                    node,
                    resource: yield_of(old(self).world_of().kinds()[node.idx() as int]),
                    phase: GatherPhase::ToNode,
                },
                true,
                *final(self),
            ),
            !(old(self).world_of().live_id(node) && gatherable_by(old(self).world_of(), node.idx() as int, p)) ==> Simulation::unchanged(
                *old(self),
                *final(self),
            ),
    {
        proof {
            self.world.lemma_wf_cols();
            self.world.lemma_cols();
        }
        let ns = match self.world.slot(node) {
            Some(s) => s.index(),
            None => {
                return;
            },
        };
        let kind = self.world.kind_at(ns);
        let k = info(kind);
        let ok = crate::kinds::gatherable(kind) && self.world.resource_at(ns) > 0 && self.world.construction_at(ns).is_none()
            && (kind != FARM || self.world.owner_at(ns) == p);
        if !ok {
            return;
        }
        let resource = match k.resource {
            Some((r, _)) => r,
            None => Resource::Food,
        };
        self.assign_villagers(ids, p, Order::Gather { node, resource, phase: GatherPhase::ToNode }, true);
    }

    /// Carries out `Assist`: villagers of `p`'s among `ids` go to help build
    /// `site`, when it is a site of theirs.
    fn cmd_assist(&mut self, p: u8, ids: &Vec<EntityId>, site: EntityId)
        requires
            old(self).parts_ok(),
        ensures
            final(self).parts_ok(),
            owned_by(old(self).world_of(), site, p) && old(self).world_of().constructions()[site.idx() as int] is Some
                ==> Simulation::assigned(*old(self), ids@, p, Order::Build { site, working: false }, false, *final(self)),
            !(owned_by(old(self).world_of(), site, p) && old(self).world_of().constructions()[site.idx() as int] is Some)
                ==> Simulation::unchanged(*old(self), *final(self)),
    {
        proof {
            self.world.lemma_wf_cols();
        }
        match self.owned_slot(site, p) {
            Some(i) => {
                if self.world.construction_at(i).is_none() {
                    return;
                }
            },
            None => {
                return;
            },
        }
        self.assign_villagers(ids, p, Order::Build { site, working: false }, false);
    }
}


/// The anchor tile of a footprint of side `fp` centred at `pos`: the tile
/// under it for odd sides, the nearest tile corner for even ones.
pub open spec fn anchor_spec(pos: Vec2Fx, fp: int) -> (int, int) {
    if crate::nav::fp_side(fp) % 2 == 1 {
        (pos.x.0 as int / 65536, pos.y.0 as int / 65536)
    } else {
        (crate::fx::sat(pos.x.0 + 32768) / 65536, crate::fx::sat(pos.y.0 + 32768) / 65536)
    }
}

/// `b` is grid `a` with one blocker taken off every tile of the footprint
/// of side `fp` anchored at `(x, y)`, and its labels brought up to date.
pub open spec fn unblocked(a: NavGrid, x: int, y: int, fp: int, b: NavGrid) -> bool {
    &&& b.wf()
    &&& !b.is_dirty()
    &&& b.gw() == a.gw()
    &&& b.gh() == a.gh()
    &&& forall|tx: int, ty: int| #[trigger] a.inside(tx, ty) ==> b.blocks()[ty * a.gw() + tx] == if in_footprint(x, y, fp, tx, ty) {
        a.blocks()[ty * a.gw() + tx].saturating_sub(1)
    } else {
        a.blocks()[ty * a.gw() + tx]
    }
}

/// What is left of cost `c` once `done` of `total` units of work used it.
pub open spec fn share_left(c: int, done: int, total: int) -> int {
    c - c * done / total
}

/// Work done on a site, capped at what the kind needs.
pub open spec fn work_done(c: Option<u32>, need: int) -> int {
    match c {
        Some(d) => if d < need { d as int } else { need },
        None => 0,
    }
}

/// What taking down a site of kind `k` with `c` work done gives back.
pub open spec fn site_refund(k: u16, c: Option<u32>) -> Seq<i32> {
    let need = kind_work(k);
    let total = if need > 1 { need } else { 1 };
    Seq::new(4, |j: int| share_left(kind_info(k).cost[j] as int, work_done(c, need), total) as i32)
}

/// The work units a kind's construction takes.
pub open spec fn kind_work(k: u16) -> int {
    ((kind_info(k).build_seconds * 20) % 0x1_0000_0000) * 100
}

/// The numbers of every kind are small.
proof fn lemma_kind_small(k: u16)
    ensures
        0 <= kind_info(k).build_seconds <= 1000,
        forall|j: int| 0 <= j < 4 ==> 0 <= #[trigger] kind_info(k).cost@[j] <= 1000,
        kind_info(k).footprint <= 8,
        0 <= kind_info(k).max_health <= 100000,
{
}

impl Simulation {
    /// The owner of the entity in slot `i` is a player, and the slot holds
    /// an unfinished site.
    pub open spec fn refunds_site(a: Simulation, i: int) -> bool {
        a.world_of().constructions()[i] is Some && (a.world_of().owners()[i] as int) < a.players_of().len()
    }

    /// Taking down the live entity `id` leaves every stockpile in range.
    pub open spec fn removal_fits(a: Simulation, id: EntityId) -> bool {
        let i = id.idx() as int;
        let w = a.world_of();
        Simulation::refunds_site(a, i) ==> forall|j: int|
            0 <= j < 4 ==> a.players_of()[w.owners()[i] as int].stockpile@[j] + #[trigger] site_refund(w.kinds()[i], w.constructions()[i])[j]
                <= i32::MAX
    }

    /// `b` is `a` with the live entity `id` taken down: its footprint opened
    /// (and the grid relabelled), an unfinished site's unspent cost given
    /// back to its owner, and the entity despawned.
    pub open spec fn removed(a: Simulation, id: EntityId, b: Simulation) -> bool {
        let w = a.world_of();
        let i = id.idx() as int;
        let k = kind_info(w.kinds()[i]);
        let at = anchor_spec(w.positions()[i], k.footprint as int);
        &&& Simulation::same_frame(a, b)
        &&& despawn_result(w, id, b.world_of())
        &&& k.footprint > 0 ==> unblocked(a.nav_of(), at.0, at.1, k.footprint as int, b.nav_of())
        &&& k.footprint == 0 ==> b.nav_of() == a.nav_of()
        &&& Simulation::refunds_site(a, i) ==> players_charged(
            a.players_of(),
            b.players_of(),
            w.owners()[i] as int,
            site_refund(w.kinds()[i], w.constructions()[i]),
            -1,
        )
        &&& !Simulation::refunds_site(a, i) ==> b.players_of() == a.players_of()
    }

    /// What is left of cost `c` after `done` of `total` work units.
    fn share_left_of(c: i32, done: u32, total: u32) -> (r: i32)
        requires
            0 <= c <= 1000,
            done <= total,
            1 <= total <= 10_000_000,
        ensures
            r == share_left(c as int, done as int, total as int),
            0 <= r <= c,
    {
        proof {
            assert(0 <= c * done <= 1000 * 10_000_000) by (nonlinear_arith)
                requires
                    0 <= c <= 1000,
                    done <= total,
                    total <= 10_000_000,
            ;
            assert(0 <= (c * done) / (total as int) <= c) by (nonlinear_arith)
                requires
                    0 <= c,
                    done <= total,
                    1 <= total,
            ;
        }
        let used: i64 = (c as i64 * done as i64) / (total as i64);
        (c as i64 - used) as i32
    }

    /// Takes down the live entity `id`.
    fn remove(&mut self, id: EntityId)
        requires
            old(self).parts_ok(),
            old(self).world_of().live_id(id),
            Simulation::removal_fits(*old(self), id),
        ensures
            final(self).parts_ok(),
            Simulation::removed(*old(self), id, *final(self)),
    {
        proof {
            self.world.lemma_wf_cols();
            self.world.lemma_cols();
        }
        let i = id.index();
        let kind = self.world.kind_at(i);
        let k = info(kind);
        proof {
            lemma_kind_small(kind);
        }
        let ghost a = *self;
        if k.footprint > 0 {
            let fp = k.footprint as i32;
            let (ax, ay) = anchor_tile(self.world.pos_at(i), fp);
            self.nav.unblock_footprint(ax, ay, fp);
            self.nav.refresh();
        }
        let c = self.world.construction_at(i);
        let owner = self.world.owner_at(i);
        if c.is_some() && (owner as usize) < self.players.len() {
            let need = k.build_work();
            let done: u32 = match c {
                Some(d) => if d < need { d } else { need },
                None => 0,
            };
            let total: u32 = if need > 1 { need } else { 1 };
            let back: [i32; 4] = [
                Self::share_left_of(k.cost[0], done, total),
                Self::share_left_of(k.cost[1], done, total),
                Self::share_left_of(k.cost[2], done, total),
                Self::share_left_of(k.cost[3], done, total),
            ];
            proof {
                assert(back@ =~= site_refund(kind, c));
                assert(self.players@ == a.players@);
                assert forall|j: int| 0 <= j < 4 implies i32::MIN <= self.players@[owner as int].stockpile@[j] + #[trigger] back@[j] <= i32::MAX by {
                    assert(back@[j] == site_refund(kind, c)[j]);
                    assert(0 <= back@[j]);
                }
            }
            self.give_back(owner as usize, &back);
        }
        proof {
            self.world.lemma_wf_cols();
        }
        self.world.despawn(id);
    }
}


/// Where a building of side `fp` anchored on tile `(x, y)` stands.
pub open spec fn site_centre(x: int, y: int, fp: int) -> Vec2Fx {
    Vec2Fx {
        x: Fx(crate::nav::building_centre_raw(x, fp) as i32),
        y: Fx(crate::nav::building_centre_raw(y, fp) as i32),
    }
}

impl Simulation {
    /// `b` is `a` with the live entity `id` made a fresh site: no work
    /// done, one hit point, nothing to gather.
    pub open spec fn made_site(a: Simulation, id: EntityId, b: Simulation) -> bool {
        let i = id.idx() as int;
        &&& Simulation::same_frame(a, b)
        &&& b.players_of() == a.players_of()
        &&& b.nav_of() == a.nav_of()
        &&& edited(a.world_of(), b.world_of(), false, false, true, false)
        &&& b.world_of().constructions() == a.world_of().constructions().update(i, Some(0u32))
        &&& b.world_of().healths() == a.world_of().healths().update(i, Fx(65536))
        &&& b.world_of().resources() == a.world_of().resources().update(i, 0i32)
    }

    /// `b` is `a` after `p` placed a building of `kind` anchored at
    /// `(x, y)` that passed every placement check: the cost paid, the site
    /// spawned at the footprint's centre (or, at the entity cap, nothing
    /// spawned and the cost given back), and the villagers of `p` among
    /// `ids` sent to build it.
    pub open spec fn built(a: Simulation, p: u8, kind: u16, x: i32, y: i32, ids: Seq<EntityId>, b: Simulation) -> bool {
        let k = kind_info(kind);
        let pos = site_centre(x as int, y as int, k.footprint as int);
        if place_verdict(a.players_of(), a.nav_of(), p as int, kind, x as int, y as int) is Err {
            Simulation::unchanged(a, b)
        } else if a.world_of().live_count() >= a.config_of().max_entities {
            &&& Simulation::same_frame(a, b)
            &&& b.world_of() == a.world_of()
            &&& b.nav_of() == a.nav_of()
            &&& players_charged(a.players_of(), b.players_of(), p as int, k.cost@, 0)
        } else {
            exists|s1: Simulation, s2: Simulation, s3: Simulation, id: EntityId| {
                &&& Simulation::same_frame(a, s1)
                &&& s1.world_of() == a.world_of()
                &&& s1.nav_of() == a.nav_of()
                &&& players_charged(a.players_of(), s1.players_of(), p as int, k.cost@, 1)
                &&& #[trigger] Simulation::spawned(s1, kind, p, pos, Some(id), s2)
                &&& #[trigger] Simulation::made_site(s2, id, s3)
                &&& Simulation::assigned(s3, ids, p, Order::Build { site: id, working: false }, false, b)
            }
        }
    }

    /// Carries out `Build`.
    fn cmd_build(&mut self, p: u8, kind: u16, x: i32, y: i32, ids: &Vec<EntityId>)
        requires
            old(self).parts_ok(),
            old(self).world.n() < MAX_SLOTS,
        ensures
            final(self).parts_ok(),
            Simulation::built(*old(self), p, kind, x, y, ids@, *final(self)),
    {
        let ghost a = *self;
        if self.can_place(p, kind, x, y).is_err() {
            return;
        }
        let k = info(kind);
        proof {
            lemma_kind_small(kind);
            let fp = k.footprint as int;
            assert(in_footprint(x as int, y as int, fp, x as int, y as int));
            assert(self.nav.open_at(x as int, y as int));
        }
        let paid = self.charge(p as usize, &k.cost);
        let ghost s1 = *self;
        let pos = crate::nav::building_centre(x, y, k.footprint as i32);
        proof {
            assert(pos == site_centre(x as int, y as int, k.footprint as int));
        }
        let site = match self.spawn(kind, p, pos) {
            Some(site) => site,
            None => {
                proof {
                    assert forall|j: int| 0 <= j < 4 implies i32::MIN <= self.players@[p as int].stockpile@[j] + #[trigger] k.cost@[j]
                        <= i32::MAX by {
                        assert(self.players@[p as int].stockpile@[j] == a.players@[p as int].stockpile@[j] - k.cost@[j]);
                    }
                }
                self.give_back(p as usize, &k.cost);
                return;
            },
        };
        let ghost s2 = *self;
        let i = site.index();
        proof {
            self.world.lemma_wf_cols();
        }
        self.world.set_site(i, Some(0), Fx::ONE(), 0);
        let ghost s3 = *self;
        self.assign_villagers(ids, p, Order::Build { site, working: false }, false);
        proof {
            assert(Simulation::spawned(s1, kind, p, pos, Some(site), s2));
            assert(Simulation::made_site(s2, site, s3));
        }
    }
}


/// The slots of the mobile entities of `p` among `ids`, in order, repeats
/// kept.
pub open spec fn mobile_units(w: World, ids: Seq<EntityId>, p: u8) -> Seq<int>
    decreases ids.len(),
{
    if ids.len() == 0 {
        Seq::empty()
    } else if owned_mobile(w, ids.last(), p) {
        mobile_units(w, ids.drop_last(), p).push(ids.last().idx() as int)
    } else {
        mobile_units(w, ids.drop_last(), p)
    }
}

/// The last position of `i` in `s`; -1 when it is not there.
pub open spec fn last_index(s: Seq<int>, i: int) -> int
    decreases s.len(),
{
    if s.len() == 0 {
        -1
    } else if s.last() == i {
        s.len() - 1
    } else {
        last_index(s.drop_last(), i)
    }
}

/// `r` is what [`NavGrid::spread`] gives for `n` units around `(x, y)`:
/// the first `n` open tiles within 24 of it, in spreading order.
pub open spec fn spread_result(g: NavGrid, x: int, y: int, n: int, r: Seq<Tile>) -> bool {
    &&& r.len() <= n
    &&& forall|k: int| 0 <= k < r.len() ==> g.fits(None, (#[trigger] r[k]).0 as int, r[k].1 as int) && cheb(r[k].0 - x, r[k].1 - y) < 24
    &&& forall|a: int, b: int| 0 <= a < b < r.len() ==> spread_lt(x, y, #[trigger] r[a], #[trigger] r[b])
    &&& forall|u: Tile| #[trigger] g.fits(None, u.0 as int, u.1 as int) && cheb(u.0 - x, u.1 - y) < 24 ==> r.contains(u) || (r.len() == n
        && (n > 0 ==> spread_lt(x, y, r.last(), u)))
}

/// Where the `m`-th unit of a move to `target` on tile `t` goes: the
/// target itself for the first unit when its spot is the target's tile,
/// else its spot's centre, else, with no spot left, the target.
pub open spec fn move_goal(target: Vec2Fx, t: Tile, spots: Seq<Tile>, m: int) -> Vec2Fx {
    if m < spots.len() {
        if m == 0 && spots[m] == t {
            target
        } else {
            centre_spec(spots[m])
        }
    } else {
        target
    }
}

/// How near a walker must come to its goal: fifteen hundredths of a tile.
pub open spec fn arrive_margin() -> Fx {
    Fx(crate::fx::sat(crate::fx::round_div(15int * 65536, 100)) as i32)
}

/// `nv` is a fresh trip to `goal`, following the field to `goal`'s tile.
pub open spec fn trip_to(nv: Nav, goal: Vec2Fx) -> bool {
    &&& nv.fresh(goal, arrive_margin(), nv.field)
    &&& nv.field.0 as int == goal.x.0 as int / 65536
    &&& nv.field.1 as int == goal.y.0 as int / 65536
    &&& nv.field.2 == 0
}

impl Simulation {
    /// `b` is `a` after `p` moved `ids` to `target`: the target moved onto
    /// the map, the units spread over the open tiles around it in spreading
    /// order, each walking to its goal; nothing happens when none of `ids`
    /// is a mobile entity of `p`'s.
    pub open spec fn moved(a: Simulation, ids: Seq<EntityId>, p: u8, target: Vec2Fx, b: Simulation) -> bool {
        let units = mobile_units(a.world_of(), ids, p);
        let at = clamped_pos(target, a.map_of().w() as int, a.map_of().h() as int);
        let t: Tile = ((at.x.0 as int / 65536) as i32, (at.y.0 as int / 65536) as i32);
        if units.len() == 0 {
            Simulation::unchanged(a, b)
        } else {
            exists|spots: Seq<Tile>| {
                &&& #[trigger] spread_result(a.nav_of(), t.0 as int, t.1 as int, units.len() as int, spots)
                &&& Simulation::same_frame(a, b)
                &&& b.players_of() == a.players_of()
                &&& b.nav_of() == a.nav_of()
                &&& edited(a.world_of(), b.world_of(), true, false, false, false)
                &&& forall|i: int| 0 <= i < a.world_of().n() ==> if last_index(units, i) >= 0 {
                    let goal = move_goal(at, t, spots, last_index(units, i));
                    &&& #[trigger] b.world_of().orders()[i] == (Order::Move { target: goal })
                    &&& b.world_of().navs()[i] matches Some(nv) && trip_to(nv, goal)
                } else {
                    &&& b.world_of().orders()[i] == a.world_of().orders()[i]
                    &&& b.world_of().navs()[i] == a.world_of().navs()[i]
                }
            }
        }
    }
}


/// Every slot `mobile_units` lists is a live slot of the store.
proof fn lemma_mobile_units(w: World, ids: Seq<EntityId>, p: u8)
    ensures
        forall|j: int| 0 <= j < mobile_units(w, ids, p).len() ==> 0 <= #[trigger] mobile_units(w, ids, p)[j] < w.n()
            && w.flags()[mobile_units(w, ids, p)[j]],
    decreases ids.len(),
{
    if ids.len() > 0 {
        let pre = ids.drop_last();
        lemma_mobile_units(w, pre, p);
        let mu = mobile_units(w, ids, p);
        let mp = mobile_units(w, pre, p);
        assert forall|j: int| 0 <= j < mu.len() implies 0 <= #[trigger] mu[j] < w.n() && w.flags()[mu[j]] by {
            if j < mp.len() {
                assert(mu[j] == mp[j]);
            }
        }
    }
}

impl Simulation {
    /// Carries out `Move`.
    fn cmd_move(&mut self, p: u8, ids: &Vec<EntityId>, target: Vec2Fx)
        requires
            old(self).parts_ok(),
        ensures
            final(self).parts_ok(),
            Simulation::moved(*old(self), ids@, p, target, *final(self)),
    {
        let ghost s0 = *self;
        proof {
            self.world.lemma_wf_cols();
            self.world.lemma_cols();
        }
        let mut units: Vec<usize> = Vec::new();
        let ghost mut gu: Seq<int> = Seq::empty();
        let mut k: usize = 0;
        while k < ids.len()
            invariant
                *self == s0,
                self.parts_ok(),
                k <= ids@.len(),
                gu == mobile_units(s0.world, ids@.take(k as int), p),
                units@.len() == gu.len(),
                forall|j: int| 0 <= j < gu.len() ==> #[trigger] units@[j] as int == gu[j],
            decreases ids.len() - k,
        {
            let id = ids[k];
            proof {
                assert(ids@.take(k + 1).drop_last() =~= ids@.take(k as int));
                self.world.lemma_wf_cols();
            }
            let mobile = match self.owned_slot(id, p) {
                Some(i) => info(self.world.kind_at(i)).mobile,
                None => false,
            };
            if mobile {
                units.push(id.index());
                proof {
                    gu = gu.push(id.idx() as int);
                }
            }
            k = k + 1;
        }
        proof {
            assert(ids@.take(ids@.len() as int) =~= ids@);
            lemma_mobile_units(s0.world, ids@, p);
        }
        if units.len() == 0 {
            return;
        }
        let at = self.clamp_to_map(target);
        let t = crate::nav::tile_of(at);
        proof {
            assert(at == clamped_pos(target, self.map.w() as int, self.map.h() as int));
        }
        let spots = self.nav.spread(t.0, t.1, units.len(), None);
        let arrive = Fx::from_ratio(15, 100);
        let ghost sp = spots@;
        let mut m: usize = 0;
        while m < units.len()
            invariant
                self.parts_ok(),
                Simulation::same_frame(s0, *self),
                self.players == s0.players,
                self.nav == s0.nav,
                edited(s0.world, self.world, true, false, false, false),
                m <= gu.len(),
                units@.len() == gu.len(),
                forall|j: int| 0 <= j < gu.len() ==> #[trigger] units@[j] as int == gu[j],
                gu == mobile_units(s0.world, ids@, p),
                forall|j: int| 0 <= j < gu.len() ==> 0 <= #[trigger] gu[j] < s0.world.n() && s0.world.flags()[gu[j]],
                spots@ == sp,
                arrive == arrive_margin(),
                at == clamped_pos(target, s0.map_of().w() as int, s0.map_of().h() as int),
                t.0 as int == at.x.0 as int / 65536,
                t.1 as int == at.y.0 as int / 65536,
                forall|i: int| 0 <= i < s0.world.n() ==> if last_index(gu.take(m as int), i) >= 0 {
                    let goal = move_goal(at, t, sp, last_index(gu.take(m as int), i));
                    &&& #[trigger] self.world.orders()[i] == (Order::Move { target: goal })
                    &&& self.world.navs()[i] matches Some(nv) && trip_to(nv, goal)
                } else {
                    &&& self.world.orders()[i] == s0.world.orders()[i]
                    &&& self.world.navs()[i] == s0.world.navs()[i]
                },
            decreases units.len() - m,
        {
            let i = units[m];
            proof {
                assert(gu.take(m + 1).drop_last() =~= gu.take(m as int));
                assert(0 <= gu[m as int] < s0.world.n());
                self.world.lemma_wf_cols();
                self.world.lemma_cols();
            }
            let goal = if m < spots.len() {
                let t2 = spots[m];
                if m == 0 && t2.0 == t.0 && t2.1 == t.1 {
                    at
                } else {
                    crate::nav::centre(t2)
                }
            } else {
                at
            };
            proof {
                assert(goal == move_goal(at, t, sp, m as int));
            }
            let ghost w1 = self.world;
            let nv = Nav::to(goal, arrive);
            self.world.set_job(i, Order::Move { target: goal }, Some(nv));
            proof {
                let nxt = gu.take(m + 1);
                assert forall|ii: int| 0 <= ii < s0.world.n() implies if last_index(nxt, ii) >= 0 {
                    let g2 = move_goal(at, t, sp, last_index(nxt, ii));
                    &&& #[trigger] self.world.orders()[ii] == (Order::Move { target: g2 })
                    &&& self.world.navs()[ii] matches Some(nv2) && trip_to(nv2, g2)
                } else {
                    &&& self.world.orders()[ii] == s0.world.orders()[ii]
                    &&& self.world.navs()[ii] == s0.world.navs()[ii]
                } by {
                    assert(w1.orders()[ii] == w1.orders()[ii]);
                    if ii != i as int {
                        assert(self.world.orders()[ii] == w1.orders()[ii]);
                        assert(self.world.navs()[ii] == w1.navs()[ii]);
                        assert(last_index(nxt, ii) == last_index(gu.take(m as int), ii));
                    } else {
                        assert(last_index(nxt, ii) == m);
                    }
                }
            }
            m = m + 1;
        }
        proof {
            assert(gu.take(gu.len() as int) =~= gu);
            let at2 = clamped_pos(target, s0.map_of().w() as int, s0.map_of().h() as int);
            let t2: Tile = ((at2.x.0 as int / 65536) as i32, (at2.y.0 as int / 65536) as i32);
            assert(t2 == t);
            assert(spread_result(s0.nav_of(), t2.0 as int, t2.1 as int, gu.len() as int, sp));
            assert forall|i: int| 0 <= i < s0.world_of().n() implies if last_index(gu, i) >= 0 {
                let goal = move_goal(at2, t2, sp, last_index(gu, i));
                &&& #[trigger] self.world_of().orders()[i] == (Order::Move { target: goal })
                &&& self.world_of().navs()[i] matches Some(nv) && trip_to(nv, goal)
            } else {
                &&& self.world_of().orders()[i] == s0.world_of().orders()[i]
                &&& self.world_of().navs()[i] == s0.world_of().navs()[i]
            } by {
                assert(self.world.orders()[i] == self.world.orders()[i]);
            }
        }
    }
}


impl Simulation {
    /// Applying `c` to `a` stays within the machine's limits: a spawn has a
    /// slot number left, a refund does not overflow a stockpile, and a
    /// queue command names a player the match has.
    pub open spec fn apply_ok(a: Simulation, c: Command) -> bool {
        let p = c.player;
        let w = a.world_of();
        match c.kind {
            CommandKind::Spawn { .. } => w.n() < MAX_SLOTS,
            CommandKind::Build { .. } => w.n() < MAX_SLOTS,
            CommandKind::Despawn { id } => owned_by(w, id, p) ==> Simulation::removal_fits(a, id),
            CommandKind::Train { .. } => (p as int) < a.players_of().len(),
            CommandKind::CancelTrain { building } => {
                &&& (p as int) < a.players_of().len()
                &&& owned_by(w, building, p) && prod_queue(w.productions()[building.idx() as int]).len() > 0 ==> forall|j: int|
                    0 <= j < 4 ==> i32::MIN <= a.players_of()[p as int].stockpile@[j] + #[trigger] item_cost(
                    prod_queue(w.productions()[building.idx() as int]).last(),
                )@[j] <= i32::MAX
            },
            _ => true,
        }
    }

    /// `b` is `a` after command `c` of player `c.player` ran.
    pub open spec fn applied(a: Simulation, c: Command, b: Simulation) -> bool {
        let p = c.player;
        let w = a.world_of();
        match c.kind {
            CommandKind::Spawn { kind, pos } => exists|r: Option<EntityId>| #[trigger] Simulation::spawned(a, kind, p, pos, r, b),
            CommandKind::Despawn { id } => if owned_by(w, id, p) {
                Simulation::removed(a, id, b)
            } else {
                Simulation::unchanged(a, b)
            },
            CommandKind::Move { ids, target } => Simulation::moved(a, ids@, p, target, b),
            CommandKind::Stop { ids } => Simulation::stopped(a, ids@, p, b),
            CommandKind::Gather { ids, node } => if w.live_id(node) && gatherable_by(w, node.idx() as int, p) {
                Simulation::assigned(
                    a,
                    ids@,
                    p,
                    Order::Gather { node, resource: yield_of(w.kinds()[node.idx() as int]), phase: GatherPhase::ToNode },
                    true,
                    b,
                )
            } else {
                Simulation::unchanged(a, b)
            },
            CommandKind::Build { kind, x, y, ids } => Simulation::built(a, p, kind, x, y, ids@, b),
            CommandKind::Assist { ids, site } => if owned_by(w, site, p) && w.constructions()[site.idx() as int] is Some {
                Simulation::assigned(a, ids@, p, Order::Build { site, working: false }, false, b)
            } else {
                Simulation::unchanged(a, b)
            },
            CommandKind::Train { building, kind } => if Simulation::train_ok(a, p, building, kind) {
                let i = building.idx() as int;
                &&& Simulation::produced(a, i, prod_queue(w.productions()[i]).push(QueueItem { item: Item::Unit(kind), progress: 0 }), prod_rally(w.productions()[i]), b)
                &&& players_charged(a.players_of(), b.players_of(), p as int, kind_info(kind).cost@, 1)
            } else {
                Simulation::unchanged(a, b)
            },
            CommandKind::CancelTrain { building } => if owned_by(w, building, p) && prod_queue(w.productions()[building.idx() as int]).len() > 0 {
                let i = building.idx() as int;
                &&& Simulation::produced(a, i, prod_queue(w.productions()[i]).drop_last(), prod_rally(w.productions()[i]), b)
                &&& players_charged(a.players_of(), b.players_of(), p as int, item_cost(prod_queue(w.productions()[i]).last())@, -1)
            } else {
                Simulation::unchanged(a, b)
            },
            CommandKind::Research { building, tech } => if Simulation::research_ok(a, p, building, tech) {
                let i = building.idx() as int;
                &&& Simulation::produced(a, i, prod_queue(w.productions()[i]).push(QueueItem { item: Item::Tech(tech), progress: 0 }), prod_rally(w.productions()[i]), b)
                &&& players_charged(a.players_of(), b.players_of(), p as int, tech_row(tech)->0.cost@, 1)
            } else {
                Simulation::unchanged(a, b)
            },
            CommandKind::SetAutoReseed { enabled } => {
                &&& Simulation::same_frame(a, b)
                &&& b.world_of() == w
                &&& b.nav_of() == a.nav_of()
                &&& b.players_of() == if (p as int) < a.players_of().len() {
                    a.players_of().update(p as int, Player { auto_reseed: enabled, ..a.players_of()[p as int] })
                } else {
                    a.players_of()
                }
            },
            CommandKind::SetRally { building, rally } => if owned_by(w, building, p) && kind_info(w.kinds()[building.idx() as int]).trains {
                &&& Simulation::produced(a, building.idx() as int, prod_queue(w.productions()[building.idx() as int]), Some(rally), b)
                &&& b.players_of() == a.players_of()
            } else {
                Simulation::unchanged(a, b)
            },
        }
    }

    /// Runs one command now, as a tick runs each command due. A command that
    /// names something that is not its player's, or asks for what is not
    /// possible, changes nothing.
    pub fn apply(&mut self, cmd: Command)
        requires
            old(self).parts_ok(),
            Simulation::apply_ok(*old(self), cmd),
        ensures
            final(self).parts_ok(),
            Simulation::applied(*old(self), cmd, *final(self)),
    {
        let p = cmd.player;
        let ghost a = *self;
        match &cmd.kind {
            CommandKind::Spawn { kind, pos } => {
                let r = self.spawn(*kind, p, *pos);
                proof {
                    assert(Simulation::spawned(a, *kind, p, *pos, r, *self));
                }
            },
            CommandKind::Despawn { id } => {
                proof {
                    self.world.lemma_wf_cols();
                }
                if self.owned_slot(*id, p).is_some() {
                    self.remove(*id);
                }
            },
            CommandKind::Move { ids, target } => {
                self.cmd_move(p, ids, *target);
            },
            CommandKind::Stop { ids } => {
                self.stop_units(ids, p);
            },
            CommandKind::Gather { ids, node } => {
                self.cmd_gather(p, ids, *node);
            },
            CommandKind::Build { kind, x, y, ids } => {
                self.cmd_build(p, *kind, *x, *y, ids);
            },
            CommandKind::Assist { ids, site } => {
                self.cmd_assist(p, ids, *site);
            },
            CommandKind::Train { building, kind } => {
                self.cmd_train(p, *building, *kind);
            },
            CommandKind::CancelTrain { building } => {
                self.cmd_cancel(p, *building);
            },
            CommandKind::Research { building, tech } => {
                self.cmd_research(p, *building, *tech);
            },
            CommandKind::SetAutoReseed { enabled } => {
                self.cmd_auto_reseed(p, *enabled);
            },
            CommandKind::SetRally { building, rally } => {
                self.cmd_rally(p, *building, *rally);
            },
        }
    }
}


/// Slot `j` holds a live unit working, on the spot, at the site in slot `i`.
pub open spec fn works_on(w: World, j: int, i: int) -> bool {
    &&& w.flags()[j]
    &&& w.orders()[j] matches Order::Build { site, working }
    &&& working
    &&& site.idx() == i
    &&& site.gen() == w.gens()[i]
}

/// How many of the slots below `k` work at the site in slot `i`.
pub open spec fn workers_below(w: World, i: int, k: int) -> int
    decreases k,
{
    if k <= 0 {
        0
    } else {
        workers_below(w, i, k - 1) + if works_on(w, k - 1, i) { 1int } else { 0int }
    }
}

/// The builders a site counts this tick: those working at it, at most
/// [`MAX_BUILDERS`].
pub open spec fn crew(w: World, i: int) -> int {
    let c = workers_below(w, i, w.n());
    if c < MAX_BUILDERS { c } else { MAX_BUILDERS as int }
}

/// Work units one builder of `owner` adds per tick: a hundred, plus the
/// owner's build-speed bonus.
pub open spec fn pace_of(a: Simulation, owner: u8) -> int {
    let bonus = if (owner as int) < a.players_of().len() { a.players_of()[owner as int].modifiers.build_speed_pct as int } else { 0 };
    if 100 + bonus > 1 { 100 + bonus } else { 1 }
}

/// The farm bonus of `owner`: what a fresh farm holds beyond its base.
pub open spec fn farm_bonus(a: Simulation, owner: u8) -> int {
    if (owner as int) < a.players_of().len() { a.players_of()[owner as int].modifiers.farm_yield_bonus as int } else { 0 }
}

/// The work a site of kind `k` needs, at least one unit.
pub open spec fn work_total(k: u16) -> int {
    if kind_work(k) > 1 { kind_work(k) } else { 1 }
}

/// The work the site in slot `i` stands at after this tick's builders.
pub open spec fn progress_after(a: Simulation, i: int) -> int {
    let w = a.world_of();
    let c = match w.constructions()[i] { Some(c) => c as int, None => 0 };
    let d = c + crew(w, i) * pace_of(a, w.owners()[i]);
    if d < work_total(w.kinds()[i]) { d } else { work_total(w.kinds()[i]) }
}

/// The slot `i` is a site that someone works at this tick.
pub open spec fn advances(a: Simulation, i: int) -> bool {
    let w = a.world_of();
    w.flags()[i] && w.constructions()[i] is Some && crew(w, i) > 0
}

/// The site handle `s` names a site that is finished this tick.
pub open spec fn finishes(a: Simulation, s: EntityId) -> bool {
    let w = a.world_of();
    let i = s.idx() as int;
    &&& 0 <= i < w.n()
    &&& s.gen() == w.gens()[i]
    &&& advances(a, i)
    &&& progress_after(a, i) >= work_total(w.kinds()[i])
}

/// The unit in slot `j` was sent to build a site that is finished now.
pub open spec fn freed(a: Simulation, j: int) -> bool {
    &&& a.world_of().flags()[j]
    &&& a.world_of().orders()[j] matches Order::Build { site, .. }
    &&& finishes(a, site)
}

impl Simulation {
    /// `b` is `a` after one tick of construction: every site someone works
    /// at gains its builders' work, with health in step; a site that reaches
    /// its total is finished at full health (a farm seeded with its owner's
    /// yield) and everyone sent to build it stands idle.
    pub open spec fn constructed(a: Simulation, b: Simulation) -> bool {
        let w = a.world_of();
        let v = b.world_of();
        &&& Simulation::same_frame(a, b)
        &&& b.players_of() == a.players_of()
        &&& b.nav_of() == a.nav_of()
        &&& edited(w, v, true, false, true, false)
        &&& forall|i: int| 0 <= i < w.n() ==> if advances(a, i) {
            let k = kind_info(w.kinds()[i]);
            let d = progress_after(a, i);
            let total = work_total(w.kinds()[i]);
            if d < total {
                &&& #[trigger] v.constructions()[i] == Some(d as u32)
                &&& v.healths()[i] == Fx(from_int_raw(if k.max_health * d / total > 1 { k.max_health * d / total } else { 1 }) as i32)
                &&& v.resources()[i] == w.resources()[i]
            } else {
                &&& v.constructions()[i] is None
                &&& v.healths()[i] == Fx(from_int_raw(k.max_health as int) as i32)
                &&& v.resources()[i] == match k.resource {
                    Some((_, base)) => (base + farm_bonus(a, w.owners()[i])) as i32,
                    None => w.resources()[i],
                }
            }
        } else {
            &&& v.constructions()[i] == w.constructions()[i]
            &&& v.healths()[i] == w.healths()[i]
            &&& v.resources()[i] == w.resources()[i]
        }
        &&& forall|j: int| 0 <= j < w.n() ==> if freed(a, j) {
            &&& #[trigger] v.orders()[j] == Order::Idle
            &&& v.navs()[j] is None
        } else {
            &&& v.orders()[j] == w.orders()[j]
            &&& v.navs()[j] == w.navs()[j]
        }
    }
}


/// The unit in slot `j` was sent to a site, in a slot below `i`, that is
/// finished this tick.
pub open spec fn freed_below(a: Simulation, j: int, i: int) -> bool {
    &&& a.world_of().flags()[j]
    &&& a.world_of().orders()[j] matches Order::Build { site, .. }
    &&& finishes(a, site)
    &&& site.idx() < i
}

impl Simulation {
    /// Every site's progress plus this tick's work fits its counter.
    pub open spec fn construction_fits(a: Simulation) -> bool {
        forall|i: int| 0 <= i < a.world_of().n() && #[trigger] advances(a, i) ==> {
            let c = match a.world_of().constructions()[i] { Some(c) => c as int, None => 0 };
            c + crew(a.world_of(), i) * pace_of(a, a.world_of().owners()[i]) <= u32::MAX
        }
    }

    /// The builders site slot `i` counts this tick.
    fn crew_at(&self, i: usize) -> (r: u32)
        requires
            self.parts_ok(),
            i < self.world.n(),
        ensures
            r == crew(self.world, i as int),
    {
        proof {
            self.world.lemma_wf_cols();
            self.world.lemma_cols();
        }
        let id = self.world.id_at(Slot::new(i));
        let n = self.world.capacity();
        let mut count: u32 = 0;
        let mut j: usize = 0;
        while j < n
            invariant
                self.parts_ok(),
                n == self.world.n(),
                i < n,
                id.idx() == i,
                id.gen() == self.world.gens()[i as int],
                j <= n,
                count == workers_below(self.world, i as int, j as int),
                count <= j,
            decreases n - j,
        {
            proof {
                self.world.lemma_wf_cols();
            }
            if self.world.live_at(j) {
                match self.world.order_at(j) {
                    Order::Build { site, working } => {
                        proof {
                            EntityId::lemma_id_eq(site, id);
                        }
                        if working && site == id {
                            count = count + 1;
                        }
                    },
                    _ => {},
                }
            }
            j = j + 1;
        }
        if count < MAX_BUILDERS as u32 {
            count
        } else {
            MAX_BUILDERS as u32
        }
    }

    /// Sends everyone on their way to build `site` back to idle.
    fn idle_builders(&mut self, site: EntityId)
        requires
            old(self).parts_ok(),
        ensures
            final(self).parts_ok(),
            Simulation::same_frame(*old(self), *final(self)),
            final(self).players == old(self).players,
            final(self).nav == old(self).nav,
            edited(old(self).world, final(self).world, true, false, false, false),
            forall|j: int| 0 <= j < old(self).world.n() ==> if old(self).world.flags()[j] && (old(self).world.orders()[j] matches Order::Build { site: s, .. } && s == site) {
                &&& #[trigger] final(self).world.orders()[j] == Order::Idle
                &&& final(self).world.navs()[j] is None
            } else {
                &&& final(self).world.orders()[j] == old(self).world.orders()[j]
                &&& final(self).world.navs()[j] == old(self).world.navs()[j]
            },
    {
        let ghost s0 = *self;
        proof {
            self.world.lemma_wf_cols();
            self.world.lemma_cols();
        }
        let n = self.world.capacity();
        let mut j: usize = 0;
        while j < n
            invariant
                self.parts_ok(),
                n == s0.world.n(),
                j <= n,
                Simulation::same_frame(s0, *self),
                self.players == s0.players,
                self.nav == s0.nav,
                edited(s0.world, self.world, true, false, false, false),
                forall|k: int| 0 <= k < n ==> if k < j && s0.world.flags()[k] && (s0.world.orders()[k] matches Order::Build { site: s, .. } && s == site) {
                    &&& #[trigger] self.world.orders()[k] == Order::Idle
                    &&& self.world.navs()[k] is None
                } else {
                    &&& self.world.orders()[k] == s0.world.orders()[k]
                    &&& self.world.navs()[k] == s0.world.navs()[k]
                },
            decreases n - j,
        {
            proof {
                self.world.lemma_wf_cols();
                self.world.lemma_cols();
            }
            let ghost w1 = self.world;
            let hit = self.world.live_at(j) && match self.world.order_at(j) {
                Order::Build { site: s, .. } => s == site,
                _ => false,
            };
            if hit {
                self.world.set_job(j, Order::Idle, None);
            }
            proof {
                assert forall|k: int| 0 <= k < n implies if k < j + 1 && s0.world.flags()[k] && (s0.world.orders()[k] matches Order::Build { site: s, .. } && s == site) {
                    &&& #[trigger] self.world.orders()[k] == Order::Idle
                    &&& self.world.navs()[k] is None
                } else {
                    &&& self.world.orders()[k] == s0.world.orders()[k]
                    &&& self.world.navs()[k] == s0.world.navs()[k]
                } by {
                    assert(w1.orders()[k] == w1.orders()[k]);
                    if k != j as int {
                        assert(self.world.orders()[k] == w1.orders()[k]);
                        assert(self.world.navs()[k] == w1.navs()[k]);
                    }
                }
            }
            j = j + 1;
        }
    }
}


impl Simulation {
    /// The state of site slot `s` after this tick, as
    /// [`Simulation::constructed`] gives it.
    pub open spec fn site_done(a: Simulation, v: World, s: int) -> bool {
        let w = a.world_of();
        if advances(a, s) {
            let k = kind_info(w.kinds()[s]);
            let d = progress_after(a, s);
            let total = work_total(w.kinds()[s]);
            if d < total {
                &&& v.constructions()[s] == Some(d as u32)
                &&& v.healths()[s] == Fx(from_int_raw(if k.max_health * d / total > 1 { k.max_health * d / total } else { 1 }) as i32)
                &&& v.resources()[s] == w.resources()[s]
            } else {
                &&& v.constructions()[s] is None
                &&& v.healths()[s] == Fx(from_int_raw(k.max_health as int) as i32)
                &&& v.resources()[s] == match k.resource {
                    Some((_, base)) => (base + farm_bonus(a, w.owners()[s])) as i32,
                    None => w.resources()[s],
                }
            }
        } else {
            &&& v.constructions()[s] == w.constructions()[s]
            &&& v.healths()[s] == w.healths()[s]
            &&& v.resources()[s] == w.resources()[s]
        }
    }

    /// One tick of construction: sites gain their builders' work, and
    /// finished ones release their builders.
    #[verifier::rlimit(60)]
    pub fn construction(&mut self)
        requires
            old(self).parts_ok(),
            Simulation::construction_fits(*old(self)),
        ensures
            final(self).parts_ok(),
            Simulation::constructed(*old(self), *final(self)),
    {
        let ghost a = *self;
        let ghost w0 = self.world;
        proof {
            self.world.lemma_wf_cols();
            self.world.lemma_cols();
        }
        let n = self.world.capacity();
        let mut crews: Vec<u32> = Vec::new();
        let mut i: usize = 0;
        while i < n
            invariant
                *self == a,
                w0 == a.world_of(),
                self.parts_ok(),
                n == w0.n(),
                i <= n,
                crews@.len() == i,
                forall|s: int| 0 <= s < i ==> #[trigger] crews@[s] == if advances(a, s) { crew(w0, s) } else { 0 },
            decreases n - i,
        {
            proof {
                self.world.lemma_wf_cols();
            }
            let c = if self.world.live_at(i) && self.world.construction_at(i).is_some() {
                self.crew_at(i)
            } else {
                0
            };
            proof {
                assert(c == if advances(a, i as int) { crew(w0, i as int) } else { 0 });
            }
            crews.push(c);
            proof {
                assert forall|s: int| 0 <= s < i + 1 implies #[trigger] crews@[s] == if advances(a, s) { crew(w0, s) } else { 0 } by {
                    if s < i {
                        assert(crews@[s] == crews@.drop_last()[s]);
                    }
                }
            }
            i = i + 1;
        }
        let mut i: usize = 0;
        while i < n
            invariant
                self.parts_ok(),
                n == w0.n(),
                i <= n,
                w0 == a.world_of(),
                crews@.len() == n,
                forall|s: int| 0 <= s < n ==> #[trigger] crews@[s] == if advances(a, s) { crew(w0, s) } else { 0 },
                Simulation::construction_fits(a),
                Simulation::same_frame(a, *self),
                self.players == a.players,
                self.nav == a.nav,
                edited(w0, self.world, true, false, true, false),
                forall|s: int| 0 <= s < n ==> if s < i {
                    Simulation::site_done(a, self.world, s)
                } else {
                    &&& #[trigger] self.world.constructions()[s] == w0.constructions()[s]
                    &&& self.world.healths()[s] == w0.healths()[s]
                    &&& self.world.resources()[s] == w0.resources()[s]
                },
                forall|j: int| 0 <= j < n ==> if freed_below(a, j, i as int) {
                    &&& #[trigger] self.world.orders()[j] == Order::Idle
                    &&& self.world.navs()[j] is None
                } else {
                    &&& self.world.orders()[j] == w0.orders()[j]
                    &&& self.world.navs()[j] == w0.navs()[j]
                },
            decreases n - i,
        {
            proof {
                self.world.lemma_wf_cols();
                self.world.lemma_cols();
            }
            let ghost w1 = self.world;
            let crew_n = crews[i];
            let live = self.world.live_at(i);
            let cur = self.world.construction_at(i);
            if live && cur.is_some() && crew_n > 0 {
                let kind = self.world.kind_at(i);
                let k = info(kind);
                let owner = self.world.owner_at(i);
                let mods = self.modifiers(owner);
                proof {
                    lemma_kind_small(kind);
                    assert(advances(a, i as int));
                    if (owner as int) < self.players@.len() {
                        assert(player_ok(self.players@[owner as int]));
                    }
                }
                let need = k.build_work();
                let total: u32 = if need > 1 { need } else { 1 };
                let bonus = 100 + mods.build_speed_pct;
                let pace: u32 = if bonus > 1 { bonus as u32 } else { 1 };
                let c0: u32 = match cur {
                    Some(c) => c,
                    None => 0,
                };
                proof {
                    assert(pace as int == pace_of(a, owner));
                    assert(total as int == work_total(kind));
                    assert(c0 + crew_n * pace <= u32::MAX);
                }
                let sum: u32 = c0 + crew_n * pace;
                let done: u32 = if sum < total { sum } else { total };
                proof {
                    assert(done as int == progress_after(a, i as int));
                    assert(0 <= k.max_health * done / (total as int) <= k.max_health) by (nonlinear_arith)
                        requires
                            0 <= k.max_health,
                            done <= total,
                            1 <= total,
                    ;
                    assert(0 <= k.max_health * done <= 100000 * 0xffff_ffffint) by (nonlinear_arith)
                        requires
                            0 <= k.max_health <= 100000,
                            0 <= done <= 0xffff_ffffint,
                    ;
                }
                let id = self.world.id_at(Slot::new(i));
                if done < total {
                    let part: i64 = (k.max_health as i64 * done as i64) / (total as i64);
                    let hp: i32 = if part > 1 { part as i32 } else { 1 };
                    let res = self.world.resource_at(i);
                    self.world.set_site(i, Some(done), Fx::from_int(hp), res);
                } else {
                    let res = match k.resource {
                        Some((_, base)) => mods.farm_yield(base),
                        None => self.world.resource_at(i),
                    };
                    self.world.set_site(i, None, Fx::from_int(k.max_health), res);
                    let ghost w2 = self.world;
                    proof {
                        assert(finishes(a, id));
                    }
                    self.idle_builders(id);
                    proof {
                        assert forall|j: int| 0 <= j < n implies if freed_below(a, j, i + 1) {
                            &&& #[trigger] self.world.orders()[j] == Order::Idle
                            &&& self.world.navs()[j] is None
                        } else {
                            &&& self.world.orders()[j] == w0.orders()[j]
                            &&& self.world.navs()[j] == w0.navs()[j]
                        } by {
                            assert(w1.orders()[j] == w1.orders()[j]);
                            assert(w2.orders()[j] == w1.orders()[j]);
                            if w0.flags()[j] {
                                match w0.orders()[j] {
                                    Order::Build { site: s, .. } => {
                                        EntityId::lemma_id_eq(s, id);
                                    },
                                    _ => {},
                                }
                            }
                        }
                    }
                }
            }
            proof {
                assert forall|s: int| 0 <= s < n implies if s < i + 1 {
                    Simulation::site_done(a, self.world, s)
                } else {
                    &&& #[trigger] self.world.constructions()[s] == w0.constructions()[s]
                    &&& self.world.healths()[s] == w0.healths()[s]
                    &&& self.world.resources()[s] == w0.resources()[s]
                } by {
                    assert(w1.constructions()[s] == w1.constructions()[s]);
                }
            }
            i = i + 1;
        }
    }
}


/// Player `pl` can pay for one more reseed after paying for `n`.
pub open spec fn can_reseed(pl: Player, n: int) -> bool {
    forall|j: int| 0 <= j < 4 ==> pl.stockpile@[j] - n * FARM_RESEED_COST@[j] >= #[trigger] FARM_RESEED_COST@[j]
}

/// The farm in slot `i` of `w` is reseeded, given the players `ps` as they
/// were before any farm this tick: it is a finished farm that has run dry,
/// its owner is a player with auto-reseed on, and that player can still pay
/// after the reseeds of the farms in the slots below.
pub open spec fn reseeded(w: World, ps: Seq<Player>, i: int) -> bool
    decreases i, 1int,
{
    let o = w.owners()[i] as int;
    &&& 0 <= i
    &&& w.flags()[i]
    &&& w.kinds()[i] == FARM
    &&& w.resources()[i] <= 0
    &&& w.constructions()[i] is None
    &&& o < ps.len()
    &&& ps[o].auto_reseed
    &&& can_reseed(ps[o], reseed_count(w, ps, i, o))
}

/// How many farms of player `p` in the slots below `k` are reseeded.
pub open spec fn reseed_count(w: World, ps: Seq<Player>, k: int, p: int) -> int
    decreases k, 0int,
{
    if k <= 0 {
        0
    } else {
        reseed_count(w, ps, k - 1, p) + if reseeded(w, ps, k - 1) && w.owners()[k - 1] as int == p { 1int } else { 0int }
    }
}

/// `b` is player `a` having paid for `n` reseeds, everything else the same.
pub open spec fn paid_reseeds(a: Player, b: Player, n: int) -> bool {
    &&& forall|j: int| 0 <= j < 4 ==> #[trigger] b.stockpile@[j] == a.stockpile@[j] - n * FARM_RESEED_COST@[j]
    &&& b.pop == a.pop
    &&& b.pop_cap == a.pop_cap
    &&& b.gathered == a.gathered
    &&& b.age == a.age
    &&& b.modifiers == a.modifiers
    &&& b.researched == a.researched
    &&& b.auto_reseed == a.auto_reseed
}

impl Simulation {
    /// `b` is `a` after one tick of reseeding: each farm that
    /// [`reseeded`] names is full again with its owner's yield, and each
    /// player has paid for its reseeds.
    pub open spec fn farmed(a: Simulation, b: Simulation) -> bool {
        let w = a.world_of();
        let v = b.world_of();
        let ps = a.players_of();
        &&& Simulation::same_frame(a, b)
        &&& b.nav_of() == a.nav_of()
        &&& edited(w, v, false, false, true, false)
        &&& v.constructions() == w.constructions()
        &&& v.healths() == w.healths()
        &&& forall|i: int| 0 <= i < w.n() ==> #[trigger] v.resources()[i] == if reseeded(w, ps, i) {
            (250 + ps[w.owners()[i] as int].modifiers.farm_yield_bonus) as i32
        } else {
            w.resources()[i]
        }
        &&& b.players_of().len() == ps.len()
        &&& forall|p: int| 0 <= p < ps.len() ==> paid_reseeds(ps[p], #[trigger] b.players_of()[p], reseed_count(w, ps, w.n(), p))
    }

    /// Reseeds every exhausted farm whose owner has auto-reseed on and the
    /// wood to pay for it.
    #[verifier::rlimit(60)]
    pub fn farms(&mut self)
        requires
            old(self).parts_ok(),
        ensures
            final(self).parts_ok(),
            Simulation::farmed(*old(self), *final(self)),
    {
        let ghost a = *self;
        let ghost w0 = self.world;
        let ghost ps = self.players@;
        proof {
            self.world.lemma_wf_cols();
            self.world.lemma_cols();
            assert forall|p: int| 0 <= p < ps.len() implies paid_reseeds(ps[p], #[trigger] self.players@[p], reseed_count(w0, ps, 0, p)) by {
                assert(reseed_count(w0, ps, 0, p) == 0);
            }
        }
        let base: i32 = match info(FARM).resource {
            Some((_, amount)) => amount,
            None => 0,
        };
        let n = self.world.capacity();
        let mut i: usize = 0;
        while i < n
            invariant
                self.parts_ok(),
                w0 == a.world_of(),
                ps == a.players_of(),
                n == w0.n(),
                i <= n,
                base == 250,
                Simulation::same_frame(a, *self),
                self.nav == a.nav,
                edited(w0, self.world, false, false, true, false),
                self.world.constructions() == w0.constructions(),
                self.world.healths() == w0.healths(),
                forall|s: int| 0 <= s < n ==> #[trigger] self.world.resources()[s] == if s < i && reseeded(w0, ps, s) {
                    (250 + ps[w0.owners()[s] as int].modifiers.farm_yield_bonus) as i32
                } else {
                    w0.resources()[s]
                },
                self.players@.len() == ps.len(),
                forall|p: int| 0 <= p < ps.len() ==> paid_reseeds(ps[p], #[trigger] self.players@[p], reseed_count(w0, ps, i as int, p)),
            decreases n - i,
        {
            proof {
                self.world.lemma_wf_cols();
                self.world.lemma_cols();
            }
            let ghost w1 = self.world;
            let ghost q1 = self.players@;
            let live = self.world.live_at(i);
            let mut done = false;
            let ghost mut pb: int = -1;
            if live && self.world.kind_at(i) == FARM && self.world.resource_at(i) <= 0 && self.world.construction_at(i).is_none() {
                let owner = self.world.owner_at(i);
                if (owner as usize) < self.players.len() && self.players[owner as usize].auto_reseed {
                    proof {
                        let m = reseed_count(w0, ps, i as int, owner as int);
                        assert(paid_reseeds(ps[owner as int], self.players@[owner as int], m));
                        assert(affords(self.players@[owner as int].stockpile@, FARM_RESEED_COST@) == can_reseed(ps[owner as int], m));
                    }
                    let paid = self.charge(owner as usize, &FARM_RESEED_COST);
                    if paid {
                        let mods = self.players[owner as usize].modifiers;
                        proof {
                            assert(player_ok(self.players@[owner as int]));
                        }
                        proof {
                            pb = owner as int;
                        }
                        let y = mods.farm_yield(base);
                        let c = self.world.construction_at(i);
                        let h = self.world.health_at(i);
                        self.world.set_site(i, c, h, y);
                        done = true;
                    }
                }
            }
            proof {
                assert(done == reseeded(w0, ps, i as int));
                assert forall|p: int| 0 <= p < ps.len() implies paid_reseeds(ps[p], #[trigger] self.players@[p], reseed_count(w0, ps, i + 1, p)) by {
                    let m = reseed_count(w0, ps, i as int, p);
                    assert(paid_reseeds(ps[p], q1[p], m));
                    assert(reseed_count(w0, ps, i + 1, p) == m + if reseeded(w0, ps, i as int) && w0.owners()[i as int] as int == p { 1int } else { 0int });
                    if pb == p {
                        assert(done && w0.owners()[i as int] as int == p);
                        assert(charged(q1[p], self.players@[p], FARM_RESEED_COST@, 1));
                        assert forall|j: int| 0 <= j < 4 implies #[trigger] self.players@[p].stockpile@[j] == ps[p].stockpile@[j] - (m + 1) * FARM_RESEED_COST@[j] by {
                            assert(self.players@[p].stockpile@[j] == q1[p].stockpile@[j] - FARM_RESEED_COST@[j]);
                            let c = FARM_RESEED_COST@[j] as int;
                            assert((m + 1) * c == m * c + c) by (nonlinear_arith);
                        }
                    } else {
                        assert(self.players@[p] == q1[p]);
                        assert(!(done && w0.owners()[i as int] as int == p));
                    }
                }
                assert forall|s: int| 0 <= s < n implies #[trigger] self.world.resources()[s] == if s < i + 1 && reseeded(w0, ps, s) {
                    (250 + ps[w0.owners()[s] as int].modifiers.farm_yield_bonus) as i32
                } else {
                    w0.resources()[s]
                } by {
                    assert(w1.resources()[s] == w1.resources()[s]);
                }
                assert(self.world.constructions() =~= w0.constructions());
                assert(self.world.healths() =~= w0.healths());
            }
            i = i + 1;
        }
    }
}


/// `y` is trip `x` sent back to planning: no waypoints left, everything
/// else kept.
pub open spec fn back_to_planning(x: Nav, y: Nav) -> bool {
    &&& y.waypoints@.len() == 0
    &&& y.state == NavState::Planning
    &&& y.goal == x.goal
    &&& y.best == x.best
    &&& y.stalled == x.stalled
    &&& y.replans == x.replans
    &&& y.arrive == x.arrive
    &&& y.field == x.field
    &&& y.best_goal == x.best_goal
    &&& y.anchor == x.anchor
    &&& y.no_progress == x.no_progress
    &&& y.pace == x.pace
}

/// `m` is trip `n` after its unit was pushed off a blocked tile: a walking
/// trip plans again, any other stays as it was.
pub open spec fn replanned(n: Option<Nav>, m: Option<Nav>) -> bool {
    match n {
        Some(x) => if x.state == NavState::Walking {
            m matches Some(y) && back_to_planning(x, y)
        } else {
            m == n
        },
        None => m == n,
    }
}

/// Where a mobile unit at `p` ends up, with its trip going from `n` to `m`:
/// moved onto the map; off a blocked tile to the centre of the nearest open
/// one within six tiles (planning again if it was walking); left where it
/// was when there is none.
pub open spec fn kept_at(a: Simulation, p: Vec2Fx, n: Option<Nav>, q: Vec2Fx, m: Option<Nav>) -> bool {
    let g = a.nav_of();
    let c = clamped_pos(p, a.map_of().w() as int, a.map_of().h() as int);
    let t = tile_spec(c);
    if g.open_at(t.0 as int, t.1 as int) {
        q == c && m == n
    } else if exists|f: Tile| #[trigger] g.nearest_pick(t.0 as int, t.1 as int, 6, None, f) {
        exists|f: Tile| #[trigger] g.nearest_pick(t.0 as int, t.1 as int, 6, None, f) && q == centre_spec(f) && replanned(n, m)
    } else {
        q == p && m == n
    }
}

/// The slots of `a`'s store below `k` are as [`Simulation::kept_off`]
/// leaves them in `v`, the others as they were.
pub open spec fn kept_below(a: Simulation, v: World, k: int) -> bool {
    let w = a.world_of();
    forall|j: int| #![trigger v.positions()[j]] 0 <= j < w.n() ==> if j < k && w.flags()[j] && kind_info(w.kinds()[j]).mobile {
        kept_at(a, w.positions()[j], w.navs()[j], v.positions()[j], v.navs()[j])
    } else {
        v.positions()[j] == w.positions()[j] && v.navs()[j] == w.navs()[j]
    }
}

impl Simulation {
    /// `b` is `a` after every live mobile unit was kept off blocked tiles,
    /// as [`kept_at`] says; nothing else moved.
    pub open spec fn kept_off(a: Simulation, b: Simulation) -> bool {
        let w = a.world_of();
        let v = b.world_of();
        &&& Simulation::same_frame(a, b)
        &&& b.players_of() == a.players_of()
        &&& b.nav_of() == a.nav_of()
        &&& relocated(w, v)
        &&& forall|j: int| #![trigger v.positions()[j]] 0 <= j < w.n() ==> if w.flags()[j] && kind_info(w.kinds()[j]).mobile {
            kept_at(a, w.positions()[j], w.navs()[j], v.positions()[j], v.navs()[j])
        } else {
            v.positions()[j] == w.positions()[j] && v.navs()[j] == w.navs()[j]
        }
    }

    /// Anything standing where it cannot stand steps to the nearest open
    /// tile.
    #[verifier::spinoff_prover]
    #[verifier::rlimit(80)]
    pub fn keep_off_blocked(&mut self)
        requires
            old(self).parts_ok(),
        ensures
            final(self).parts_ok(),
            Simulation::kept_off(*old(self), *final(self)),
    {
        let ghost a = *self;
        let ghost w0 = self.world;
        proof {
            self.world.lemma_wf_cols();
            self.world.lemma_cols();
        }
        let n = self.world.capacity();
        let mut i: usize = 0;
        while i < n
            invariant
                self.parts_ok(),
                w0 == a.world_of(),
                n == w0.n(),
                i <= n,
                Simulation::same_frame(a, *self),
                self.players == a.players,
                self.nav == a.nav,
                self.map == a.map,
                relocated(w0, self.world),
                kept_below(a, self.world, i as int),
            decreases n - i,
        {
            proof {
                self.world.lemma_wf_cols();
                self.world.lemma_cols();
            }
            let ghost w1 = self.world;
            if self.world.live_at(i) && info(self.world.kind_at(i)).mobile {
                let p0 = self.world.pos_at(i);
                let pos = self.clamp_to_map(p0);
                proof {
                    assert(pos == clamped_pos(p0, a.map_of().w() as int, a.map_of().h() as int));
                }
                let t = tile_of(pos);
                proof {
                    assert(p0 == w0.positions()[i as int]);
                    assert(w1.navs()[i as int] == w0.navs()[i as int]);
                }
                if self.nav.passable(t.0, t.1) {
                    self.world.set_pos(i, pos);
                    proof {
                        assert(kept_at(a, w0.positions()[i as int], w0.navs()[i as int], self.world.positions()[i as int], self.world.navs()[i as int]));
                    }
                } else {
                    match self.nav.nearest_passable(t.0, t.1, 6, None) {
                        Some(free) => {
                            let nv: Option<Nav> = match self.world.nav_at(i) {
                                Some(x) => if x.state == NavState::Walking {
                                    let mut y = x.clone();
                                    y.waypoints = Vec::new();
                                    y.state = NavState::Planning;
                                    Some(y)
                                } else {
                                    None
                                },
                                None => None,
                            };
                            let c = centre(free);
                            proof {
                                let tt = tile_spec(pos);
                                assert(self.nav.nearest_pick(tt.0 as int, tt.1 as int, 6, None, free));
                            }
                            match nv {
                                Some(y) => {
                                    self.world.set_place(i, c, Some(y));
                                },
                                None => {
                                    self.world.set_pos(i, c);
                                },
                            }
                            proof {
                                assert(replanned(w0.navs()[i as int], self.world.navs()[i as int]));
                                assert(kept_at(a, w0.positions()[i as int], w0.navs()[i as int], self.world.positions()[i as int], self.world.navs()[i as int]));
                            }
                        },
                        None => {
                            proof {
                                let tt = tile_spec(pos);
                                if exists|f: Tile| #[trigger] self.nav.nearest_pick(tt.0 as int, tt.1 as int, 6, None, f) {
                                    let f = choose|f: Tile| #[trigger] self.nav.nearest_pick(tt.0 as int, tt.1 as int, 6, None, f);
                                    assert(self.nav.fits(self.nav.wanted(None), f.0 as int, f.1 as int));
                                }
                                assert(kept_at(a, w0.positions()[i as int], w0.navs()[i as int], self.world.positions()[i as int], self.world.navs()[i as int]));
                            }
                        },
                    }
                }
            }
            proof {
                assert forall|j: int| #![trigger self.world.positions()[j]] 0 <= j < w0.n() implies if j < i + 1 && w0.flags()[j] && kind_info(w0.kinds()[j]).mobile {
                    kept_at(a, w0.positions()[j], w0.navs()[j], self.world.positions()[j], self.world.navs()[j])
                } else {
                    self.world.positions()[j] == w0.positions()[j] && self.world.navs()[j] == w0.navs()[j]
                } by {
                    assert(w1.positions()[j] == w1.positions()[j]);
                    assert(w1.navs()[j] == w1.navs()[j]);
                    if j != i as int {
                        assert(self.world.positions()[j] == w1.positions()[j]);
                        assert(self.world.navs()[j] == w1.navs()[j]);
                    }
                }
                assert(kept_below(a, self.world, i + 1));
            }
            i = i + 1;
        }
        proof {
            let v = self.world_of();
            let w = a.world_of();
            assert forall|j: int| #![trigger v.positions()[j]] 0 <= j < w.n() implies if w.flags()[j] && kind_info(w.kinds()[j]).mobile {
                kept_at(a, w.positions()[j], w.navs()[j], v.positions()[j], v.navs()[j])
            } else {
                v.positions()[j] == w.positions()[j] && v.navs()[j] == w.navs()[j]
            } by {
                assert(self.world.positions()[j] == self.world.positions()[j]);
                assert(j < n);
            }
            assert(Simulation::kept_off(a, *self));
        }
    }
}


/// The centre of a tile on a grid of at most 256 by 256 lies on that tile.
pub proof fn lemma_centre_on_tile(f: Tile)
    requires
        0 <= f.0 < 256,
        0 <= f.1 < 256,
    ensures
        tile_spec(centre_spec(f)) == f,
{
    assert(from_int_raw(f.0 as int) == f.0 * 65536);
    assert(from_int_raw(f.1 as int) == f.1 * 65536);
    assert((f.0 * 65536 + 32768) / 65536 == f.0 as int);
    assert((f.1 * 65536 + 32768) / 65536 == f.1 as int);
}

/// After units are kept off blocked tiles, every live mobile unit stands
/// on an open tile, unless no open tile lay within six tiles of where it
/// stood, in which case it has not moved.
pub proof fn lemma_kept_off_stands_open(a: Simulation, b: Simulation, j: int)
    requires
        a.parts_ok(),
        Simulation::kept_off(a, b),
        0 <= j < a.world_of().n(),
        a.world_of().flags()[j],
        kind_info(a.world_of().kinds()[j]).mobile,
    ensures
        a.nav_of().tile_open(tile_spec(b.world_of().positions()[j]))
            || b.world_of().positions()[j] == a.world_of().positions()[j],
{
    let w = a.world_of();
    let v = b.world_of();
    let g = a.nav_of();
    assert(v.positions()[j] == v.positions()[j]);
    let c = clamped_pos(w.positions()[j], a.map_of().w() as int, a.map_of().h() as int);
    let t = tile_spec(c);
    if !g.open_at(t.0 as int, t.1 as int) && exists|f: Tile| #[trigger] g.nearest_pick(t.0 as int, t.1 as int, 6, None, f) {
        let f = choose|f: Tile| #[trigger] g.nearest_pick(t.0 as int, t.1 as int, 6, None, f) && v.positions()[j] == centre_spec(f) && replanned(w.navs()[j], v.navs()[j]);
        assert(g.fits(g.wanted(None), f.0 as int, f.1 as int));
        lemma_centre_on_tile(f);
    }
}

/// The slot `j` holds a wild animal with nowhere to walk to.
pub open spec fn idle_animal(w: World, j: int) -> bool {
    &&& w.flags()[j]
    &&& w.owners()[j] == GAIA
    &&& kind_info(w.kinds()[j]).mobile
    &&& w.move_targets()[j] is None
}

/// The generator's words once the animals in the slots below `k` have
/// rolled: each idle animal rolls a one-in-two-hundred chance, and one that
/// wins rolls two steps in `-3..4`.
pub open spec fn wander_words(a: Simulation, k: int) -> Seq<u64>
    decreases k,
{
    if k <= 0 {
        a.rng_of().words()
    } else {
        let s = wander_words(a, k - 1);
        if idle_animal(a.world_of(), k - 1) {
            if below_spec(s, 200) < 1 { xoshiro_next(xoshiro_next(xoshiro_next(s))) } else { xoshiro_next(s) }
        } else {
            s
        }
    }
}

/// The draws the animals in the slots below `k` make.
pub open spec fn wander_draws(a: Simulation, k: int) -> int
    decreases k,
{
    if k <= 0 {
        0
    } else {
        wander_draws(a, k - 1) + if idle_animal(a.world_of(), k - 1) {
            if below_spec(wander_words(a, k - 1), 200) < 1 { 3int } else { 1int }
        } else {
            0int
        }
    }
}

/// Where the animal in slot `j` sets off to, if anywhere: a spot on the
/// map up to three tiles away in each direction, kept only when its tile is
/// open.
pub open spec fn wander_goal(a: Simulation, j: int) -> Option<Vec2Fx> {
    let w = a.world_of();
    let s = wander_words(a, j);
    if idle_animal(w, j) && below_spec(s, 200) < 1 {
        let s1 = xoshiro_next(s);
        let dx = -3 + below_spec(s1, 7) as int;
        let dy = -3 + below_spec(xoshiro_next(s1), 7) as int;
        let step = Vec2Fx { x: Fx(from_int_raw(dx) as i32), y: Fx(from_int_raw(dy) as i32) };
        let t = clamped_pos(vadd(w.positions()[j], step), a.map_of().w() as int, a.map_of().h() as int);
        let tile = tile_spec(t);
        if a.nav_of().open_at(tile.0 as int, tile.1 as int) { Some(t) } else { None }
    } else {
        None
    }
}

proof fn lemma_wander_draws(a: Simulation, k: int)
    requires
        0 <= k,
    ensures
        0 <= wander_draws(a, k) <= 3 * k,
    decreases k,
{
    if k > 0 {
        lemma_wander_draws(a, k - 1);
    }
}

impl Simulation {
    /// `b` is `a` after the wild animals' tick: with wandering on, each idle
    /// animal that [`wander_goal`] sends somewhere walks there, and the
    /// generator has made the draws [`wander_draws`] counts; with it off,
    /// nothing changes.
    pub open spec fn wandered(a: Simulation, b: Simulation) -> bool {
        let w = a.world_of();
        let v = b.world_of();
        &&& b.seed_of() == a.seed_of()
        &&& b.tick_of() == a.tick_of()
        &&& b.config_of() == a.config_of()
        &&& b.map_of() == a.map_of()
        &&& b.map_hash_of() == a.map_hash_of()
        &&& b.starts_of() == a.starts_of()
        &&& b.queue_of() == a.queue_of()
        &&& b.log_of() == a.log_of()
        &&& b.stats_of() == a.stats_of()
        &&& b.players_of() == a.players_of()
        &&& b.nav_of() == a.nav_of()
        &&& retargeted(w, v)
        &&& if a.config_of().wander {
            &&& b.rng_of().words() == wander_words(a, w.n())
            &&& b.rng_of().count() == a.rng_of().count() + wander_draws(a, w.n())
            &&& forall|j: int| 0 <= j < w.n() ==> #[trigger] v.move_targets()[j] == match wander_goal(a, j) {
                Some(t) => Some(t),
                None => w.move_targets()[j],
            }
        } else {
            b == a
        }
    }

    /// Wild animals pick random nearby destinations.
    #[verifier::rlimit(60)]
    pub fn wander(&mut self)
        requires
            old(self).parts_ok(),
            old(self).rng_of().room(3 * old(self).world_of().n()),
        ensures
            final(self).parts_ok(),
            Simulation::wandered(*old(self), *final(self)),
    {
        if !self.config.wander {
            return;
        }
        let ghost a = *self;
        let ghost w0 = self.world;
        proof {
            self.world.lemma_wf_cols();
            self.world.lemma_cols();
        }
        let n = self.world.capacity();
        let mut i: usize = 0;
        while i < n
            invariant
                self.parts_ok(),
                w0 == a.world_of(),
                a.rng_of().room(3 * w0.n()),
                n == w0.n(),
                i <= n,
                self.seed == a.seed,
                self.tick == a.tick,
                self.config == a.config,
                self.map == a.map,
                self.map_hash == a.map_hash,
                self.starts == a.starts,
                self.queue == a.queue,
                self.log == a.log,
                self.stats == a.stats,
                self.players == a.players,
                self.nav == a.nav,
                retargeted(w0, self.world),
                self.rng.words() == wander_words(a, i as int),
                self.rng.count() == a.rng_of().count() + wander_draws(a, i as int),
                forall|j: int| 0 <= j < n ==> #[trigger] self.world.move_targets()[j] == if j < i {
                    match wander_goal(a, j) {
                        Some(t) => Some(t),
                        None => w0.move_targets()[j],
                    }
                } else {
                    w0.move_targets()[j]
                },
            decreases n - i,
        {
            proof {
                self.world.lemma_wf_cols();
                self.world.lemma_cols();
                lemma_wander_draws(a, i as int);
            }
            let ghost w1 = self.world;
            let ghost s = self.rng.words();
            if self.world.live_at(i) && self.world.owner_at(i) == GAIA && info(self.world.kind_at(i)).mobile
                && self.world.move_target_at(i).is_none() {
                proof {
                    assert(idle_animal(w0, i as int));
                }
                if self.rng.chance(1, 200) {
                    let dx = self.rng.range_i32(-3, 4);
                    let dy = self.rng.range_i32(-3, 4);
                    let target = self.clamp_to_map(self.world.pos_at(i) + Vec2Fx::from_int(dx, dy));
                    let t = tile_of(target);
                    if self.nav.passable(t.0, t.1) {
                        self.world.set_target(i, Some(target));
                    }
                    proof {
                        assert(wander_goal(a, i as int) == if self.nav.open_at(t.0 as int, t.1 as int) { Some(target) } else { None::<Vec2Fx> });
                    }
                }
            } else {
                proof {
                    assert(!idle_animal(w0, i as int));
                }
            }
            proof {
                assert forall|j: int| 0 <= j < n implies #[trigger] self.world.move_targets()[j] == if j < i + 1 {
                    match wander_goal(a, j) {
                        Some(t) => Some(t),
                        None => w0.move_targets()[j],
                    }
                } else {
                    w0.move_targets()[j]
                } by {
                    assert(w1.move_targets()[j] == w1.move_targets()[j]);
                }
            }
            i = i + 1;
        }
    }
}


/// Every entry of `back` added to the matching entry of `stock` stays in
/// range.
fn adds_fit(stock: &[i32; 4], back: &[i32; 4]) -> (r: bool)
    ensures
        r == forall|j: int| 0 <= j < 4 ==> i32::MIN <= stock@[j] + #[trigger] back@[j] <= i32::MAX,
{
    let mut j: usize = 0;
    while j < 4
        invariant
            j <= 4,
            forall|k: int| 0 <= k < j ==> i32::MIN <= stock@[k] + #[trigger] back@[k] <= i32::MAX,
        decreases 4 - j,
    {
        let v: i64 = stock[j] as i64 + back[j] as i64;
        if v < i32::MIN as i64 || v > i32::MAX as i64 {
            return false;
        }
        j = j + 1;
    }
    true
}

/// A scheduled command ran, or its run would pass a machine limit and it
/// was passed over.
pub open spec fn ran_or_passed(a: Simulation, c: Command, b: Simulation) -> bool {
    if Simulation::apply_ok(a, c) {
        Simulation::applied(a, c, b)
    } else {
        b == a
    }
}

impl Simulation {
    /// Whether running `c` now stays within the machine's limits: a free
    /// slot for what it adds, stockpiles in range after what it gives back,
    /// and a player that exists where it charges or refunds one.
    fn apply_fits(&self, c: &Command) -> (r: bool)
        requires
            self.parts_ok(),
        ensures
            r == Simulation::apply_ok(*self, *c),
    {
        proof {
            self.world.lemma_wf_cols();
            self.world.lemma_cols();
        }
        let p = c.player;
        match &c.kind {
            CommandKind::Spawn { .. } => self.world.capacity() < MAX_SLOTS,
            CommandKind::Build { .. } => self.world.capacity() < MAX_SLOTS,
            CommandKind::Despawn { id } => {
                let i = match self.owned_slot(*id, p) {
                    Some(i) => i,
                    None => {
                        return true;
                    },
                };
                let kind = self.world.kind_at(i);
                let k = info(kind);
                proof {
                    lemma_kind_small(kind);
                }
                let cons = self.world.construction_at(i);
                let owner = self.world.owner_at(i);
                if cons.is_some() && (owner as usize) < self.players.len() {
                    let need = k.build_work();
                    let done: u32 = match cons {
                        Some(d) => if d < need { d } else { need },
                        None => 0,
                    };
                    let total: u32 = if need > 1 { need } else { 1 };
                    let back: [i32; 4] = [
                        Self::share_left_of(k.cost[0], done, total),
                        Self::share_left_of(k.cost[1], done, total),
                        Self::share_left_of(k.cost[2], done, total),
                        Self::share_left_of(k.cost[3], done, total),
                    ];
                    proof {
                        assert(back@ =~= site_refund(kind, cons));
                    }
                    let fits = adds_fit(&self.players[owner as usize].stockpile, &back);
                    proof {
                        if fits {
                            assert forall|j: int| 0 <= j < 4 implies self.players_of()[owner as int].stockpile@[j] + #[trigger] site_refund(kind, cons)[j] <= i32::MAX by {
                                assert(back@[j] == site_refund(kind, cons)[j]);
                            }
                        } else {
                            let j = choose|j: int| 0 <= j < 4 && !(i32::MIN <= self.players@[owner as int].stockpile@[j] + #[trigger] back@[j] <= i32::MAX);
                            assert(back@[j] == site_refund(kind, cons)[j]);
                            assert(0 <= back@[j]);
                        }
                    }
                    fits
                } else {
                    true
                }
            },
            CommandKind::Train { .. } => (p as usize) < self.players.len(),
            CommandKind::CancelTrain { building } => {
                if (p as usize) >= self.players.len() {
                    return false;
                }
                let i = match self.owned_slot(*building, p) {
                    Some(i) => i,
                    None => {
                        return true;
                    },
                };
                let (mut q, _r) = self.production_copy(i);
                if q.len() == 0 {
                    return true;
                }
                let item = q.pop().unwrap();
                let cost: [i32; 4] = match item.item {
                    Item::Unit(k) => info(k).cost,
                    Item::Tech(t) => match tech_info(t) {
                        Some(ti) => ti.cost,
                        None => [0, 0, 0, 0],
                    },
                };
                proof {
                    assert(item == prod_queue(self.world.productions()[i as int]).last());
                    assert(cost == item_cost(item));
                }
                adds_fit(&self.players[p as usize].stockpile, &cost)
            },
            _ => true,
        }
    }

    /// `b` is `a` with the first `k` batches of its queue taken out.
    pub open spec fn drained(a: Simulation, b: Simulation, k: int) -> bool {
        &&& b.seed_of() == a.seed_of()
        &&& b.tick_of() == a.tick_of()
        &&& b.config_of() == a.config_of()
        &&& b.rng_of() == a.rng_of()
        &&& b.map_of() == a.map_of()
        &&& b.map_hash_of() == a.map_hash_of()
        &&& b.starts_of() == a.starts_of()
        &&& b.log_of() == a.log_of()
        &&& b.stats_of() == a.stats_of()
        &&& b.players_of() == a.players_of()
        &&& b.world_of() == a.world_of()
        &&& b.nav_of() == a.nav_of()
        &&& b.queue_of().batches() == a.queue_of().batches().skip(k)
        &&& b.queue_of().seqs() == a.queue_of().seqs()
    }

    /// `b` is `a` after the commands of its first `k` queued batches, all
    /// due now, ran one after another through the states `ss`.
    pub open spec fn ran_due(a: Simulation, k: int, ss: Seq<Simulation>, b: Simulation) -> bool {
        let cmds = crate::command::commands_of(a.queue_of().batches().take(k));
        &&& crate::command::due_prefix(a.queue_of().batches(), a.tick_of(), k)
        &&& ss.len() == cmds.len() + 1
        &&& Simulation::drained(a, ss[0], k)
        &&& ss.last() == b
        &&& forall|m: int| 0 <= m < cmds.len() ==> #[trigger] ran_or_passed(ss[m], cmds[m], ss[m + 1])
    }

    /// Runs every command due by now, in order; one whose run would pass a
    /// machine limit is passed over.
    pub fn apply_commands(&mut self)
        requires
            old(self).parts_ok(),
        ensures
            final(self).parts_ok(),
            exists|k: int, ss: Seq<Simulation>| #[trigger] Simulation::ran_due(*old(self), k, ss, *final(self)),
    {
        let tick = self.tick;
        let ghost a = *self;
        let mut cmds = self.queue.drain_due(tick);
        let ghost k = choose|k: int| {
            &&& crate::command::due_prefix(a.queue_of().batches(), tick, k)
            &&& cmds@ == crate::command::commands_of(a.queue_of().batches().take(k))
            &&& self.queue.batches() == a.queue_of().batches().skip(k)
        };
        let ghost all = cmds@;
        let ghost mut ss: Seq<Simulation> = seq![*self];
        proof {
            assert(Simulation::drained(a, ss[0], k));
        }
        let mut m: usize = 0;
        let len = cmds.len();
        while m < len
            invariant
                self.parts_ok(),
                len == all.len(),
                m <= len,
                cmds@ == all.skip(m as int),
                ss.len() == m + 1,
                Simulation::drained(a, ss[0], k),
                ss.last() == *self,
                forall|t: int| 0 <= t < m ==> #[trigger] ran_or_passed(ss[t], all[t], ss[t + 1]),
            decreases len - m,
        {
            let ghost before = *self;
            let c = cmds.remove(0);
            proof {
                assert(c == all[m as int]);
                assert(cmds@ =~= all.skip(m + 1));
            }
            if self.apply_fits(&c) {
                self.apply(c);
            }
            proof {
                ss = ss.push(*self);
                assert(ran_or_passed(ss[m as int], all[m as int], ss[m + 1]));
            }
            m = m + 1;
        }
        proof {
            assert(ss.last() == *self);
            assert(Simulation::ran_due(a, k, ss, *self));
        }
    }
}

} // verus!
