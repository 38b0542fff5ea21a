//! What a unit is doing, as an explicit state machine, and the per-player
//! state the economy needs.

use vstd::prelude::*;
use crate::entity::{EntityId, id_bytes};
use crate::flow::FieldKey;
use crate::fx::{Fx, sat, round_div, from_int_raw};
use crate::hash::{
    HashState, StateHasher, fnv, le16, le32, le64, le_i32, bits32, bool_byte, seq_bytes, lemma_fnv_append,
};
use crate::kinds::{Resource, resource_index, base_gather_raw, CARRY_CAPACITY, VILLAGER};
use crate::tech::{Age, age_rank};
use crate::vec2::Vec2Fx;

verus! {

/// How a unit answers enemies it has not been ordered at.
#[derive(Clone, Copy, PartialEq, Eq, Structural, Debug, Default)]
pub enum Stance {
    /// Pursues enemies it can see, then returns to where it stood.
    Aggressive,
    /// Attacks enemies it can see, does not chase far. Soldiers' default.
    #[default]
    Defensive,
    /// Attacks in range, never moves.
    StandGround,
    /// Never attacks; runs for the Town Center when hit. Villagers' default.
    Passive,
}

/// A stance's code, 0 to 3.
pub open spec fn stance_code(s: Stance) -> u8 {
    match s {
        Stance::Aggressive => 0,
        Stance::Defensive => 1,
        Stance::StandGround => 2,
        Stance::Passive => 3,
    }
}

impl Stance {
    /// Every stance, in panel order.
    #[allow(non_snake_case)]
    pub fn ALL() -> (r: [Stance; 4])
        ensures
            forall|i: int| 0 <= i < 4 ==> stance_code(#[trigger] r@[i]) == i,
    {
        [Stance::Aggressive, Stance::Defensive, Stance::StandGround, Stance::Passive]
    }

    /// The stance a fresh unit of `kind` takes: villagers are passive,
    /// everything else defensive.
    pub fn default_for(kind: u16) -> (r: Stance)
        ensures
            r == if kind == VILLAGER { Stance::Passive } else { Stance::Defensive },
    {
        if kind == VILLAGER {
            Stance::Passive
        } else {
            Stance::Defensive
        }
    }

    /// The code of this stance.
    pub fn code(self) -> (r: u8)
        ensures
            r == stance_code(self),
    {
        match self {
            Stance::Aggressive => 0,
            Stance::Defensive => 1,
            Stance::StandGround => 2,
            Stance::Passive => 3,
        }
    }

    /// Display name.
    pub fn name(self) -> (r: &'static str)
        ensures
            r@ == match self {
                Stance::Aggressive => "Aggressive"@,
                Stance::Defensive => "Defensive"@,
                Stance::StandGround => "Stand ground"@,
                Stance::Passive => "Passive"@,
            },
    {
        match self {
            Stance::Aggressive => "Aggressive",
            Stance::Defensive => "Defensive",
            Stance::StandGround => "Stand ground",
            Stance::Passive => "Passive",
        }
    }
}

/// The shape a group takes when ordered somewhere together.
#[derive(Clone, Copy, PartialEq, Eq, Structural, Debug, Default)]
pub enum Formation {
    /// No shape: spread over the nearest open tiles. Villagers' default.
    #[default]
    Spread,
    /// Ranks abreast, facing the way they walk. Soldiers' default.
    Line,
    /// As square as the count allows.
    Box,
    /// Alternate ranks offset by half a step, with room between.
    Staggered,
    /// Two wings with a gap between.
    Flank,
}

/// A formation's code, 0 to 4.
pub open spec fn formation_code(f: Formation) -> u8 {
    match f {
        Formation::Spread => 0,
        Formation::Line => 1,
        Formation::Box => 2,
        Formation::Staggered => 3,
        Formation::Flank => 4,
    }
}

impl Formation {
    /// Every formation, in the order the panel cycles them.
    #[allow(non_snake_case)]
    pub fn ALL() -> (r: [Formation; 5])
        ensures
            forall|i: int| 0 <= i < 5 ==> formation_code(#[trigger] r@[i]) == i,
    {
        [Formation::Spread, Formation::Line, Formation::Box, Formation::Staggered, Formation::Flank]
    }

    /// The formation a fresh unit of `kind` takes.
    pub fn default_for(kind: u16) -> (r: Formation)
        ensures
            r == if kind == VILLAGER { Formation::Spread } else { Formation::Line },
    {
        if kind == VILLAGER {
            Formation::Spread
        } else {
            Formation::Line
        }
    }

    /// The code of this formation.
    pub fn code(self) -> (r: u8)
        ensures
            r == formation_code(self),
    {
        match self {
            Formation::Spread => 0,
            Formation::Line => 1,
            Formation::Box => 2,
            Formation::Staggered => 3,
            Formation::Flank => 4,
        }
    }

    /// The next one round: the code plus one, wrapping after the last.
    pub fn next(self) -> (r: Formation)
        ensures
            formation_code(r) == (formation_code(self) + 1) % 5,
    {
        match self {
            Formation::Spread => Formation::Line,
            Formation::Line => Formation::Box,
            Formation::Box => Formation::Staggered,
            Formation::Staggered => Formation::Flank,
            Formation::Flank => Formation::Spread,
        }
    }

    /// Display name.
    pub fn name(self) -> (r: &'static str)
        ensures
            r@ == match self {
                Formation::Spread => "No formation"@,
                Formation::Line => "Line"@,
                Formation::Box => "Box"@,
                Formation::Staggered => "Staggered"@,
                Formation::Flank => "Flank"@,
            },
    {
        match self {
            Formation::Spread => "No formation",
            Formation::Line => "Line",
            Formation::Box => "Box",
            Formation::Staggered => "Staggered",
            Formation::Flank => "Flank",
        }
    }
}

/// What a unit goes back to once the fight it picked is over.
#[derive(Clone, Copy, PartialEq, Eq, Structural, Debug)]
pub enum Then {
    /// Stand where the fight ended.
    Idle,
    /// Walk back to where it stood before engaging.
    Return(Vec2Fx),
    /// Carry on advancing to a point, engaging on the way.
    AttackMove(Vec2Fx),
    /// Carry on patrolling between two points.
    Patrol(Vec2Fx, Vec2Fx, u8),
}

/// Stages of the gather cycle.
#[derive(Clone, Copy, PartialEq, Eq, Structural, Debug)]
pub enum GatherPhase {
    /// Walking to the node.
    ToNode,
    /// At the node, extracting.
    Working,
    /// Walking a load to a drop-off.
    ToDropoff {
        /// The building to deliver to.
        dropoff: EntityId,
    },
}

/// A unit's current job.
#[derive(Clone, Copy, PartialEq, Eq, Debug, Default)]
pub enum Order {
    /// Nothing. Villagers idle here are what the idle counter counts.
    #[default]
    Idle,
    /// Walk to a point and stop.
    Move {
        /// Destination.
        target: Vec2Fx,
    },
    /// Close with an enemy and hit it until one of them is dead.
    Attack {
        /// The enemy.
        target: EntityId,
        /// What to do once it is dead or out of reach.
        then: Then,
        /// How far from an origin a stance lets the chase go; `None` for an
        /// ordered attack, which chases anywhere.
        leash: Option<(Vec2Fx, Fx)>,
    },
    /// Advance to a point, engaging anything seen on the way.
    AttackMove {
        /// Destination.
        target: Vec2Fx,
    },
    /// Walk between two points, engaging.
    Patrol {
        /// Where the patrol was ordered from.
        from: Vec2Fx,
        /// The far end.
        to: Vec2Fx,
        /// 0 heading `to`, 1 heading `from`.
        leg: u8,
    },
    /// Running from an attacker toward safety.
    Flee {
        /// Where safety is.
        target: Vec2Fx,
    },
    /// Gather from a node, carrying loads home until it is gone.
    Gather {
        /// The tree, bush or vein.
        node: EntityId,
        /// What it yields; remembered so a replacement can be found.
        resource: Resource,
        /// Where in the cycle.
        phase: GatherPhase,
    },
    /// Construct a building.
    Build {
        /// The site.
        site: EntityId,
        /// Standing next to it and working.
        working: bool,
    },
}

/// The bytes of a point.
pub open spec fn point_bytes(p: Vec2Fx) -> Seq<u8> {
    le_i32(p.x.0) + le_i32(p.y.0)
}

/// The bytes of a gather phase.
pub open spec fn phase_bytes(p: GatherPhase) -> Seq<u8> {
    match p {
        GatherPhase::ToNode => seq![0u8],
        GatherPhase::Working => seq![1u8],
        GatherPhase::ToDropoff { dropoff } => seq![2u8] + id_bytes(dropoff),
    }
}

/// The bytes of a fight's sequel.
pub open spec fn then_bytes(t: Then) -> Seq<u8> {
    match t {
        Then::Idle => seq![0u8],
        Then::Return(p) => seq![1u8] + point_bytes(p),
        Then::AttackMove(p) => seq![2u8] + point_bytes(p),
        Then::Patrol(a, b, leg) => seq![3u8] + point_bytes(a) + point_bytes(b) + seq![leg],
    }
}

/// The bytes of a chase limit.
pub open spec fn leash_bytes(l: Option<(Vec2Fx, Fx)>) -> Seq<u8> {
    match l {
        None => seq![0u8],
        Some((origin, radius)) => seq![1u8] + point_bytes(origin) + le_i32(radius.0),
    }
}

/// The bytes of an order: a variant tag, then its payload.
pub open spec fn order_bytes(o: Order) -> Seq<u8> {
    match o {
        Order::Idle => seq![0u8],
        Order::Move { target } => seq![1u8] + point_bytes(target),
        Order::Gather { node, resource, phase } => seq![2u8] + id_bytes(node) + seq![
            resource_index(resource) as u8,
        ] + phase_bytes(phase),
        Order::Build { site, working } => seq![3u8] + id_bytes(site) + bool_byte(working),
        Order::Attack { target, then, leash } => seq![4u8] + id_bytes(target) + then_bytes(then)
            + leash_bytes(leash),
        Order::AttackMove { target } => seq![5u8] + point_bytes(target),
        Order::Patrol { from, to, leg } => seq![6u8] + point_bytes(from) + point_bytes(to) + seq![
            leg,
        ],
        Order::Flee { target } => seq![7u8] + point_bytes(target),
    }
}

/// Feeds a tag byte and then the bytes a further write adds: `fnv` chains.
proof fn lemma_chain(h0: u64, a: Seq<u8>, b: Seq<u8>, h1: u64, h2: u64)
    requires
        h1 == fnv(h0, a),
        h2 == fnv(h1, b),
    ensures
        h2 == fnv(h0, a + b),
{
    lemma_fnv_append(h0, a, b);
}

fn write_point(h: &mut StateHasher, p: Vec2Fx)
    ensures
        final(h)@ == fnv(old(h)@, point_bytes(p)),
{
    h.write(&p);
}

fn write_phase(h: &mut StateHasher, p: GatherPhase)
    ensures
        final(h)@ == fnv(old(h)@, phase_bytes(p)),
{
    match p {
        GatherPhase::ToNode => h.write_u8(0),
        GatherPhase::Working => h.write_u8(1),
        GatherPhase::ToDropoff { dropoff } => {
            let ghost h0 = h@;
            h.write_u8(2);
            let ghost h1 = h@;
            h.write(&dropoff);
            proof {
                lemma_chain(h0, seq![2u8], id_bytes(dropoff), h1, h@);
            }
        },
    }
}

fn write_then(h: &mut StateHasher, t: Then)
    ensures
        final(h)@ == fnv(old(h)@, then_bytes(t)),
{
    let ghost h0 = h@;
    match t {
        Then::Idle => h.write_u8(0),
        Then::Return(p) => {
            h.write_u8(1);
            let ghost h1 = h@;
            write_point(h, p);
            proof {
                lemma_chain(h0, seq![1u8], point_bytes(p), h1, h@);
            }
        },
        Then::AttackMove(p) => {
            h.write_u8(2);
            let ghost h1 = h@;
            write_point(h, p);
            proof {
                lemma_chain(h0, seq![2u8], point_bytes(p), h1, h@);
            }
        },
        Then::Patrol(a, b, leg) => {
            h.write_u8(3);
            let ghost h1 = h@;
            write_point(h, a);
            let ghost h2 = h@;
            write_point(h, b);
            let ghost h3 = h@;
            h.write_u8(leg);
            proof {
                lemma_chain(h0, seq![3u8], point_bytes(a), h1, h2);
                lemma_chain(h0, seq![3u8] + point_bytes(a), point_bytes(b), h2, h3);
                lemma_chain(h0, seq![3u8] + point_bytes(a) + point_bytes(b), seq![leg], h3, h@);
            }
        },
    }
}

fn write_leash(h: &mut StateHasher, l: Option<(Vec2Fx, Fx)>)
    ensures
        final(h)@ == fnv(old(h)@, leash_bytes(l)),
{
    let ghost h0 = h@;
    match l {
        None => h.write_u8(0),
        Some((origin, radius)) => {
            h.write_u8(1);
            let ghost h1 = h@;
            write_point(h, origin);
            let ghost h2 = h@;
            h.write_i32(radius.0);
            proof {
                lemma_chain(h0, seq![1u8], point_bytes(origin), h1, h2);
                lemma_chain(h0, seq![1u8] + point_bytes(origin), le_i32(radius.0), h2, h@);
            }
        },
    }
}

impl HashState for Order {
    open spec fn state_bytes(&self) -> Seq<u8> {
        order_bytes(*self)
    }

    fn hash_state(&self, h: &mut StateHasher) {
        let ghost h0 = h@;
        match *self {
            Order::Idle => h.write_u8(0),
            Order::Move { target } => {
                h.write_u8(1);
                let ghost h1 = h@;
                write_point(h, target);
                proof {
                    lemma_chain(h0, seq![1u8], point_bytes(target), h1, h@);
                }
            },
            Order::Gather { node, resource, phase } => {
                h.write_u8(2);
                let ghost h1 = h@;
                h.write(&node);
                let ghost h2 = h@;
                h.write_u8(resource.index() as u8);
                let ghost h3 = h@;
                write_phase(h, phase);
                proof {
                    let r = seq![resource_index(resource) as u8];
                    lemma_chain(h0, seq![2u8], id_bytes(node), h1, h2);
                    lemma_chain(h0, seq![2u8] + id_bytes(node), r, h2, h3);
                    lemma_chain(h0, seq![2u8] + id_bytes(node) + r, phase_bytes(phase), h3, h@);
                }
            },
            Order::Build { site, working } => {
                h.write_u8(3);
                let ghost h1 = h@;
                h.write(&site);
                let ghost h2 = h@;
                h.write_bool(working);
                proof {
                    lemma_chain(h0, seq![3u8], id_bytes(site), h1, h2);
                    lemma_chain(h0, seq![3u8] + id_bytes(site), bool_byte(working), h2, h@);
                }
            },
            Order::Attack { target, then, leash } => {
                h.write_u8(4);
                let ghost h1 = h@;
                h.write(&target);
                let ghost h2 = h@;
                write_then(h, then);
                let ghost h3 = h@;
                write_leash(h, leash);
                proof {
                    lemma_chain(h0, seq![4u8], id_bytes(target), h1, h2);
                    lemma_chain(h0, seq![4u8] + id_bytes(target), then_bytes(then), h2, h3);
                    lemma_chain(
                        h0,
                        seq![4u8] + id_bytes(target) + then_bytes(then),
                        leash_bytes(leash),
                        h3,
                        h@,
                    );
                }
            },
            Order::AttackMove { target } => {
                h.write_u8(5);
                let ghost h1 = h@;
                write_point(h, target);
                proof {
                    lemma_chain(h0, seq![5u8], point_bytes(target), h1, h@);
                }
            },
            Order::Patrol { from, to, leg } => {
                h.write_u8(6);
                let ghost h1 = h@;
                write_point(h, from);
                let ghost h2 = h@;
                write_point(h, to);
                let ghost h3 = h@;
                h.write_u8(leg);
                proof {
                    lemma_chain(h0, seq![6u8], point_bytes(from), h1, h2);
                    lemma_chain(h0, seq![6u8] + point_bytes(from), point_bytes(to), h2, h3);
                    lemma_chain(h0, seq![6u8] + point_bytes(from) + point_bytes(to), seq![leg], h3, h@);
                }
            },
            Order::Flee { target } => {
                h.write_u8(7);
                let ghost h1 = h@;
                write_point(h, target);
                proof {
                    lemma_chain(h0, seq![7u8], point_bytes(target), h1, h@);
                }
            },
        }
    }
}

/// Progress of a trip.
#[derive(Clone, Copy, PartialEq, Eq, Structural, Debug)]
pub enum NavState {
    /// Waiting for a path.
    Planning,
    /// Following waypoints.
    Walking,
    /// Reached the goal (or as near as it gets).
    Arrived,
    /// Gave up: unreachable or hopelessly stuck.
    Failed,
}

/// A trip state's code, 0 to 3.
pub open spec fn nav_state_code(s: NavState) -> u8 {
    match s {
        NavState::Planning => 0,
        NavState::Walking => 1,
        NavState::Arrived => 2,
        NavState::Failed => 3,
    }
}

impl NavState {
    /// The code of this state.
    pub fn code(self) -> (r: u8)
        ensures
            r == nav_state_code(self),
    {
        match self {
            NavState::Planning => 0,
            NavState::Walking => 1,
            NavState::Arrived => 2,
            NavState::Failed => 3,
        }
    }
}

/// Where a unit is walking, and the waypoints it will take.
#[derive(PartialEq, Eq, Debug)]
pub struct Nav {
    /// Final destination.
    pub goal: Vec2Fx,
    /// Remaining waypoints, next first.
    pub waypoints: Vec<Vec2Fx>,
    /// Where the trip is.
    pub state: NavState,
    /// Closest the unit has been to the goal, for stuck detection.
    pub best: Fx,
    /// Ticks without getting closer.
    pub stalled: u16,
    /// Times the unit has asked the field for a new heading on this trip.
    pub replans: u8,
    /// Stop when within this distance of the goal.
    pub arrive: Fx,
    /// The flow field this trip follows.
    pub field: FieldKey,
    /// Closest the unit has been to the goal, for telling a jam from a detour.
    pub best_goal: Fx,
    /// Where the unit was when `best_goal` was last improved.
    pub anchor: Vec2Fx,
    /// Ticks since `best_goal` last improved.
    pub no_progress: u16,
    /// Top speed for this trip in tiles per second; `Fx::MAX` for the
    /// unit's own.
    pub pace: Fx,
}

impl Nav {
    /// A fresh trip: planning, nothing recorded yet, no pace limit.
    pub open spec fn fresh(&self, goal: Vec2Fx, arrive: Fx, field: FieldKey) -> bool {
        &&& self.goal == goal
        &&& self.waypoints@.len() == 0
        &&& self.state == NavState::Planning
        &&& self.best.0 == i32::MAX
        &&& self.stalled == 0
        &&& self.replans == 0
        &&& self.arrive == arrive
        &&& self.field == field
        &&& self.best_goal.0 == i32::MAX
        &&& self.anchor.x.0 == i32::MIN
        &&& self.anchor.y.0 == i32::MIN
        &&& self.no_progress == 0
        &&& self.pace.0 == i32::MAX
    }

    /// A new trip to a point, following the field to that point's tile.
    pub fn to(goal: Vec2Fx, arrive: Fx) -> (r: Nav)
        ensures
            r.fresh(goal, arrive, r.field),
            r.field.0 as int == goal.x.0 as int / 65536,
            r.field.1 as int == goal.y.0 as int / 65536,
            r.field.2 == 0,
    {
        let t = crate::nav::tile_of(goal);
        Nav::along(goal, arrive, (t.0, t.1, 0))
    }

    /// A new trip to `goal` steered by the field for `field`.
    pub fn along(goal: Vec2Fx, arrive: Fx, field: FieldKey) -> (r: Nav)
        ensures
            r.fresh(goal, arrive, field),
    {
        Nav {
            goal,
            waypoints: Vec::new(),
            state: NavState::Planning,
            best: Fx::MAX(),
            stalled: 0,
            replans: 0,
            arrive,
            field,
            best_goal: Fx::MAX(),
            anchor: Vec2Fx::new(Fx::MIN(), Fx::MIN()),
            no_progress: 0,
            pace: Fx::MAX(),
        }
    }

    /// The same trip, held to `pace` tiles per second.
    pub fn paced(self, pace: Fx) -> (r: Nav)
        ensures
            r == (Nav { pace, ..self }),
    {
        let mut n = self;
        n.pace = pace;
        n
    }
}

impl Clone for Nav {
    fn clone(&self) -> (r: Nav)
        ensures
            r.goal == self.goal && r.waypoints@ == self.waypoints@ && r.state == self.state
                && r.best == self.best && r.stalled == self.stalled && r.replans == self.replans
                && r.arrive == self.arrive && r.field == self.field && r.best_goal == self.best_goal
                && r.anchor == self.anchor && r.no_progress == self.no_progress && r.pace == self.pace,
    {
        let mut waypoints: Vec<Vec2Fx> = Vec::new();
        let mut i: usize = 0;
        while i < self.waypoints.len()
            invariant
                i <= self.waypoints@.len(),
                waypoints@ == self.waypoints@.take(i as int),
            decreases self.waypoints.len() - i,
        {
            waypoints.push(self.waypoints[i]);
            i = i + 1;
            assert(waypoints@ =~= self.waypoints@.take(i as int));
        }
        assert(waypoints@ =~= self.waypoints@);
        Nav {
            goal: self.goal,
            waypoints,
            state: self.state,
            best: self.best,
            stalled: self.stalled,
            replans: self.replans,
            arrive: self.arrive,
            field: (self.field.0, self.field.1, self.field.2),
            best_goal: self.best_goal,
            anchor: self.anchor,
            no_progress: self.no_progress,
            pace: self.pace,
        }
    }
}

/// The bytes of a trip.
pub open spec fn nav_bytes(n: Nav) -> Seq<u8> {
    point_bytes(n.goal) + seq_bytes(n.waypoints@) + seq![nav_state_code(n.state)] + le_i32(n.best.0)
        + le16(n.stalled) + seq![n.replans] + le_i32(n.arrive.0) + le_i32(n.field.0) + le_i32(
        n.field.1,
    ) + seq![n.field.2] + le_i32(n.best_goal.0) + point_bytes(n.anchor) + le16(n.no_progress)
        + le_i32(n.pace.0)
}

impl HashState for Nav {
    open spec fn state_bytes(&self) -> Seq<u8> {
        nav_bytes(*self)
    }

    fn hash_state(&self, h: &mut StateHasher) {
        let ghost h0 = h@;
        let ghost mut acc: Seq<u8> = Seq::empty();
        write_point(h, self.goal);
        proof {
            acc = point_bytes(self.goal);
        }
        let ghost h1 = h@;
        h.write(&self.waypoints);
        proof {
            lemma_chain(h0, acc, seq_bytes(self.waypoints@), h1, h@);
            acc = acc + seq_bytes(self.waypoints@);
        }
        let ghost h2 = h@;
        h.write_u8(self.state.code());
        proof {
            lemma_chain(h0, acc, seq![nav_state_code(self.state)], h2, h@);
            acc = acc + seq![nav_state_code(self.state)];
        }
        let ghost h3 = h@;
        h.write_i32(self.best.0);
        proof {
            lemma_chain(h0, acc, le_i32(self.best.0), h3, h@);
            acc = acc + le_i32(self.best.0);
        }
        let ghost h4 = h@;
        h.write_u16(self.stalled);
        proof {
            lemma_chain(h0, acc, le16(self.stalled), h4, h@);
            acc = acc + le16(self.stalled);
        }
        let ghost h5 = h@;
        h.write_u8(self.replans);
        proof {
            lemma_chain(h0, acc, seq![self.replans], h5, h@);
            acc = acc + seq![self.replans];
        }
        let ghost h6 = h@;
        h.write_i32(self.arrive.0);
        proof {
            lemma_chain(h0, acc, le_i32(self.arrive.0), h6, h@);
            acc = acc + le_i32(self.arrive.0);
        }
        let ghost h7 = h@;
        h.write_i32(self.field.0);
        proof {
            lemma_chain(h0, acc, le_i32(self.field.0), h7, h@);
            acc = acc + le_i32(self.field.0);
        }
        let ghost h8 = h@;
        h.write_i32(self.field.1);
        proof {
            lemma_chain(h0, acc, le_i32(self.field.1), h8, h@);
            acc = acc + le_i32(self.field.1);
        }
        let ghost h9 = h@;
        h.write_u8(self.field.2);
        proof {
            lemma_chain(h0, acc, seq![self.field.2], h9, h@);
            acc = acc + seq![self.field.2];
        }
        let ghost h10 = h@;
        h.write_i32(self.best_goal.0);
        proof {
            lemma_chain(h0, acc, le_i32(self.best_goal.0), h10, h@);
            acc = acc + le_i32(self.best_goal.0);
        }
        let ghost h11 = h@;
        write_point(h, self.anchor);
        proof {
            lemma_chain(h0, acc, point_bytes(self.anchor), h11, h@);
            acc = acc + point_bytes(self.anchor);
        }
        let ghost h12 = h@;
        h.write_u16(self.no_progress);
        proof {
            lemma_chain(h0, acc, le16(self.no_progress), h12, h@);
            acc = acc + le16(self.no_progress);
        }
        let ghost h13 = h@;
        h.write_i32(self.pace.0);
        proof {
            lemma_chain(h0, acc, le_i32(self.pace.0), h13, h@);
            acc = acc + le_i32(self.pace.0);
            assert(acc =~= nav_bytes(*self));
        }
    }
}

/// What a queue slot is producing.
#[derive(Clone, Copy, PartialEq, Eq, Structural, Debug)]
pub enum Item {
    /// A unit.
    Unit(u16),
    /// A technology.
    Tech(u16),
}

/// One item in a building's production queue.
#[derive(Clone, Copy, PartialEq, Eq, Structural, Debug)]
pub struct QueueItem {
    /// What is being produced.
    pub item: Item,
    /// Ticks of work done.
    pub progress: u32,
}

impl QueueItem {
    /// A unit to train, not started.
    pub fn unit(kind: u16) -> (r: QueueItem)
        ensures
            r == (QueueItem { item: Item::Unit(kind), progress: 0 }),
    {
        QueueItem { item: Item::Unit(kind), progress: 0 }
    }

    /// A technology to research, not started.
    pub fn tech(tech: u16) -> (r: QueueItem)
        ensures
            r == (QueueItem { item: Item::Tech(tech), progress: 0 }),
    {
        QueueItem { item: Item::Tech(tech), progress: 0 }
    }
}

/// Where a building sends what it produces.
#[derive(Clone, Copy, PartialEq, Eq, Structural, Debug)]
pub enum Rally {
    /// Nowhere: units step out and wait.
    Nowhere,
    /// Walk to a point.
    Point(Vec2Fx),
    /// Go and work on an entity — gather a node or help a site.
    Entity(EntityId),
}

/// The bytes of a rally point.
pub open spec fn rally_bytes(r: Rally) -> Seq<u8> {
    match r {
        Rally::Nowhere => seq![0u8],
        Rally::Point(p) => seq![1u8] + point_bytes(p),
        Rally::Entity(e) => seq![2u8] + id_bytes(e),
    }
}

impl HashState for Rally {
    open spec fn state_bytes(&self) -> Seq<u8> {
        rally_bytes(*self)
    }

    fn hash_state(&self, h: &mut StateHasher) {
        let ghost h0 = h@;
        match *self {
            Rally::Nowhere => h.write_u8(0),
            Rally::Point(p) => {
                h.write_u8(1);
                let ghost h1 = h@;
                write_point(h, p);
                proof {
                    lemma_chain(h0, seq![1u8], point_bytes(p), h1, h@);
                }
            },
            Rally::Entity(e) => {
                h.write_u8(2);
                let ghost h1 = h@;
                h.write(&e);
                proof {
                    lemma_chain(h0, seq![2u8], id_bytes(e), h1, h@);
                }
            },
        }
    }
}

/// A building's production state.
#[derive(Clone, PartialEq, Eq, Debug)]
pub struct Production {
    /// Queued items, head first.
    pub queue: Vec<QueueItem>,
    /// Where finished units go.
    pub rally: Option<Rally>,
}

impl Default for Production {
    /// Nothing queued, no rally point.
    fn default() -> (r: Production)
        ensures
            r.queue@.len() == 0,
            r.rally is None,
    {
        Production { queue: Vec::new(), rally: None }
    }
}

/// The bytes of one queue item: its kind tag and id, then its progress.
pub open spec fn item_bytes(q: QueueItem) -> Seq<u8> {
    item_head(q.item) + le32(q.progress)
}

/// The tag and id of a produced item.
pub open spec fn item_head(i: Item) -> Seq<u8> {
    match i {
        Item::Unit(k) => seq![0u8] + le16(k),
        Item::Tech(t) => seq![1u8] + le16(t),
    }
}

/// The bytes of a run of queue items.
pub open spec fn items_bytes(s: Seq<QueueItem>) -> Seq<u8>
    decreases s.len(),
{
    if s.len() == 0 {
        Seq::empty()
    } else {
        items_bytes(s.drop_last()) + item_bytes(s.last())
    }
}

/// The bytes of a production state: the queue's length and items, then the
/// rally point, none reading as [`Rally::Nowhere`].
pub open spec fn production_bytes(p: Production) -> Seq<u8> {
    le64(p.queue@.len() as u64) + items_bytes(p.queue@) + rally_bytes(
        match p.rally {
            Some(r) => r,
            None => Rally::Nowhere,
        },
    )
}

fn write_item(h: &mut StateHasher, q: QueueItem)
    ensures
        final(h)@ == fnv(old(h)@, item_bytes(q)),
{
    let ghost h0 = h@;
    match q.item {
        Item::Unit(k) => {
            h.write_u8(0);
            let ghost h1 = h@;
            h.write_u16(k);
            proof {
                lemma_chain(h0, seq![0u8], le16(k), h1, h@);
            }
        },
        Item::Tech(t) => {
            h.write_u8(1);
            let ghost h1 = h@;
            h.write_u16(t);
            proof {
                lemma_chain(h0, seq![1u8], le16(t), h1, h@);
            }
        },
    }
    let ghost h2 = h@;
    h.write_u32(q.progress);
    proof {
        lemma_chain(h0, item_head(q.item), le32(q.progress), h2, h@);
    }
}

impl HashState for Production {
    open spec fn state_bytes(&self) -> Seq<u8> {
        production_bytes(*self)
    }

    fn hash_state(&self, h: &mut StateHasher) {
        let ghost h0 = h@;
        h.write_u64(self.queue.len() as u64);
        let ghost h1 = h@;
        let mut i: usize = 0;
        while i < self.queue.len()
            invariant
                i <= self.queue@.len(),
                h1 == fnv(h0, le64(self.queue@.len() as u64)),
                h@ == fnv(h1, items_bytes(self.queue@.take(i as int))),
            decreases self.queue.len() - i,
        {
            let ghost hb = h@;
            write_item(h, self.queue[i]);
            proof {
                assert(self.queue@.take(i + 1).drop_last() =~= self.queue@.take(i as int));
                lemma_chain(h1, items_bytes(self.queue@.take(i as int)), item_bytes(self.queue@[i as int]), hb, h@);
            }
            i = i + 1;
        }
        proof {
            assert(self.queue@.take(i as int) =~= self.queue@);
            lemma_chain(h0, le64(self.queue@.len() as u64), items_bytes(self.queue@), h1, h@);
        }
        let ghost h2 = h@;
        let r = match self.rally {
            Some(r) => r,
            None => Rally::Nowhere,
        };
        r.hash_state(h);
        proof {
            lemma_chain(h0, le64(self.queue@.len() as u64) + items_bytes(self.queue@), rally_bytes(r), h2, h@);
        }
    }
}

/// Everything technology has changed about a player.
#[derive(Clone, Copy, PartialEq, Eq, Debug)]
pub struct Modifiers {
    /// Percent added to the gather rate, per resource.
    pub gather_rate_pct: [i32; 4],
    /// Units added to carry capacity.
    pub carry_bonus: i32,
    /// Food added to a fresh farm.
    pub farm_yield_bonus: i32,
    /// Percent added to villager speed.
    pub villager_speed_pct: i32,
    /// Percent added to construction speed.
    pub build_speed_pct: i32,
    /// Attack added per hit, by unit class.
    pub attack_bonus: [i32; 8],
    /// Melee armour added, by class.
    pub melee_armour_bonus: [i32; 8],
    /// Pierce armour added, by class.
    pub pierce_armour_bonus: [i32; 8],
    /// Tiles of reach added, by class.
    pub range_bonus: [i32; 8],
}

/// The bytes of a run of `i32`s, one after another.
pub open spec fn ints_bytes(s: Seq<i32>) -> Seq<u8>
    decreases s.len(),
{
    if s.len() == 0 {
        Seq::empty()
    } else {
        ints_bytes(s.drop_last()) + le_i32(s.last())
    }
}

fn write_ints(h: &mut StateHasher, v: &[i32])
    ensures
        final(h)@ == fnv(old(h)@, ints_bytes(v@)),
{
    let ghost h0 = h@;
    let mut i: usize = 0;
    while i < v.len()
        invariant
            i <= v@.len(),
            h@ == fnv(h0, ints_bytes(v@.take(i as int))),
        decreases v.len() - i,
    {
        let ghost hb = h@;
        h.write_i32(v[i]);
        proof {
            assert(v@.take(i + 1).drop_last() =~= v@.take(i as int));
            lemma_chain(h0, ints_bytes(v@.take(i as int)), le_i32(v@[i as int]), hb, h@);
        }
        i = i + 1;
    }
    assert(v@.take(i as int) =~= v@);
}

/// The bytes of a player's modifiers.
pub open spec fn modifiers_bytes(m: Modifiers) -> Seq<u8> {
    ints_bytes(m.gather_rate_pct@) + le_i32(m.carry_bonus) + le_i32(m.farm_yield_bonus) + le_i32(
        m.villager_speed_pct,
    ) + le_i32(m.build_speed_pct) + ints_bytes(m.attack_bonus@) + ints_bytes(m.melee_armour_bonus@)
        + ints_bytes(m.pierce_armour_bonus@) + ints_bytes(m.range_bonus@)
}

impl Default for Modifiers {
    /// Nothing changed: every bonus zero.
    fn default() -> (r: Modifiers)
        ensures
            r.neutral(),
    {
        let z: [i32; 4] = [0, 0, 0, 0];
        let e: [i32; 8] = [0, 0, 0, 0, 0, 0, 0, 0];
        let r = Modifiers {
            gather_rate_pct: z,
            carry_bonus: 0,
            farm_yield_bonus: 0,
            villager_speed_pct: 0,
            build_speed_pct: 0,
            attack_bonus: e,
            melee_armour_bonus: e,
            pierce_armour_bonus: e,
            range_bonus: e,
        };
        assert(r.gather_rate_pct@ =~= seq![0i32, 0, 0, 0]);
        assert(r.attack_bonus@ =~= seq![0i32, 0, 0, 0, 0, 0, 0, 0]);
        r
    }
}

impl Modifiers {
    /// No technology has changed anything: every bonus is zero.
    pub open spec fn neutral(&self) -> bool {
        &&& self.gather_rate_pct@ == seq![0i32, 0, 0, 0]
        &&& self.carry_bonus == 0
        &&& self.farm_yield_bonus == 0
        &&& self.villager_speed_pct == 0
        &&& self.build_speed_pct == 0
        &&& self.attack_bonus@ == seq![0i32, 0, 0, 0, 0, 0, 0, 0]
        &&& self.melee_armour_bonus@ == seq![0i32, 0, 0, 0, 0, 0, 0, 0]
        &&& self.pierce_armour_bonus@ == seq![0i32, 0, 0, 0, 0, 0, 0, 0]
        &&& self.range_bonus@ == seq![0i32, 0, 0, 0, 0, 0, 0, 0]
    }

    /// Gather rate for a resource after modifiers, per second: the base rate
    /// scaled by `(100 + percent) / 100`.
    pub fn gather_rate(&self, r: Resource) -> (g: Fx)
        requires
            100 + self.gather_rate_pct@[resource_index(r)] <= i32::MAX,
        ensures
            g.0 == sat(
                round_div(
                    base_gather_raw() * from_int_raw(100 + self.gather_rate_pct@[resource_index(r)]),
                    6553600,
                ),
            ),
    {
        r.gather_rate().mul_div(
            Fx::from_int(100 + self.gather_rate_pct[r.index()]),
            Fx::from_int(100),
        )
    }

    /// Carry capacity after modifiers, at least one.
    pub fn carry_capacity(&self) -> (r: i32)
        requires
            CARRY_CAPACITY + self.carry_bonus <= i32::MAX,
        ensures
            r == if CARRY_CAPACITY + self.carry_bonus >= 1 { CARRY_CAPACITY + self.carry_bonus } else { 1 },
    {
        let c = CARRY_CAPACITY + self.carry_bonus;
        if c >= 1 {
            c
        } else {
            1
        }
    }

    /// Food a fresh farm holds.
    pub fn farm_yield(&self, base: i32) -> (r: i32)
        requires
            i32::MIN <= base + self.farm_yield_bonus <= i32::MAX,
        ensures
            r == base + self.farm_yield_bonus,
    {
        base + self.farm_yield_bonus
    }
}

impl HashState for Modifiers {
    open spec fn state_bytes(&self) -> Seq<u8> {
        modifiers_bytes(*self)
    }

    fn hash_state(&self, h: &mut StateHasher) {
        let ghost h0 = h@;
        let ghost mut acc: Seq<u8> = Seq::empty();
        write_ints(h, &self.gather_rate_pct);
        proof {
            acc = ints_bytes(self.gather_rate_pct@);
        }
        let ghost h1 = h@;
        h.write_i32(self.carry_bonus);
        proof {
            lemma_chain(h0, acc, le_i32(self.carry_bonus), h1, h@);
            acc = acc + le_i32(self.carry_bonus);
        }
        let ghost h2 = h@;
        h.write_i32(self.farm_yield_bonus);
        proof {
            lemma_chain(h0, acc, le_i32(self.farm_yield_bonus), h2, h@);
            acc = acc + le_i32(self.farm_yield_bonus);
        }
        let ghost h3 = h@;
        h.write_i32(self.villager_speed_pct);
        proof {
            lemma_chain(h0, acc, le_i32(self.villager_speed_pct), h3, h@);
            acc = acc + le_i32(self.villager_speed_pct);
        }
        let ghost h4 = h@;
        h.write_i32(self.build_speed_pct);
        proof {
            lemma_chain(h0, acc, le_i32(self.build_speed_pct), h4, h@);
            acc = acc + le_i32(self.build_speed_pct);
        }
        let ghost h5 = h@;
        write_ints(h, &self.attack_bonus);
        proof {
            lemma_chain(h0, acc, ints_bytes(self.attack_bonus@), h5, h@);
            acc = acc + ints_bytes(self.attack_bonus@);
        }
        let ghost h6 = h@;
        write_ints(h, &self.melee_armour_bonus);
        proof {
            lemma_chain(h0, acc, ints_bytes(self.melee_armour_bonus@), h6, h@);
            acc = acc + ints_bytes(self.melee_armour_bonus@);
        }
        let ghost h7 = h@;
        write_ints(h, &self.pierce_armour_bonus);
        proof {
            lemma_chain(h0, acc, ints_bytes(self.pierce_armour_bonus@), h7, h@);
            acc = acc + ints_bytes(self.pierce_armour_bonus@);
        }
        let ghost h8 = h@;
        write_ints(h, &self.range_bonus);
        proof {
            lemma_chain(h0, acc, ints_bytes(self.range_bonus@), h8, h@);
            acc = acc + ints_bytes(self.range_bonus@);
            assert(acc =~= modifiers_bytes(*self));
        }
    }
}

/// Strictly increasing: sorted, with no id twice.
pub open spec fn strictly_sorted(s: Seq<u16>) -> bool {
    forall|i: int, j: int| 0 <= i < j < s.len() ==> s[i] < s[j]
}

/// Per-player economy.
#[derive(PartialEq, Eq, Debug)]
pub struct Player {
    /// Stockpile, indexed by resource.
    pub stockpile: [i32; 4],
    /// Population in use.
    pub pop: u32,
    /// Population available from completed buildings, capped by the match limit.
    pub pop_cap: u32,
    /// Running totals gathered, for the score screen.
    pub gathered: [i32; 4],
    /// Current age.
    pub age: Age,
    /// What technology has changed.
    pub modifiers: Modifiers,
    /// Technologies completed, sorted.
    pub researched: Vec<u16>,
    /// Whether exhausted farms are reseeded automatically.
    pub auto_reseed: bool,
}

/// Two players hold the same economy.
pub open spec fn same_player(a: Player, b: Player) -> bool {
    &&& a.stockpile == b.stockpile
    &&& a.pop == b.pop
    &&& a.pop_cap == b.pop_cap
    &&& a.gathered == b.gathered
    &&& a.age == b.age
    &&& a.modifiers == b.modifiers
    &&& a.researched@ == b.researched@
    &&& a.auto_reseed == b.auto_reseed
}

impl Clone for Player {
    fn clone(&self) -> (r: Player)
        ensures
            same_player(r, *self),
    {
        let mut researched: Vec<u16> = Vec::new();
        let mut i: usize = 0;
        while i < self.researched.len()
            invariant
                i <= self.researched@.len(),
                researched@ == self.researched@.take(i as int),
            decreases self.researched.len() - i,
        {
            researched.push(self.researched[i]);
            i = i + 1;
            assert(researched@ =~= self.researched@.take(i as int));
        }
        assert(researched@ =~= self.researched@);
        Player {
            stockpile: self.stockpile,
            pop: self.pop,
            pop_cap: self.pop_cap,
            gathered: self.gathered,
            age: self.age,
            modifiers: self.modifiers,
            researched,
            auto_reseed: self.auto_reseed,
        }
    }
}

/// The stockpile covers the cost, resource by resource.
pub open spec fn affords(stock: Seq<i32>, cost: Seq<i32>) -> bool {
    forall|i: int| 0 <= i < 4 ==> stock[i] >= cost[i]
}

/// The bytes of a player.
pub open spec fn player_bytes(p: Player) -> Seq<u8> {
    ints_bytes(p.stockpile@) + le32(p.pop) + le32(p.pop_cap) + ints_bytes(p.gathered@) + seq![
        age_rank(p.age) as u8,
    ] + modifiers_bytes(p.modifiers) + le64(p.researched@.len() as u64) + u16s_bytes(p.researched@)
        + bool_byte(p.auto_reseed)
}

/// The bytes of a run of `u16`s.
pub open spec fn u16s_bytes(s: Seq<u16>) -> Seq<u8>
    decreases s.len(),
{
    if s.len() == 0 {
        Seq::empty()
    } else {
        u16s_bytes(s.drop_last()) + le16(s.last())
    }
}

impl Player {
    /// A player as the opening gives it: the stockpile given, no population,
    /// Stone Age, no technology, farms reseeded.
    pub open spec fn opening(&self, stockpile: [i32; 4]) -> bool {
        &&& self.stockpile == stockpile
        &&& self.pop == 0
        &&& self.pop_cap == 0
        &&& self.gathered@ == seq![0i32, 0, 0, 0]
        &&& self.age == Age::Stone
        &&& self.modifiers.neutral()
        &&& self.researched@.len() == 0
        &&& self.auto_reseed
    }

    /// A player with the standard opening stockpile.
    pub fn new() -> (r: Player)
        ensures
            r.opening([200, 200, 100, 100]),
    {
        Player::with_stockpile([200, 200, 100, 100])
    }

    /// A player with a chosen opening stockpile.
    pub fn with_stockpile(stockpile: [i32; 4]) -> (r: Player)
        ensures
            r.opening(stockpile),
    {
        let z: [i32; 4] = [0, 0, 0, 0];
        let e: [i32; 8] = [0, 0, 0, 0, 0, 0, 0, 0];
        assert(z@ =~= seq![0i32, 0, 0, 0]);
        assert(e@ =~= seq![0i32, 0, 0, 0, 0, 0, 0, 0]);
        Player {
            stockpile,
            pop: 0,
            pop_cap: 0,
            gathered: z,
            age: Age::Stone,
            modifiers: Modifiers {
                gather_rate_pct: z,
                carry_bonus: 0,
                farm_yield_bonus: 0,
                villager_speed_pct: 0,
                build_speed_pct: 0,
                attack_bonus: e,
                melee_armour_bonus: e,
                pierce_armour_bonus: e,
                range_bonus: e,
            },
            researched: Vec::new(),
            auto_reseed: true,
        }
    }

    /// Where `tech` is, or would go, in the sorted list.
    fn search(&self, tech: u16) -> (r: (bool, usize))
        requires
            strictly_sorted(self.researched@),
        ensures
            r.1 <= self.researched@.len(),
            forall|i: int| 0 <= i < r.1 ==> self.researched@[i] < tech,
            forall|i: int| r.1 <= i < self.researched@.len() ==> self.researched@[i] >= tech,
            r.0 <==> (r.1 < self.researched@.len() && self.researched@[r.1 as int] == tech),
            r.0 <==> self.researched@.contains(tech),
    {
        let mut lo: usize = 0;
        let mut hi: usize = self.researched.len();
        while lo < hi
            invariant
                0 <= lo <= hi <= self.researched@.len(),
                strictly_sorted(self.researched@),
                forall|i: int| 0 <= i < lo ==> self.researched@[i] < tech,
                forall|i: int| hi <= i < self.researched@.len() ==> self.researched@[i] >= tech,
            decreases hi - lo,
        {
            let mid = lo + (hi - lo) / 2;
            if self.researched[mid] < tech {
                lo = mid + 1;
            } else {
                hi = mid;
            }
        }
        let found = lo < self.researched.len() && self.researched[lo] == tech;
        proof {
            if self.researched@.contains(tech) {
                let k = choose|k: int| 0 <= k < self.researched@.len() && self.researched@[k] == tech;
                assert(k >= lo);
                if k > lo {
                    assert(self.researched@[lo as int] < self.researched@[k]);
                }
            }
        }
        (found, lo)
    }

    /// True if the technology is complete.
    pub fn has_researched(&self, tech: u16) -> (r: bool)
        requires
            strictly_sorted(self.researched@),
        ensures
            r == self.researched@.contains(tech),
    {
        self.search(tech).0
    }

    /// Records a completed technology, keeping the list sorted and free of
    /// repeats.
    pub fn mark_researched(&mut self, tech: u16)
        requires
            strictly_sorted(old(self).researched@),
        ensures
            strictly_sorted(final(self).researched@),
            final(self).researched@.to_set() == old(self).researched@.to_set().insert(tech),
            old(self).researched@.contains(tech) ==> final(self).researched@ == old(self).researched@,
            !old(self).researched@.contains(tech) ==> final(self).researched@.len() == old(self).researched@.len() + 1,
            final(self).stockpile == old(self).stockpile,
            final(self).pop == old(self).pop,
            final(self).pop_cap == old(self).pop_cap,
            final(self).gathered == old(self).gathered,
            final(self).age == old(self).age,
            final(self).modifiers == old(self).modifiers,
            final(self).auto_reseed == old(self).auto_reseed,
    {
        let (found, at) = self.search(tech);
        if !found {
            let ghost before = self.researched@;
            self.researched.insert(at, tech);
            proof {
                let after = self.researched@;
                assert(after =~= before.insert(at as int, tech));
                assert forall|i: int, j: int| 0 <= i < j < after.len() implies after[i] < after[j] by {
                    if j < at {
                    } else if j == at {
                    } else if i < at {
                        assert(after[j] == before[j - 1]);
                    } else if i == at {
                        assert(after[j] == before[j - 1]);
                        assert(before[j - 1] >= tech);
                        assert(before[j - 1] != tech);
                    } else {
                        assert(after[i] == before[i - 1]);
                        assert(after[j] == before[j - 1]);
                    }
                }
                assert(after.to_set() =~= before.to_set().insert(tech)) by {
                    assert forall|x: u16| after.to_set().contains(x) == before.to_set().insert(tech).contains(x) by {
                        if after.contains(x) {
                            let k = choose|k: int| 0 <= k < after.len() && after[k] == x;
                            if k < at {
                                assert(before[k] == x);
                            } else if k > at {
                                assert(before[k - 1] == x);
                            }
                        }
                        if before.contains(x) {
                            let k = choose|k: int| 0 <= k < before.len() && before[k] == x;
                            if k < at {
                                assert(after[k] == x);
                            } else {
                                assert(after[k + 1] == x);
                            }
                        }
                        if x == tech {
                            assert(after[at as int] == tech);
                        }
                    }
                }
            }
        }
    }

    /// True if the stockpile covers `cost`.
    pub fn can_afford(&self, cost: &[i32; 4]) -> (r: bool)
        ensures
            r == affords(self.stockpile@, cost@),
    {
        let mut i: usize = 0;
        while i < 4
            invariant
                i <= 4,
                forall|j: int| 0 <= j < i ==> self.stockpile@[j] >= cost@[j],
            decreases 4 - i,
        {
            if self.stockpile[i] < cost[i] {
                return false;
            }
            i = i + 1;
        }
        true
    }

    /// Deducts `cost`. Returns false, changing nothing, if unaffordable.
    pub fn pay(&mut self, cost: &[i32; 4]) -> (r: bool)
        requires
            forall|i: int| 0 <= i < 4 ==> old(self).stockpile@[i] - cost@[i] <= i32::MAX,
        ensures
            r == affords(old(self).stockpile@, cost@),
            r ==> forall|i: int| 0 <= i < 4 ==> #[trigger] final(self).stockpile@[i] == old(self).stockpile@[i] - cost@[i],
            !r ==> final(self).stockpile == old(self).stockpile,
            final(self).pop == old(self).pop,
            final(self).pop_cap == old(self).pop_cap,
            final(self).gathered == old(self).gathered,
            final(self).age == old(self).age,
            final(self).modifiers == old(self).modifiers,
            final(self).researched == old(self).researched,
            final(self).auto_reseed == old(self).auto_reseed,
    {
        if !self.can_afford(cost) {
            return false;
        }
        let mut i: usize = 0;
        while i < 4
            invariant
                i <= 4,
                affords(old(self).stockpile@, cost@),
                forall|j: int| 0 <= j < 4 ==> old(self).stockpile@[j] - cost@[j] <= i32::MAX,
                forall|j: int| 0 <= j < i ==> #[trigger] self.stockpile@[j] == old(self).stockpile@[j] - cost@[j],
                forall|j: int| i <= j < 4 ==> #[trigger] self.stockpile@[j] == old(self).stockpile@[j],
                self.pop == old(self).pop,
                self.pop_cap == old(self).pop_cap,
                self.gathered == old(self).gathered,
                self.age == old(self).age,
                self.modifiers == old(self).modifiers,
                self.researched == old(self).researched,
                self.auto_reseed == old(self).auto_reseed,
            decreases 4 - i,
        {
            self.stockpile[i] = self.stockpile[i] - cost[i];
            i = i + 1;
        }
        true
    }

    /// Refunds `cost`.
    pub fn refund(&mut self, cost: &[i32; 4])
        requires
            forall|i: int| 0 <= i < 4 ==> i32::MIN <= old(self).stockpile@[i] + #[trigger] cost@[i] <= i32::MAX,
        ensures
            forall|i: int| 0 <= i < 4 ==> #[trigger] final(self).stockpile@[i] == old(self).stockpile@[i] + cost@[i],
            final(self).pop == old(self).pop,
            final(self).pop_cap == old(self).pop_cap,
            final(self).gathered == old(self).gathered,
            final(self).age == old(self).age,
            final(self).modifiers == old(self).modifiers,
            final(self).researched == old(self).researched,
            final(self).auto_reseed == old(self).auto_reseed,
    {
        let mut i: usize = 0;
        while i < 4
            invariant
                i <= 4,
                forall|j: int| 0 <= j < 4 ==> i32::MIN <= old(self).stockpile@[j] + #[trigger] cost@[j] <= i32::MAX,
                forall|j: int| 0 <= j < i ==> #[trigger] self.stockpile@[j] == old(self).stockpile@[j] + cost@[j],
                forall|j: int| i <= j < 4 ==> #[trigger] self.stockpile@[j] == old(self).stockpile@[j],
                self.pop == old(self).pop,
                self.pop_cap == old(self).pop_cap,
                self.gathered == old(self).gathered,
                self.age == old(self).age,
                self.modifiers == old(self).modifiers,
                self.researched == old(self).researched,
                self.auto_reseed == old(self).auto_reseed,
            decreases 4 - i,
        {
            self.stockpile[i] = self.stockpile[i] + cost[i];
            i = i + 1;
        }
    }

    /// Adds gathered resources to the stockpile and the running total.
    pub fn deposit(&mut self, r: Resource, amount: i32)
        requires
            i32::MIN <= old(self).stockpile@[resource_index(r)] + amount <= i32::MAX,
            i32::MIN <= old(self).gathered@[resource_index(r)] + amount <= i32::MAX,
        ensures
            final(self).stockpile@ == old(self).stockpile@.update(
                resource_index(r),
                (old(self).stockpile@[resource_index(r)] + amount) as i32,
            ),
            final(self).gathered@ == old(self).gathered@.update(
                resource_index(r),
                (old(self).gathered@[resource_index(r)] + amount) as i32,
            ),
            final(self).pop == old(self).pop,
            final(self).pop_cap == old(self).pop_cap,
            final(self).age == old(self).age,
            final(self).modifiers == old(self).modifiers,
            final(self).researched == old(self).researched,
            final(self).auto_reseed == old(self).auto_reseed,
    {
        let i = r.index();
        self.stockpile[i] = self.stockpile[i] + amount;
        self.gathered[i] = self.gathered[i] + amount;
    }
}

impl Default for Player {
    fn default() -> (r: Player)
        ensures
            r.opening([200, 200, 100, 100]),
    {
        Player::new()
    }
}

fn write_u16s(h: &mut StateHasher, v: &Vec<u16>)
    ensures
        final(h)@ == fnv(old(h)@, u16s_bytes(v@)),
{
    let ghost h0 = h@;
    let mut i: usize = 0;
    while i < v.len()
        invariant
            i <= v@.len(),
            h@ == fnv(h0, u16s_bytes(v@.take(i as int))),
        decreases v.len() - i,
    {
        let ghost hb = h@;
        h.write_u16(v[i]);
        proof {
            assert(v@.take(i + 1).drop_last() =~= v@.take(i as int));
            lemma_chain(h0, u16s_bytes(v@.take(i as int)), le16(v@[i as int]), hb, h@);
        }
        i = i + 1;
    }
    assert(v@.take(i as int) =~= v@);
}

impl HashState for Player {
    open spec fn state_bytes(&self) -> Seq<u8> {
        player_bytes(*self)
    }

    fn hash_state(&self, h: &mut StateHasher) {
        let ghost h0 = h@;
        let ghost mut acc: Seq<u8> = Seq::empty();
        write_ints(h, &self.stockpile);
        proof {
            acc = ints_bytes(self.stockpile@);
        }
        let ghost h1 = h@;
        h.write_u32(self.pop);
        proof {
            lemma_chain(h0, acc, le32(self.pop), h1, h@);
            acc = acc + le32(self.pop);
        }
        let ghost h2 = h@;
        h.write_u32(self.pop_cap);
        proof {
            lemma_chain(h0, acc, le32(self.pop_cap), h2, h@);
            acc = acc + le32(self.pop_cap);
        }
        let ghost h3 = h@;
        write_ints(h, &self.gathered);
        proof {
            lemma_chain(h0, acc, ints_bytes(self.gathered@), h3, h@);
            acc = acc + ints_bytes(self.gathered@);
        }
        let ghost h4 = h@;
        h.write_u8(self.age.index() as u8);
        proof {
            lemma_chain(h0, acc, seq![age_rank(self.age) as u8], h4, h@);
            acc = acc + seq![age_rank(self.age) as u8];
        }
        let ghost h5 = h@;
        self.modifiers.hash_state(h);
        proof {
            lemma_chain(h0, acc, modifiers_bytes(self.modifiers), h5, h@);
            acc = acc + modifiers_bytes(self.modifiers);
        }
        let ghost h6 = h@;
        h.write_u64(self.researched.len() as u64);
        proof {
            lemma_chain(h0, acc, le64(self.researched@.len() as u64), h6, h@);
            acc = acc + le64(self.researched@.len() as u64);
        }
        let ghost h7 = h@;
        write_u16s(h, &self.researched);
        proof {
            lemma_chain(h0, acc, u16s_bytes(self.researched@), h7, h@);
            acc = acc + u16s_bytes(self.researched@);
        }
        let ghost h8 = h@;
        h.write_bool(self.auto_reseed);
        proof {
            lemma_chain(h0, acc, bool_byte(self.auto_reseed), h8, h@);
            acc = acc + bool_byte(self.auto_reseed);
            assert(acc =~= player_bytes(*self));
        }
    }
}

/// Two byte strings of equal length followed by anything are equal exactly
/// when both parts are.
proof fn lemma_split_fixed(x: Seq<u8>, y: Seq<u8>, r1: Seq<u8>, r2: Seq<u8>)
    requires
        x.len() == y.len(),
        x + r1 == y + r2,
    ensures
        x == y,
        r1 == r2,
{
    assert(x =~= (x + r1).subrange(0, x.len() as int));
    assert(y =~= (y + r2).subrange(0, y.len() as int));
    assert(r1 =~= (x + r1).subrange(x.len() as int, (x + r1).len() as int));
    assert(r2 =~= (y + r2).subrange(y.len() as int, (y + r2).len() as int));
}

/// Distinct `u32`s have distinct little-endian bytes.
proof fn lemma_le32_injective(a: u32, b: u32)
    requires
        le32(a) == le32(b),
    ensures
        a == b,
{
    assert(le32(a)[0] == le32(b)[0] && le32(a)[1] == le32(b)[1] && le32(a)[2] == le32(b)[2] && le32(a)[3] == le32(b)[3]);
    let a0 = a % 256;
    let b0 = b % 256;
    assert(a0 == b0);
    assert(a / 256 % 256 == b / 256 % 256);
    assert(a / 0x1_0000 % 256 == b / 0x1_0000 % 256);
    assert(a / 0x100_0000 == b / 0x100_0000);
    assert(a == b) by (bit_vector)
        requires
            a % 256 == b % 256,
            a / 256 % 256 == b / 256 % 256,
            a / 0x1_0000 % 256 == b / 0x1_0000 % 256,
            a / 0x100_0000 == b / 0x100_0000,
    ;
}

/// Distinct `i32`s have distinct bytes.
proof fn lemma_le_i32_injective(a: i32, b: i32)
    requires
        le_i32(a) == le_i32(b),
    ensures
        a == b,
{
    lemma_le32_injective(bits32(a), bits32(b));
}

/// Distinct points have distinct bytes.
proof fn lemma_point_bytes_injective(a: Vec2Fx, b: Vec2Fx)
    requires
        point_bytes(a) == point_bytes(b),
    ensures
        a == b,
{
    lemma_split_fixed(le_i32(a.x.0), le_i32(b.x.0), le_i32(a.y.0), le_i32(b.y.0));
    lemma_le_i32_injective(a.x.0, b.x.0);
    lemma_le_i32_injective(a.y.0, b.y.0);
}

/// Distinct handles have distinct bytes.
proof fn lemma_id_bytes_injective(a: EntityId, b: EntityId)
    requires
        id_bytes(a) == id_bytes(b),
    ensures
        a == b,
{
    broadcast use crate::entity::EntityId::lemma_eq;
    lemma_split_fixed(le32(a.idx()), le32(b.idx()), le32(a.gen()), le32(b.gen()));
    lemma_le32_injective(a.idx(), b.idx());
    lemma_le32_injective(a.gen(), b.gen());
}

/// A fight's sequel is read back from the front of a byte string, and the
/// rest is what follows it.
proof fn lemma_then_bytes_prefix(a: Then, b: Then, r1: Seq<u8>, r2: Seq<u8>)
    requires
        then_bytes(a) + r1 == then_bytes(b) + r2,
    ensures
        a == b,
        r1 == r2,
{
    assert((then_bytes(a) + r1)[0] == then_bytes(a)[0]);
    assert((then_bytes(b) + r2)[0] == then_bytes(b)[0]);
    match (a, b) {
        (Then::Idle, Then::Idle) => {
            lemma_split_fixed(then_bytes(a), then_bytes(b), r1, r2);
        },
        (Then::Return(p), Then::Return(q)) => {
            lemma_split_fixed(then_bytes(a), then_bytes(b), r1, r2);
            lemma_split_fixed(seq![1u8], seq![1u8], point_bytes(p), point_bytes(q));
            lemma_point_bytes_injective(p, q);
        },
        (Then::AttackMove(p), Then::AttackMove(q)) => {
            lemma_split_fixed(then_bytes(a), then_bytes(b), r1, r2);
            lemma_split_fixed(seq![2u8], seq![2u8], point_bytes(p), point_bytes(q));
            lemma_point_bytes_injective(p, q);
        },
        (Then::Patrol(p1, p2, l1), Then::Patrol(q1, q2, l2)) => {
            lemma_split_fixed(then_bytes(a), then_bytes(b), r1, r2);
            lemma_split_fixed(seq![3u8] + point_bytes(p1) + point_bytes(p2), seq![3u8] + point_bytes(q1) + point_bytes(q2), seq![l1], seq![l2]);
            assert(seq![l1][0] == seq![l2][0]);
            lemma_split_fixed(seq![3u8] + point_bytes(p1), seq![3u8] + point_bytes(q1), point_bytes(p2), point_bytes(q2));
            lemma_split_fixed(seq![3u8], seq![3u8], point_bytes(p1), point_bytes(q1));
            lemma_point_bytes_injective(p1, q1);
            lemma_point_bytes_injective(p2, q2);
        },
        _ => {},
    }
}

/// The tag byte an order's bytes start with.
spec fn order_tag(o: Order) -> u8 {
    match o {
        Order::Idle => 0,
        Order::Move { .. } => 1,
        Order::Gather { .. } => 2,
        Order::Build { .. } => 3,
        Order::Attack { .. } => 4,
        Order::AttackMove { .. } => 5,
        Order::Patrol { .. } => 6,
        Order::Flee { .. } => 7,
    }
}

proof fn lemma_order_tag(o: Order)
    ensures
        order_bytes(o).len() >= 1,
        order_bytes(o)[0] == order_tag(o),
{
}

proof fn lemma_phase_tag(p: GatherPhase)
    ensures
        phase_bytes(p).len() >= 1,
        phase_bytes(p)[0] == match p {
            GatherPhase::ToNode => 0u8,
            GatherPhase::Working => 1u8,
            GatherPhase::ToDropoff { .. } => 2u8,
        },
{
}

proof fn lemma_leash_tag(l: Option<(Vec2Fx, Fx)>)
    ensures
        leash_bytes(l).len() >= 1,
        leash_bytes(l)[0] == if l is Some { 1u8 } else { 0u8 },
{
}

/// Distinct chase limits have distinct bytes.
proof fn lemma_leash_bytes_injective(a: Option<(Vec2Fx, Fx)>, b: Option<(Vec2Fx, Fx)>)
    requires
        leash_bytes(a) == leash_bytes(b),
    ensures
        a == b,
{
    lemma_leash_tag(a);
    lemma_leash_tag(b);
    match (a, b) {
        (Some((o1, r1)), Some((o2, r2))) => {
            lemma_split_fixed(seq![1u8] + point_bytes(o1), seq![1u8] + point_bytes(o2), le_i32(r1.0), le_i32(r2.0));
            lemma_split_fixed(seq![1u8], seq![1u8], point_bytes(o1), point_bytes(o2));
            lemma_point_bytes_injective(o1, o2);
            lemma_le_i32_injective(r1.0, r2.0);
        },
        _ => {},
    }
}

/// Distinct gather phases have distinct bytes.
proof fn lemma_phase_bytes_injective(a: GatherPhase, b: GatherPhase)
    requires
        phase_bytes(a) == phase_bytes(b),
    ensures
        a == b,
{
    lemma_phase_tag(a);
    lemma_phase_tag(b);
    match (a, b) {
        (GatherPhase::ToDropoff { dropoff: d1 }, GatherPhase::ToDropoff { dropoff: d2 }) => {
            lemma_split_fixed(seq![2u8], seq![2u8], id_bytes(d1), id_bytes(d2));
            lemma_id_bytes_injective(d1, d2);
        },
        _ => {},
    }
}

/// Distinct orders feed a hasher distinct bytes: a variant tag, then a
/// payload that reads back only one way.
#[verifier::rlimit(40)]
pub proof fn lemma_order_bytes_injective(a: Order, b: Order)
    requires
        order_bytes(a) == order_bytes(b),
    ensures
        a == b,
{
    lemma_order_tag(a);
    lemma_order_tag(b);
    assert(order_tag(a) == order_tag(b));
    match (a, b) {
        (Order::Move { target: p }, Order::Move { target: q }) => {
            lemma_split_fixed(seq![1u8], seq![1u8], point_bytes(p), point_bytes(q));
            lemma_point_bytes_injective(p, q);
        },
        (Order::AttackMove { target: p }, Order::AttackMove { target: q }) => {
            lemma_split_fixed(seq![5u8], seq![5u8], point_bytes(p), point_bytes(q));
            lemma_point_bytes_injective(p, q);
        },
        (Order::Flee { target: p }, Order::Flee { target: q }) => {
            lemma_split_fixed(seq![7u8], seq![7u8], point_bytes(p), point_bytes(q));
            lemma_point_bytes_injective(p, q);
        },
        (Order::Gather { node: n1, resource: r1, phase: p1 }, Order::Gather { node: n2, resource: r2, phase: p2 }) => {
            let x = seq![2u8] + id_bytes(n1) + seq![resource_index(r1) as u8];
            let y = seq![2u8] + id_bytes(n2) + seq![resource_index(r2) as u8];
            lemma_split_fixed(x, y, phase_bytes(p1), phase_bytes(p2));
            lemma_phase_bytes_injective(p1, p2);
            lemma_split_fixed(seq![2u8] + id_bytes(n1), seq![2u8] + id_bytes(n2), seq![resource_index(r1) as u8], seq![
                resource_index(r2) as u8,
            ]);
            assert(seq![resource_index(r1) as u8][0] == seq![resource_index(r2) as u8][0]);
            lemma_split_fixed(seq![2u8], seq![2u8], id_bytes(n1), id_bytes(n2));
            lemma_id_bytes_injective(n1, n2);
        },
        (Order::Build { site: s1, working: w1 }, Order::Build { site: s2, working: w2 }) => {
            lemma_split_fixed(seq![3u8] + id_bytes(s1), seq![3u8] + id_bytes(s2), bool_byte(w1), bool_byte(w2));
            assert(bool_byte(w1)[0] == bool_byte(w2)[0]);
            lemma_split_fixed(seq![3u8], seq![3u8], id_bytes(s1), id_bytes(s2));
            lemma_id_bytes_injective(s1, s2);
        },
        (Order::Attack { target: t1, then: h1, leash: l1 }, Order::Attack { target: t2, then: h2, leash: l2 }) => {
            assert(order_bytes(a) == (seq![4u8] + id_bytes(t1)) + (then_bytes(h1) + leash_bytes(l1)));
            assert(order_bytes(b) == (seq![4u8] + id_bytes(t2)) + (then_bytes(h2) + leash_bytes(l2)));
            lemma_split_fixed(seq![4u8] + id_bytes(t1), seq![4u8] + id_bytes(t2), then_bytes(h1) + leash_bytes(l1), then_bytes(h2)
                + leash_bytes(l2));
            lemma_split_fixed(seq![4u8], seq![4u8], id_bytes(t1), id_bytes(t2));
            lemma_id_bytes_injective(t1, t2);
            lemma_then_bytes_prefix(h1, h2, leash_bytes(l1), leash_bytes(l2));
            lemma_leash_bytes_injective(l1, l2);
        },
        (Order::Patrol { from: f1, to: t1, leg: g1 }, Order::Patrol { from: f2, to: t2, leg: g2 }) => {
            lemma_split_fixed(seq![6u8] + point_bytes(f1) + point_bytes(t1), seq![6u8] + point_bytes(f2) + point_bytes(t2), seq![g1], seq![g2]);
            assert(seq![g1][0] == seq![g2][0]);
            lemma_split_fixed(seq![6u8] + point_bytes(f1), seq![6u8] + point_bytes(f2), point_bytes(t1), point_bytes(t2));
            lemma_split_fixed(seq![6u8], seq![6u8], point_bytes(f1), point_bytes(f2));
            lemma_point_bytes_injective(f1, f2);
            lemma_point_bytes_injective(t1, t2);
        },
        _ => {},
    }
}

} // verus!
