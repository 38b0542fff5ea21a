//! Ages and technologies.
//!
//! A technology is researched at a building, costs resources and time, and
//! on completion applies its effects to the owning player's modifiers.
//! Advancing an age is a technology like any other, researched at the Town
//! Center. The table is a spec function; [`info`] returns exactly its rows.

use vstd::prelude::*;
use core::cmp::Ordering;
use vstd::std_specs::cmp::PartialOrdSpecImpl;
use crate::fx_order::order_of;
use crate::kinds::{Resource, TOWN_CENTER, STOREHOUSE, MARKET};

verus! {

/// A technology id.
pub type TechId = u16;

/// The four ages.
#[derive(Clone, Copy, PartialEq, Eq, Structural, Ord, Hash, Debug, Default)]
pub enum Age {
    /// Hunter-gatherers.
    #[default]
    Stone,
    /// Farming and the first walls.
    Tool,
    /// Real armies.
    Bronze,
    /// Siege, elephants, wonders.
    Iron,
}

/// An age's position, 0 to 3.
pub open spec fn age_rank(a: Age) -> i32 {
    match a {
        Age::Stone => 0,
        Age::Tool => 1,
        Age::Bronze => 2,
        Age::Iron => 3,
    }
}

/// The age after `a`, if any.
pub open spec fn age_next(a: Age) -> Option<Age> {
    match a {
        Age::Stone => Some(Age::Tool),
        Age::Tool => Some(Age::Bronze),
        Age::Bronze => Some(Age::Iron),
        Age::Iron => None,
    }
}

impl Age {
    /// All four, in order.
    #[allow(non_snake_case)]
    pub fn ALL() -> (r: [Age; 4])
        ensures
            r@ == seq![Age::Stone, Age::Tool, Age::Bronze, Age::Iron],
    {
        let r = [Age::Stone, Age::Tool, Age::Bronze, Age::Iron];
        assert(r@ =~= seq![Age::Stone, Age::Tool, Age::Bronze, Age::Iron]);
        r
    }

    /// The age after this one, if any.
    pub fn next(self) -> (r: Option<Age>)
        ensures
            r == age_next(self),
    {
        match self {
            Age::Stone => Some(Age::Tool),
            Age::Tool => Some(Age::Bronze),
            Age::Bronze => Some(Age::Iron),
            Age::Iron => None,
        }
    }

    /// Display name.
    pub fn name(self) -> (r: &'static str)
        ensures
            r@ == match self {
                Age::Stone => "Stone Age"@,
                Age::Tool => "Tool Age"@,
                Age::Bronze => "Bronze Age"@,
                Age::Iron => "Iron Age"@,
            },
    {
        match self {
            Age::Stone => "Stone Age",
            Age::Tool => "Tool Age",
            Age::Bronze => "Bronze Age",
            Age::Iron => "Iron Age",
        }
    }

    /// Index 0..4.
    pub fn index(self) -> (r: usize)
        ensures
            r as int == age_rank(self),
    {
        match self {
            Age::Stone => 0,
            Age::Tool => 1,
            Age::Bronze => 2,
            Age::Iron => 3,
        }
    }

    /// From an index; out of range is Iron.
    pub fn from_index(i: usize) -> (r: Age)
        ensures
            i < 4 ==> age_rank(r) == i,
            i >= 4 ==> r == Age::Iron,
    {
        match i {
            0 => Age::Stone,
            1 => Age::Tool,
            2 => Age::Bronze,
            _ => Age::Iron,
        }
    }
}

impl PartialOrd for Age {
    fn partial_cmp(&self, other: &Age) -> (r: Option<Ordering>) {
        let a = self.index();
        let b = other.index();
        if a < b {
            Some(Ordering::Less)
        } else if a == b {
            Some(Ordering::Equal)
        } else {
            Some(Ordering::Greater)
        }
    }
}

impl PartialOrdSpecImpl for Age {
    open spec fn obeys_partial_cmp_spec() -> bool {
        true
    }

    open spec fn partial_cmp_spec(&self, other: &Age) -> Option<Ordering> {
        Some(order_of(age_rank(*self), age_rank(*other)))
    }
}

/// What a technology does when it completes.
#[derive(Clone, Copy, PartialEq, Eq, Structural, Debug)]
pub enum Effect {
    /// Gather rate for one resource, in percent added.
    GatherRate(Resource, i32),
    /// Extra units a villager carries.
    CarryCapacity(i32),
    /// Extra food a farm holds when seeded.
    FarmYield(i32),
    /// Villager walking speed, in percent added.
    VillagerSpeed(i32),
    /// Construction speed, in percent added.
    BuildSpeed(i32),
    /// Move the player to an age.
    AdvanceAge(Age),
}

/// Static properties of a technology.
#[derive(Clone, PartialEq, Eq, Debug)]
pub struct TechInfo {
    /// The id.
    pub id: u16,
    /// Display name.
    pub name: &'static str,
    /// Cost.
    pub cost: [i32; 4],
    /// Research time in seconds.
    pub seconds: i32,
    /// Where it is researched.
    pub building: u16,
    /// The player must be in at least this age. Age advances require the
    /// player to be in exactly the age before.
    pub age: Age,
    /// Technologies that must already be researched.
    pub requires: Vec<u16>,
    /// What it does.
    pub effects: Vec<Effect>,
}

/// The age an effect list advances to: the first age advance in it.
pub open spec fn advance_of(effects: Seq<Effect>) -> Option<Age>
    decreases effects.len(),
{
    if effects.len() == 0 {
        None
    } else {
        match effects[0] {
            Effect::AdvanceAge(a) => Some(a),
            _ => advance_of(effects.drop_first()),
        }
    }
}

impl TechInfo {
    /// Research time in ticks: seconds times the tick rate.
    pub fn ticks(&self) -> (r: u32)
        requires
            0 <= self.seconds * 20 <= u32::MAX,
        ensures
            r as int == self.seconds * 20,
    {
        (self.seconds as i64 * 20) as u32
    }

    /// The age this advances to, if it is an age advance.
    pub fn advances_age(&self) -> (r: Option<Age>)
        ensures
            r == advance_of(self.effects@),
    {
        let mut i: usize = 0;
        assert(self.effects@.skip(0) =~= self.effects@);
        while i < self.effects.len()
            invariant
                i <= self.effects@.len(),
                advance_of(self.effects@) == advance_of(self.effects@.skip(i as int)),
            decreases self.effects.len() - i,
        {
            assert(self.effects@.skip(i as int).drop_first() =~= self.effects@.skip(i + 1));
            match self.effects[i] {
                Effect::AdvanceAge(a) => return Some(a),
                _ => {},
            }
            i = i + 1;
        }
        None
    }
}

/// Advance to the Tool Age.
pub const AGE_TOOL: u16 = 1;
/// Advance to the Bronze Age.
pub const AGE_BRONZE: u16 = 2;
/// Advance to the Iron Age.
pub const AGE_IRON: u16 = 3;
/// +15% wood.
pub const WOODWORKING: u16 = 10;
/// +20% stone.
pub const STONE_MINING: u16 = 11;
/// +20% gold.
pub const GOLD_MINING: u16 = 12;
/// +5 carry capacity, +10% villager speed.
pub const CARRYING_BASKETS: u16 = 13;
/// +75 farm food.
pub const DOMESTICATION: u16 = 20;
/// +125 farm food.
pub const PLOUGH: u16 = 21;
/// +20% construction speed.
pub const SCAFFOLDING: u16 = 22;

/// Buildings of the current age needed to advance, excluding houses and the
/// Town Center.
pub const AGE_BUILDINGS_REQUIRED: usize = 2;

/// A row of the table, as plain values.
pub open spec fn row(
    id: u16,
    name: &'static str,
    cost: [i32; 4],
    seconds: i32,
    building: u16,
    age: Age,
    prereqs: Seq<u16>,
    effects: Seq<Effect>,
) -> TechRow {
    TechRow { id, name, cost, seconds, building, age, requires: prereqs, effects }
}

/// A technology's properties with its lists as sequences.
pub struct TechRow {
    /// The id.
    pub id: u16,
    /// Display name.
    pub name: &'static str,
    /// Cost.
    pub cost: [i32; 4],
    /// Research time in seconds.
    pub seconds: i32,
    /// Where it is researched.
    pub building: u16,
    /// The minimum age.
    pub age: Age,
    /// Prerequisites.
    pub requires: Seq<u16>,
    /// Effects.
    pub effects: Seq<Effect>,
}

/// The ids of the table, in table order.
pub open spec fn tech_ids() -> Seq<u16> {
    seq![AGE_TOOL, AGE_BRONZE, AGE_IRON, WOODWORKING, STONE_MINING, GOLD_MINING, CARRYING_BASKETS, DOMESTICATION, PLOUGH, SCAFFOLDING]
}

/// The table: the row for an id, if there is one.
pub open spec fn tech_row(id: u16) -> Option<TechRow> {
    if id == AGE_TOOL {
        Some(row(AGE_TOOL, "Tool Age", [400, 0, 0, 0], 60, TOWN_CENTER, Age::Stone, seq![], seq![Effect::AdvanceAge(Age::Tool)]))
    } else if id == AGE_BRONZE {
        Some(row(AGE_BRONZE, "Bronze Age", [800, 200, 0, 0], 90, TOWN_CENTER, Age::Tool, seq![AGE_TOOL], seq![Effect::AdvanceAge(Age::Bronze)]))
    } else if id == AGE_IRON {
        Some(row(AGE_IRON, "Iron Age", [1200, 0, 0, 500], 120, TOWN_CENTER, Age::Bronze, seq![AGE_BRONZE], seq![Effect::AdvanceAge(Age::Iron)]))
    } else if id == WOODWORKING {
        Some(row(WOODWORKING, "Woodworking", [60, 30, 0, 0], 40, STOREHOUSE, Age::Tool, seq![], seq![Effect::GatherRate(Resource::Wood, 15)]))
    } else if id == STONE_MINING {
        Some(row(STONE_MINING, "Stone Mining", [60, 0, 20, 0], 40, STOREHOUSE, Age::Tool, seq![], seq![Effect::GatherRate(Resource::Stone, 20)]))
    } else if id == GOLD_MINING {
        Some(row(GOLD_MINING, "Gold Mining", [60, 0, 0, 20], 40, STOREHOUSE, Age::Tool, seq![], seq![Effect::GatherRate(Resource::Gold, 20)]))
    } else if id == CARRYING_BASKETS {
        Some(row(CARRYING_BASKETS, "Carrying Baskets", [80, 40, 0, 0], 50, STOREHOUSE, Age::Bronze, seq![WOODWORKING], seq![Effect::CarryCapacity(5), Effect::VillagerSpeed(10)]))
    } else if id == DOMESTICATION {
        Some(row(DOMESTICATION, "Domestication", [100, 0, 0, 0], 40, MARKET, Age::Tool, seq![], seq![Effect::FarmYield(75)]))
    } else if id == PLOUGH {
        Some(row(PLOUGH, "Plough", [150, 50, 0, 0], 60, MARKET, Age::Bronze, seq![DOMESTICATION], seq![Effect::FarmYield(125)]))
    } else if id == SCAFFOLDING {
        Some(row(SCAFFOLDING, "Scaffolding", [50, 80, 0, 0], 40, MARKET, Age::Tool, seq![], seq![Effect::BuildSpeed(20)]))
    } else {
        None
    }
}

/// An executable technology matches a table row.
pub open spec fn matches_row(t: TechInfo, r: TechRow) -> bool {
    &&& t.id == r.id
    &&& t.name == r.name
    &&& t.cost == r.cost
    &&& t.seconds == r.seconds
    &&& t.building == r.building
    &&& t.age == r.age
    &&& t.requires@ == r.requires
    &&& t.effects@ == r.effects
}

fn make(
    id: u16,
    name: &'static str,
    cost: [i32; 4],
    seconds: i32,
    building: u16,
    age: Age,
    prereqs: Vec<u16>,
    effects: Vec<Effect>,
) -> (t: TechInfo)
    ensures
        matches_row(t, row(id, name, cost, seconds, building, age, prereqs@, effects@)),
{
    TechInfo { id, name, cost, seconds, building, age, requires: prereqs, effects }
}

/// A copy of a technology with the same fields and lists.
fn duplicate(t: &TechInfo) -> (r: TechInfo)
    ensures
        r.id == t.id && r.name == t.name && r.cost == t.cost && r.seconds == t.seconds
            && r.building == t.building && r.age == t.age && r.requires@ == t.requires@
            && r.effects@ == t.effects@,
{
    let mut prereqs: Vec<u16> = Vec::new();
    let mut i: usize = 0;
    while i < t.requires.len()
        invariant
            i <= t.requires@.len(),
            prereqs@ == t.requires@.take(i as int),
        decreases t.requires.len() - i,
    {
        prereqs.push(t.requires[i]);
        i = i + 1;
        assert(prereqs@ =~= t.requires@.take(i as int));
    }
    let mut effects: Vec<Effect> = Vec::new();
    let mut j: usize = 0;
    while j < t.effects.len()
        invariant
            j <= t.effects@.len(),
            effects@ == t.effects@.take(j as int),
        decreases t.effects.len() - j,
    {
        effects.push(t.effects[j]);
        j = j + 1;
        assert(effects@ =~= t.effects@.take(j as int));
    }
    assert(prereqs@ =~= t.requires@);
    assert(effects@ =~= t.effects@);
    TechInfo {
        id: t.id,
        name: t.name,
        cost: t.cost,
        seconds: t.seconds,
        building: t.building,
        age: t.age,
        requires: prereqs,
        effects,
    }
}

fn ids0() -> (r: Vec<u16>)
    ensures
        r@ == Seq::<u16>::empty(),
{
    Vec::new()
}

fn ids1(a: u16) -> (r: Vec<u16>)
    ensures
        r@ == seq![a],
{
    let mut v: Vec<u16> = Vec::new();
    v.push(a);
    assert(v@ =~= seq![a]);
    v
}

fn effects1(a: Effect) -> (r: Vec<Effect>)
    ensures
        r@ == seq![a],
{
    let mut v: Vec<Effect> = Vec::new();
    v.push(a);
    assert(v@ =~= seq![a]);
    v
}

fn effects2(a: Effect, b: Effect) -> (r: Vec<Effect>)
    ensures
        r@ == seq![a, b],
{
    let mut v: Vec<Effect> = Vec::new();
    v.push(a);
    v.push(b);
    assert(v@ =~= seq![a, b]);
    v
}

/// Looks up a technology.
pub fn info(id: u16) -> (r: Option<TechInfo>)
    ensures
        r is None <==> tech_row(id) is None,
        r is Some ==> matches_row(r->0, tech_row(id)->0),
{
    if id == AGE_TOOL {
        Some(make(AGE_TOOL, "Tool Age", [400, 0, 0, 0], 60, TOWN_CENTER, Age::Stone, ids0(), effects1(Effect::AdvanceAge(Age::Tool))))
    } else if id == AGE_BRONZE {
        Some(make(AGE_BRONZE, "Bronze Age", [800, 200, 0, 0], 90, TOWN_CENTER, Age::Tool, ids1(AGE_TOOL), effects1(Effect::AdvanceAge(Age::Bronze))))
    } else if id == AGE_IRON {
        Some(make(AGE_IRON, "Iron Age", [1200, 0, 0, 500], 120, TOWN_CENTER, Age::Bronze, ids1(AGE_BRONZE), effects1(Effect::AdvanceAge(Age::Iron))))
    } else if id == WOODWORKING {
        Some(make(WOODWORKING, "Woodworking", [60, 30, 0, 0], 40, STOREHOUSE, Age::Tool, ids0(), effects1(Effect::GatherRate(Resource::Wood, 15))))
    } else if id == STONE_MINING {
        Some(make(STONE_MINING, "Stone Mining", [60, 0, 20, 0], 40, STOREHOUSE, Age::Tool, ids0(), effects1(Effect::GatherRate(Resource::Stone, 20))))
    } else if id == GOLD_MINING {
        Some(make(GOLD_MINING, "Gold Mining", [60, 0, 0, 20], 40, STOREHOUSE, Age::Tool, ids0(), effects1(Effect::GatherRate(Resource::Gold, 20))))
    } else if id == CARRYING_BASKETS {
        Some(make(CARRYING_BASKETS, "Carrying Baskets", [80, 40, 0, 0], 50, STOREHOUSE, Age::Bronze, ids1(WOODWORKING), effects2(Effect::CarryCapacity(5), Effect::VillagerSpeed(10))))
    } else if id == DOMESTICATION {
        Some(make(DOMESTICATION, "Domestication", [100, 0, 0, 0], 40, MARKET, Age::Tool, ids0(), effects1(Effect::FarmYield(75))))
    } else if id == PLOUGH {
        Some(make(PLOUGH, "Plough", [150, 50, 0, 0], 60, MARKET, Age::Bronze, ids1(DOMESTICATION), effects1(Effect::FarmYield(125))))
    } else if id == SCAFFOLDING {
        Some(make(SCAFFOLDING, "Scaffolding", [50, 80, 0, 0], 40, MARKET, Age::Tool, ids0(), effects1(Effect::BuildSpeed(20))))
    } else {
        None
    }
}

/// Every technology, in table order.
pub fn all() -> (r: Vec<TechInfo>)
    ensures
        r@.len() == tech_ids().len(),
        forall|i: int|
            0 <= i < r@.len() ==> tech_row(tech_ids()[i]) is Some && #[trigger] matches_row(
                r@[i],
                tech_row(tech_ids()[i])->0,
            ),
{
    let ids: [u16; 10] = [AGE_TOOL, AGE_BRONZE, AGE_IRON, WOODWORKING, STONE_MINING, GOLD_MINING, CARRYING_BASKETS, DOMESTICATION, PLOUGH, SCAFFOLDING];
    assert(ids@ =~= tech_ids());
    let mut out: Vec<TechInfo> = Vec::new();
    let mut i: usize = 0;
    while i < 10
        invariant
            i <= 10,
            ids@ == tech_ids(),
            out@.len() == i,
            forall|j: int|
                0 <= j < i ==> tech_row(tech_ids()[j]) is Some && #[trigger] matches_row(
                    out@[j],
                    tech_row(tech_ids()[j])->0,
                ),
        decreases 10 - i,
    {
        match info(ids[i]) {
            Some(t) => out.push(t),
            None => {
                assert(false);
            },
        }
        i = i + 1;
    }
    out
}

/// Whether a technology id names a row researched at `kind`.
pub open spec fn researched_at(kind: u16) -> spec_fn(u16) -> bool {
    |id: u16| tech_row(id) is Some && tech_row(id)->0.building == kind
}

/// The technologies researched at `kind`, in table order: a technology is
/// among them exactly when its table row names `kind` as its building, and
/// none comes twice. The town centre offers the three age advances, the
/// storehouse the four gathering and carrying upgrades, the market the
/// three farming and building ones, and every other kind nothing.
pub proof fn lemma_at_building_rows(kind: u16)
    ensures
        forall|id: u16| #[trigger] tech_ids().filter(researched_at(kind)).contains(id)
            <==> (tech_row(id) is Some && tech_row(id)->0.building == kind),
        forall|a: int, b: int| 0 <= a < b < tech_ids().filter(researched_at(kind)).len()
            ==> tech_ids().filter(researched_at(kind))[a] != tech_ids().filter(researched_at(kind))[b],
        kind == TOWN_CENTER ==> tech_ids().filter(researched_at(kind)) == seq![AGE_TOOL, AGE_BRONZE, AGE_IRON],
        kind == STOREHOUSE ==> tech_ids().filter(researched_at(kind)) == seq![WOODWORKING, STONE_MINING, GOLD_MINING, CARRYING_BASKETS],
        kind == MARKET ==> tech_ids().filter(researched_at(kind)) == seq![DOMESTICATION, PLOUGH, SCAFFOLDING],
        kind != TOWN_CENTER && kind != STOREHOUSE && kind != MARKET ==> tech_ids().filter(researched_at(kind)).len() == 0,
{
    let f = tech_ids().filter(researched_at(kind));
    let t = tech_ids();
    reveal_with_fuel(Seq::<_>::filter, 11);
    assert(t.drop_last().drop_last().drop_last().drop_last().drop_last().drop_last().drop_last().drop_last().drop_last().drop_last() =~= Seq::<u16>::empty());
    assert(t.drop_last() =~= seq![AGE_TOOL, AGE_BRONZE, AGE_IRON, WOODWORKING, STONE_MINING, GOLD_MINING, CARRYING_BASKETS, DOMESTICATION, PLOUGH]);
    assert(t.drop_last().drop_last() =~= seq![AGE_TOOL, AGE_BRONZE, AGE_IRON, WOODWORKING, STONE_MINING, GOLD_MINING, CARRYING_BASKETS, DOMESTICATION]);
    assert(t.drop_last().drop_last().drop_last() =~= seq![AGE_TOOL, AGE_BRONZE, AGE_IRON, WOODWORKING, STONE_MINING, GOLD_MINING, CARRYING_BASKETS]);
    assert(t.drop_last().drop_last().drop_last().drop_last() =~= seq![AGE_TOOL, AGE_BRONZE, AGE_IRON, WOODWORKING, STONE_MINING, GOLD_MINING]);
    assert(t.drop_last().drop_last().drop_last().drop_last().drop_last() =~= seq![AGE_TOOL, AGE_BRONZE, AGE_IRON, WOODWORKING, STONE_MINING]);
    assert(t.drop_last().drop_last().drop_last().drop_last().drop_last().drop_last() =~= seq![AGE_TOOL, AGE_BRONZE, AGE_IRON, WOODWORKING]);
    assert(t.drop_last().drop_last().drop_last().drop_last().drop_last().drop_last().drop_last() =~= seq![AGE_TOOL, AGE_BRONZE, AGE_IRON]);
    assert(t.drop_last().drop_last().drop_last().drop_last().drop_last().drop_last().drop_last().drop_last() =~= seq![AGE_TOOL, AGE_BRONZE]);
    assert(t.drop_last().drop_last().drop_last().drop_last().drop_last().drop_last().drop_last().drop_last().drop_last() =~= seq![AGE_TOOL]);
    if kind == TOWN_CENTER {
        assert(f =~= seq![AGE_TOOL, AGE_BRONZE, AGE_IRON]);
    } else if kind == STOREHOUSE {
        assert(f =~= seq![WOODWORKING, STONE_MINING, GOLD_MINING, CARRYING_BASKETS]);
    } else if kind == MARKET {
        assert(f =~= seq![DOMESTICATION, PLOUGH, SCAFFOLDING]);
    } else {
        assert(f =~= Seq::<u16>::empty());
    }
    assert forall|id: u16| #[trigger] f.contains(id) <==> (tech_row(id) is Some && tech_row(id)->0.building == kind) by {
        if f.contains(id) {
            let j = choose|j: int| 0 <= j < f.len() && f[j] == id;
        }
    }
}

/// Technologies researched at a building kind, in table order.
pub fn at_building(kind: u16) -> (r: Vec<TechInfo>)
    ensures
        forall|i: int| 0 <= i < r@.len() ==> #[trigger] r@[i].building == kind,
        r@.len() == tech_ids().filter(researched_at(kind)).len(),
        forall|i: int| #![trigger r@[i]] 0 <= i < r@.len() ==> tech_row(tech_ids().filter(researched_at(kind))[i]) is Some && matches_row(r@[i], tech_row(tech_ids().filter(researched_at(kind))[i])->0),
{
    let table = all();
    let mut out: Vec<TechInfo> = Vec::new();
    let mut i: usize = 0;
    while i < table.len()
        invariant
            i <= table@.len(),
            table@.len() == tech_ids().len(),
            forall|j: int|
                0 <= j < table@.len() ==> tech_row(tech_ids()[j]) is Some && #[trigger] matches_row(
                    table@[j],
                    tech_row(tech_ids()[j])->0,
                ),
            forall|j: int| 0 <= j < out@.len() ==> #[trigger] out@[j].building == kind,
            out@.len() == tech_ids().take(i as int).filter(researched_at(kind)).len(),
            forall|j: int| #![trigger out@[j]] 0 <= j < out@.len() ==> tech_row(tech_ids().take(i as int).filter(researched_at(kind))[j]) is Some && matches_row(out@[j], tech_row(tech_ids().take(i as int).filter(researched_at(kind))[j])->0),
        decreases table.len() - i,
    {
        let ghost before = out@;
        assert(tech_ids().take(i + 1).drop_last() =~= tech_ids().take(i as int));
        reveal_with_fuel(Seq::<_>::filter, 1);
        assert(tech_ids().take(i + 1).last() == tech_ids()[i as int]);
        assert(matches_row(table@[i as int], tech_row(tech_ids()[i as int])->0));
        assert(researched_at(kind)(tech_ids()[i as int]) == (table@[i as int].building == kind));
        if table[i].building == kind {
            out.push(duplicate(&table[i]));
        }
        proof {
            let f0 = tech_ids().take(i as int).filter(researched_at(kind));
            let f1 = tech_ids().take(i + 1).filter(researched_at(kind));
            if researched_at(kind)(tech_ids()[i as int]) {
                assert(f1 == f0.push(tech_ids()[i as int]));
            } else {
                assert(f1 == f0);
            }
            assert forall|j: int| #![trigger out@[j]] 0 <= j < out@.len() implies tech_row(tech_ids().take(i + 1).filter(researched_at(kind))[j]) is Some && matches_row(out@[j], tech_row(tech_ids().take(i + 1).filter(researched_at(kind))[j])->0) by {
                if j < before.len() {
                    assert(out@[j] == before[j]);
                    assert(f1[j] == f0[j]);
                }
            }
        }
        i = i + 1;
    }
    assert(tech_ids().take(10) =~= tech_ids());
    out
}

/// The technology that advances from `age`, if any: the first in table
/// order of that age with an age advance among its effects.
pub fn age_advance(age: Age) -> (r: Option<TechInfo>)
    ensures
        r is Some ==> r->0.age == age && advance_of(r->0.effects@) is Some,
        r is Some ==> exists|i: int|
            0 <= i < tech_ids().len() && #[trigger] matches_row(r->0, tech_row(tech_ids()[i])->0) && tech_row(
                tech_ids()[i],
            ) is Some && forall|j: int|
                0 <= j < i ==> !(#[trigger] tech_row(tech_ids()[j])->0.age == age && advance_of(
                    tech_row(tech_ids()[j])->0.effects,
                ) is Some),
        r is None ==> forall|i: int|
            0 <= i < tech_ids().len() ==> !(#[trigger] tech_row(tech_ids()[i])->0.age == age
                && advance_of(tech_row(tech_ids()[i])->0.effects) is Some),
{
    let table = all();
    let mut i: usize = 0;
    while i < table.len()
        invariant
            i <= table@.len(),
            table@.len() == tech_ids().len(),
            forall|j: int|
                0 <= j < table@.len() ==> tech_row(tech_ids()[j]) is Some && #[trigger] matches_row(
                    table@[j],
                    tech_row(tech_ids()[j])->0,
                ),
            forall|j: int|
                0 <= j < i ==> !(#[trigger] tech_row(tech_ids()[j])->0.age == age && advance_of(
                    tech_row(tech_ids()[j])->0.effects,
                ) is Some),
        decreases table.len() - i,
    {
        assert(matches_row(table@[i as int], tech_row(tech_ids()[i as int])->0));
        if table[i].age == age && table[i].advances_age().is_some() {
            let t = duplicate(&table[i]);
            proof {
                assert(matches_row(t, tech_row(tech_ids()[i as int])->0));
            }
            return Some(t);
        }
        i = i + 1;
    }
    None
}

} // verus!
