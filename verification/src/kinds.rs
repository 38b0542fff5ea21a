//! The static table of entity kinds.
//!
//! The handful of kinds the world needs are defined here so the simulation,
//! the generator and the renderer agree on ids, footprints, costs and hit
//! points. The table is a spec function; [`info`] returns exactly its rows.

use vstd::prelude::*;
use crate::fx::{Fx, sat, round_div};
use crate::tech::Age;

verus! {

/// Index into the static unit/building data table.
pub type KindId = u16;

/// Villager: gathers, builds, repairs.
pub const VILLAGER: u16 = 1;
/// Scout: fast, wide vision, weak.
pub const SCOUT: u16 = 2;
/// Town Center: the settlement's heart.
pub const TOWN_CENTER: u16 = 10;
/// House: population.
pub const HOUSE: u16 = 11;
/// Storehouse: universal drop-off.
pub const STOREHOUSE: u16 = 12;
/// Barracks: infantry.
pub const BARRACKS: u16 = 13;
/// Farm: renewable food, reseeded for wood.
pub const FARM: u16 = 14;
/// Archery Range: ranged units.
pub const ARCHERY_RANGE: u16 = 15;
/// Stable: mounted units.
pub const STABLE: u16 = 16;
/// Market: economy technology and trade.
pub const MARKET: u16 = 17;
/// Watch Tower: static defence.
pub const WATCH_TOWER: u16 = 18;
/// Temple: priests.
pub const TEMPLE: u16 = 19;
/// Academy: heavy infantry.
pub const ACADEMY: u16 = 20;
/// Siege Workshop.
pub const SIEGE_WORKSHOP: u16 = 21;
/// Government Centre: civic upgrades.
pub const GOVERNMENT_CENTRE: u16 = 22;
/// A tree. Removed when its wood is exhausted.
pub const TREE: u16 = 100;
/// A berry bush.
pub const BERRY_BUSH: u16 = 101;
/// A gold vein.
pub const GOLD_MINE: u16 = 102;
/// A stone vein.
pub const STONE_MINE: u16 = 103;
/// A gazelle: huntable food that runs.
pub const GAZELLE: u16 = 110;

/// Owner id for things nobody owns: trees, mines, animals.
pub const GAIA: u8 = 255;

/// Wood to reseed a farm.
pub const FARM_RESEED_COST: [i32; 4] = [0, 60, 0, 0];

/// How much a villager carries before walking it home.
pub const CARRY_CAPACITY: i32 = 10;
/// Villagers that may work on one site at once; more do nothing.
pub const MAX_BUILDERS: usize = 5;
/// Units of construction work per builder per tick at normal speed.
pub const BUILD_WORK_PER_TICK: u32 = 100;
/// Simulation ticks per second.
pub const TICKS_PER_SECOND: u32 = 20;

/// A cost in `[food, wood, stone, gold]`.
pub type Cost = [i32; 4];

/// What a resource node yields.
#[derive(Clone, Copy, PartialEq, Eq, Structural, Debug)]
pub enum Resource {
    /// Food.
    Food,
    /// Wood.
    Wood,
    /// Stone.
    Stone,
    /// Gold.
    Gold,
}

/// A resource's stockpile index.
pub open spec fn resource_index(r: Resource) -> int {
    match r {
        Resource::Food => 0,
        Resource::Wood => 1,
        Resource::Stone => 2,
        Resource::Gold => 3,
    }
}

/// The raw value of the base gather rate, 0.45 per second.
pub open spec fn base_gather_raw() -> int {
    sat(round_div(45 * 65536int, 100))
}

impl Resource {
    /// All four, in stockpile order.
    #[allow(non_snake_case)]
    pub fn ALL() -> (r: [Resource; 4])
        ensures
            r@ == seq![Resource::Food, Resource::Wood, Resource::Stone, Resource::Gold],
    {
        let r = [Resource::Food, Resource::Wood, Resource::Stone, Resource::Gold];
        assert(r@ =~= seq![Resource::Food, Resource::Wood, Resource::Stone, Resource::Gold]);
        r
    }

    /// Index into a `[i32; 4]` stockpile.
    pub fn index(self) -> (r: usize)
        ensures
            r as int == resource_index(self),
            r < 4,
    {
        match self {
            Resource::Food => 0,
            Resource::Wood => 1,
            Resource::Stone => 2,
            Resource::Gold => 3,
        }
    }

    /// From a stockpile index; out of range is food.
    pub fn from_index(i: usize) -> (r: Resource)
        ensures
            i < 4 ==> resource_index(r) == i,
            i >= 4 ==> r == Resource::Food,
    {
        match i {
            1 => Resource::Wood,
            2 => Resource::Stone,
            3 => Resource::Gold,
            _ => Resource::Food,
        }
    }

    /// Display name.
    pub fn name(self) -> (r: &'static str)
        ensures
            r@ == match self {
                Resource::Food => "Food"@,
                Resource::Wood => "Wood"@,
                Resource::Stone => "Stone"@,
                Resource::Gold => "Gold"@,
            },
    {
        match self {
            Resource::Food => "Food",
            Resource::Wood => "Wood",
            Resource::Stone => "Stone",
            Resource::Gold => "Gold",
        }
    }

    /// Villager gather rate for this resource, in units per second. One base
    /// rate for all four.
    pub fn gather_rate(self) -> (r: Fx)
        ensures
            r.0 == base_gather_raw(),
    {
        base_gather_rate()
    }
}

/// The base gather rate, resources per second.
pub fn base_gather_rate() -> (r: Fx)
    ensures
        r.0 == base_gather_raw(),
{
    Fx::from_ratio(45, 100)
}

/// Static properties of a kind.
#[derive(Clone, Copy, PartialEq, Eq, Debug)]
pub struct KindInfo {
    /// The id this describes.
    pub id: u16,
    /// Display name.
    pub name: &'static str,
    /// Side length of the tile footprint; 0 for mobile units.
    pub footprint: u8,
    /// Hit points at full health.
    pub max_health: i32,
    /// Whether it can move.
    pub mobile: bool,
    /// Movement speed in tiles per second (mobile kinds only).
    pub speed_per_second: Fx,
    /// Resource carried, with the amount a fresh node holds.
    pub resource: Option<(Resource, i32)>,
    /// What it costs to build or train.
    pub cost: [i32; 4],
    /// Seconds to construct (buildings) or train (units).
    pub build_seconds: i32,
    /// Population supported once complete.
    pub pop_provided: u32,
    /// Population consumed while alive.
    pub pop_cost: u32,
    /// Accepts gathered resources.
    pub dropoff: bool,
    /// Trains villagers.
    pub trains: bool,
    /// A player may build it.
    pub buildable: bool,
    /// The age from which it is available.
    pub age: Age,
}

impl KindInfo {
    /// Construction or training time in ticks: seconds times the tick rate,
    /// as a 32-bit pattern.
    pub fn build_ticks(&self) -> (r: u32)
        requires
            i32::MIN <= self.build_seconds * 20 <= i32::MAX,
        ensures
            r as int == (self.build_seconds * 20) % 0x1_0000_0000,
    {
        let t: i32 = self.build_seconds * 20;
        proof {
            lemma_u32_pattern(t);
        }
        t as u32
    }

    /// Construction work to finish a site, in [`BUILD_WORK_PER_TICK`] units.
    pub fn build_work(&self) -> (r: u32)
        requires
            i32::MIN <= self.build_seconds * 20 <= i32::MAX,
            ((self.build_seconds * 20) % 0x1_0000_0000) * 100 <= u32::MAX,
        ensures
            r as int == ((self.build_seconds * 20) % 0x1_0000_0000) * 100,
    {
        self.build_ticks() * BUILD_WORK_PER_TICK
    }
}

proof fn lemma_u32_pattern(t: i32)
    ensures
        (t as u32) as int == (t as int) % 0x1_0000_0000,
{
    assert((t as u32) as int == (t as int) % 0x1_0000_0000) by (bit_vector);
}

/// The row every kind starts from.
pub open spec fn base_kind() -> KindInfo {
    KindInfo {
        id: 0,
        name: "Unknown",
        footprint: 0,
        max_health: 1,
        mobile: false,
        speed_per_second: Fx(0),
        resource: None,
        cost: [0, 0, 0, 0],
        build_seconds: 0,
        pop_provided: 0,
        pop_cost: 0,
        dropoff: false,
        trains: false,
        buildable: false,
        age: Age::Stone,
    }
}

/// A trainable unit.
pub open spec fn unit_kind(
    id: u16,
    name: &'static str,
    hp: i32,
    speed_tenths: i32,
    cost: [i32; 4],
    train_seconds: i32,
) -> KindInfo {
    KindInfo {
        id,
        name,
        max_health: hp,
        mobile: true,
        speed_per_second: Fx(sat(round_div(speed_tenths * 65536, 10)) as i32),
        cost,
        build_seconds: train_seconds,
        pop_cost: 1,
        ..base_kind()
    }
}

/// A building.
pub open spec fn building_kind(
    id: u16,
    name: &'static str,
    hp: i32,
    footprint: u8,
    cost: [i32; 4],
    seconds: i32,
) -> KindInfo {
    KindInfo { id, name, footprint, max_health: hp, cost, build_seconds: seconds, buildable: true, ..base_kind() }
}

/// A resource node.
pub open spec fn node_kind(id: u16, name: &'static str, hp: i32, r: Resource, amount: i32) -> KindInfo {
    KindInfo { id, name, footprint: 1, max_health: hp, resource: Some((r, amount)), ..base_kind() }
}

/// What an unknown id reads as: a harmless mobile placeholder.
pub open spec fn unknown_kind() -> KindInfo {
    KindInfo { mobile: true, speed_per_second: Fx(65536), ..base_kind() }
}

/// The table.
pub open spec fn kind_info(kind: u16) -> KindInfo {
    if kind == VILLAGER {
        unit_kind(VILLAGER, "Villager", 25, 9, [50, 0, 0, 0], 25)
    } else if kind == SCOUT {
        unit_kind(SCOUT, "Scout", 45, 16, [60, 0, 0, 0], 30)
    } else if kind == TOWN_CENTER {
        KindInfo {
            pop_provided: 5,
            dropoff: true,
            trains: true,
            ..building_kind(TOWN_CENTER, "Town Center", 600, 3, [0, 200, 0, 0], 120)
        }
    } else if kind == HOUSE {
        KindInfo { pop_provided: 5, ..building_kind(HOUSE, "House", 75, 2, [0, 30, 0, 0], 25) }
    } else if kind == STOREHOUSE {
        KindInfo { dropoff: true, ..building_kind(STOREHOUSE, "Storehouse", 200, 2, [0, 100, 0, 0], 30) }
    } else if kind == BARRACKS {
        building_kind(BARRACKS, "Barracks", 350, 2, [0, 125, 0, 0], 45)
    } else if kind == FARM {
        KindInfo {
            age: Age::Tool,
            resource: Some((Resource::Food, 250)),
            ..building_kind(FARM, "Farm", 60, 2, [0, 75, 0, 0], 20)
        }
    } else if kind == ARCHERY_RANGE {
        KindInfo { age: Age::Tool, ..building_kind(ARCHERY_RANGE, "Archery Range", 350, 2, [0, 150, 0, 0], 45) }
    } else if kind == STABLE {
        KindInfo { age: Age::Tool, ..building_kind(STABLE, "Stable", 350, 2, [0, 150, 0, 0], 45) }
    } else if kind == MARKET {
        KindInfo { age: Age::Tool, ..building_kind(MARKET, "Market", 300, 2, [0, 150, 0, 0], 45) }
    } else if kind == WATCH_TOWER {
        KindInfo { age: Age::Tool, ..building_kind(WATCH_TOWER, "Watch Tower", 250, 1, [0, 0, 120, 0], 40) }
    } else if kind == TEMPLE {
        KindInfo { age: Age::Bronze, ..building_kind(TEMPLE, "Temple", 400, 2, [0, 200, 0, 0], 60) }
    } else if kind == ACADEMY {
        KindInfo { age: Age::Bronze, ..building_kind(ACADEMY, "Academy", 400, 2, [0, 200, 0, 0], 60) }
    } else if kind == SIEGE_WORKSHOP {
        KindInfo {
            age: Age::Bronze,
            ..building_kind(SIEGE_WORKSHOP, "Siege Workshop", 400, 2, [0, 200, 0, 0], 60)
        }
    } else if kind == GOVERNMENT_CENTRE {
        KindInfo {
            age: Age::Bronze,
            ..building_kind(GOVERNMENT_CENTRE, "Government Centre", 400, 2, [0, 175, 0, 0], 60)
        }
    } else if kind == TREE {
        node_kind(TREE, "Tree", 20, Resource::Wood, 75)
    } else if kind == BERRY_BUSH {
        node_kind(BERRY_BUSH, "Berry Bush", 1, Resource::Food, 150)
    } else if kind == GOLD_MINE {
        node_kind(GOLD_MINE, "Gold Vein", 1, Resource::Gold, 400)
    } else if kind == STONE_MINE {
        node_kind(STONE_MINE, "Stone Vein", 1, Resource::Stone, 350)
    } else if kind == GAZELLE {
        KindInfo {
            id: GAZELLE,
            name: "Gazelle",
            max_health: 8,
            mobile: true,
            speed_per_second: Fx(sat(round_div(14 * 65536int, 10)) as i32),
            resource: Some((Resource::Food, 140)),
            ..base_kind()
        }
    } else {
        unknown_kind()
    }
}

/// The ids of the table, in table order.
pub open spec fn kind_ids() -> Seq<u16> {
    seq![
        VILLAGER, SCOUT, TOWN_CENTER, HOUSE, STOREHOUSE, BARRACKS, FARM, ARCHERY_RANGE, STABLE,
        MARKET, WATCH_TOWER, TEMPLE, ACADEMY, SIEGE_WORKSHOP, GOVERNMENT_CENTRE, TREE, BERRY_BUSH,
        GOLD_MINE, STONE_MINE, GAZELLE,
    ]
}

fn base() -> (r: KindInfo)
    ensures
        r == base_kind(),
{
    KindInfo {
        id: 0,
        name: "Unknown",
        footprint: 0,
        max_health: 1,
        mobile: false,
        speed_per_second: Fx(0),
        resource: None,
        cost: [0, 0, 0, 0],
        build_seconds: 0,
        pop_provided: 0,
        pop_cost: 0,
        dropoff: false,
        trains: false,
        buildable: false,
        age: Age::Stone,
    }
}

fn unit(
    id: u16,
    name: &'static str,
    hp: i32,
    speed_tenths: i32,
    cost: [i32; 4],
    train_seconds: i32,
) -> (r: KindInfo)
    ensures
        r == unit_kind(id, name, hp, speed_tenths, cost, train_seconds),
{
    KindInfo {
        id,
        name,
        max_health: hp,
        mobile: true,
        speed_per_second: Fx::from_ratio(speed_tenths, 10),
        cost,
        build_seconds: train_seconds,
        pop_cost: 1,
        ..base()
    }
}

fn building(id: u16, name: &'static str, hp: i32, footprint: u8, cost: [i32; 4], seconds: i32) -> (r:
    KindInfo)
    ensures
        r == building_kind(id, name, hp, footprint, cost, seconds),
{
    KindInfo { id, name, footprint, max_health: hp, cost, build_seconds: seconds, buildable: true, ..base() }
}

fn node(id: u16, name: &'static str, hp: i32, r: Resource, amount: i32) -> (k: KindInfo)
    ensures
        k == node_kind(id, name, hp, r, amount),
{
    KindInfo { id, name, footprint: 1, max_health: hp, resource: Some((r, amount)), ..base() }
}

/// Looks up a kind. Unknown ids get a harmless default rather than a panic,
/// because a replay from a newer build must not crash an older one outright.
pub fn info(kind: u16) -> (r: KindInfo)
    ensures
        r == kind_info(kind),
{
    if kind == VILLAGER {
        unit(VILLAGER, "Villager", 25, 9, [50, 0, 0, 0], 25)
    } else if kind == SCOUT {
        unit(SCOUT, "Scout", 45, 16, [60, 0, 0, 0], 30)
    } else if kind == TOWN_CENTER {
        KindInfo {
            pop_provided: 5,
            dropoff: true,
            trains: true,
            ..building(TOWN_CENTER, "Town Center", 600, 3, [0, 200, 0, 0], 120)
        }
    } else if kind == HOUSE {
        KindInfo { pop_provided: 5, ..building(HOUSE, "House", 75, 2, [0, 30, 0, 0], 25) }
    } else if kind == STOREHOUSE {
        KindInfo { dropoff: true, ..building(STOREHOUSE, "Storehouse", 200, 2, [0, 100, 0, 0], 30) }
    } else if kind == BARRACKS {
        building(BARRACKS, "Barracks", 350, 2, [0, 125, 0, 0], 45)
    } else if kind == FARM {
        KindInfo {
            age: Age::Tool,
            resource: Some((Resource::Food, 250)),
            ..building(FARM, "Farm", 60, 2, [0, 75, 0, 0], 20)
        }
    } else if kind == ARCHERY_RANGE {
        KindInfo { age: Age::Tool, ..building(ARCHERY_RANGE, "Archery Range", 350, 2, [0, 150, 0, 0], 45) }
    } else if kind == STABLE {
        KindInfo { age: Age::Tool, ..building(STABLE, "Stable", 350, 2, [0, 150, 0, 0], 45) }
    } else if kind == MARKET {
        KindInfo { age: Age::Tool, ..building(MARKET, "Market", 300, 2, [0, 150, 0, 0], 45) }
    } else if kind == WATCH_TOWER {
        KindInfo { age: Age::Tool, ..building(WATCH_TOWER, "Watch Tower", 250, 1, [0, 0, 120, 0], 40) }
    } else if kind == TEMPLE {
        KindInfo { age: Age::Bronze, ..building(TEMPLE, "Temple", 400, 2, [0, 200, 0, 0], 60) }
    } else if kind == ACADEMY {
        KindInfo { age: Age::Bronze, ..building(ACADEMY, "Academy", 400, 2, [0, 200, 0, 0], 60) }
    } else if kind == SIEGE_WORKSHOP {
        KindInfo { age: Age::Bronze, ..building(SIEGE_WORKSHOP, "Siege Workshop", 400, 2, [0, 200, 0, 0], 60) }
    } else if kind == GOVERNMENT_CENTRE {
        KindInfo {
            age: Age::Bronze,
            ..building(GOVERNMENT_CENTRE, "Government Centre", 400, 2, [0, 175, 0, 0], 60)
        }
    } else if kind == TREE {
        node(TREE, "Tree", 20, Resource::Wood, 75)
    } else if kind == BERRY_BUSH {
        node(BERRY_BUSH, "Berry Bush", 1, Resource::Food, 150)
    } else if kind == GOLD_MINE {
        node(GOLD_MINE, "Gold Vein", 1, Resource::Gold, 400)
    } else if kind == STONE_MINE {
        node(STONE_MINE, "Stone Vein", 1, Resource::Stone, 350)
    } else if kind == GAZELLE {
        KindInfo {
            id: GAZELLE,
            name: "Gazelle",
            max_health: 8,
            mobile: true,
            speed_per_second: Fx::from_ratio(14, 10),
            resource: Some((Resource::Food, 140)),
            ..base()
        }
    } else {
        KindInfo { mobile: true, speed_per_second: Fx::ONE(), ..base() }
    }
}

/// Every known kind, in table order.
pub fn all() -> (r: Vec<KindInfo>)
    ensures
        r@.len() == kind_ids().len(),
        forall|i: int| 0 <= i < r@.len() ==> #[trigger] r@[i] == kind_info(kind_ids()[i]),
{
    let ids: [u16; 20] = [
        VILLAGER, SCOUT, TOWN_CENTER, HOUSE, STOREHOUSE, BARRACKS, FARM, ARCHERY_RANGE, STABLE,
        MARKET, WATCH_TOWER, TEMPLE, ACADEMY, SIEGE_WORKSHOP, GOVERNMENT_CENTRE, TREE, BERRY_BUSH,
        GOLD_MINE, STONE_MINE, GAZELLE,
    ];
    assert(ids@ =~= kind_ids());
    let mut out: Vec<KindInfo> = Vec::new();
    let mut i: usize = 0;
    while i < 20
        invariant
            i <= 20,
            ids@ == kind_ids(),
            out@.len() == i,
            forall|j: int| 0 <= j < i ==> #[trigger] out@[j] == kind_info(kind_ids()[j]),
        decreases 20 - i,
    {
        out.push(info(ids[i]));
        i = i + 1;
    }
    out
}

/// True if a villager can gather from this kind: a static node with a
/// resource. Farms count, but only their owner may work them.
pub fn gatherable(kind: u16) -> (r: bool)
    ensures
        r == (kind_info(kind).resource is Some && !kind_info(kind).mobile),
{
    let k = info(kind);
    k.resource.is_some() && !k.mobile
}

/// Buildings that count toward advancing an age: what a player builds,
/// less the Town Center, Houses and Farms.
pub fn counts_for_age(kind: u16) -> (r: bool)
    ensures
        r == (kind_info(kind).buildable && !kind_info(kind).mobile && kind != HOUSE && kind
            != TOWN_CENTER && kind != FARM),
{
    let k = info(kind);
    k.buildable && !k.mobile && kind != HOUSE && kind != TOWN_CENTER && kind != FARM
}

/// Every row of the table is found again under its own id, and mobile
/// kinds, and only they, have no footprint.
pub proof fn lemma_table_consistent()
    ensures
        forall|i: int| 0 <= i < kind_ids().len() ==> #[trigger] kind_info(kind_ids()[i]).id == kind_ids()[i],
        forall|i: int|
            0 <= i < kind_ids().len() ==> (#[trigger] kind_info(kind_ids()[i]).mobile <==> kind_info(kind_ids()[i]).footprint == 0),
        forall|i: int| 0 <= i < kind_ids().len() ==> #[trigger] kind_info(kind_ids()[i]).max_health > 0,
        forall|i: int, j: int| 0 <= i < j < kind_ids().len() ==> kind_ids()[i] != kind_ids()[j],
{
}

} // verus!
