//! Seeded random map generation.
//!
//! A replay needs only a seed and a [`MapSpec`]: the map itself is
//! reproduced, never stored. Everything here draws from the simulation's own
//! [`Rng`] and fixed-point maths, so the same seed yields the same map on
//! every machine.
//!
//! An inland map gives every player the same kit at its start (a Town
//! Center, three villagers and a scout; nothing else is a player's), every
//! start can walk to every other over tiles that are neither water nor
//! under scenery, and neighbouring elevation corners differ by at most one
//! level. The walk is checked before the map is returned: a seed whose map
//! fails it moves on to the next derived seed, and after a bounded number
//! of attempts the generator falls back to a flat map.

use vstd::prelude::*;
use crate::angle::Angle;
use crate::fx::{Fx, sat, round_div};
use crate::kinds::{info, kind_info, GAIA, TOWN_CENTER, VILLAGER, SCOUT, BERRY_BUSH, GOLD_MINE, STONE_MINE, TREE, GAZELLE};
use crate::map::{Terrain, TileMap, MAX_ELEVATION, is_water_spec};
use crate::nav::{building_centre, centre, centre_spec, building_centre_raw};
use crate::noise::{Fbm, unit_draw, words_after};
use crate::entity::{count_true, lemma_count_update, lemma_count_le};
use crate::rng::{Rng, below_spec, xoshiro_next};
use crate::vec2::Vec2Fx;
use std::collections::VecDeque;

verus! {

/// Which generator to run.
#[derive(Clone, Copy, PartialEq, Eq, Structural, Debug)]
pub enum MapKind {
    /// Flat, empty grass. For tests and benchmarks.
    Flat,
    /// Land only: rolling hills, forests, scattered mines.
    Inland,
}

/// Map generation parameters.
#[derive(Clone, Copy, PartialEq, Eq, Structural, Debug)]
pub struct MapSpec {
    /// Generator.
    pub kind: MapKind,
    /// Edge length in tiles; maps are square. Clamped to `48..=256`.
    pub size: u16,
    /// Number of player starts, `1..=8`.
    pub players: u8,
}

impl Default for MapSpec {
    /// An inland map 128 tiles across for two players.
    fn default() -> (r: MapSpec)
        ensures
            r == (MapSpec { kind: MapKind::Inland, size: 128, players: 2 }),
    {
        MapSpec { kind: MapKind::Inland, size: 128, players: 2 }
    }
}

/// An entity the generator wants placed at match start.
#[derive(Clone, Copy, PartialEq, Eq, Structural, Debug)]
pub struct Spawn {
    /// What.
    pub kind: u16,
    /// Whose; [`GAIA`] for nobody's.
    pub owner: u8,
    /// Where, in tiles. Buildings are centred on their footprint.
    pub pos: Vec2Fx,
}

/// A generated map.
#[derive(Clone, PartialEq, Eq, Debug)]
pub struct Generated {
    /// Terrain and elevation.
    pub tiles: TileMap,
    /// Everything to spawn.
    pub spawns: Vec<Spawn>,
    /// Each player's Town Center tile, indexed by player.
    pub starts: Vec<(i32, i32)>,
    /// How many seeds were tried before one passed verification.
    pub attempts: u32,
}

/// The value clamped into `lo..=hi`.
pub open spec fn clamp_int(v: int, lo: int, hi: int) -> int {
    if v < lo { lo } else if v > hi { hi } else { v }
}

/// What occupies a tile while the map is being laid out.
#[derive(Clone, Copy, PartialEq, Eq, Structural)]
enum Occ {
    Free,
    /// A tree, mine, bush or building footprint; not walkable.
    Blocked,
    /// Kept clear of scenery so the player has room to build.
    Reserved,
}

/// The generator's working state.
struct Gen {
    size: i32,
    tiles: TileMap,
    occ: Vec<Occ>,
    spawns: Vec<Spawn>,
    starts: Vec<(i32, i32)>,
}

/// Draws a blob may take for `count` objects: two per try, at most nine
/// tries per object.
pub open spec fn blob_draws(count: int) -> int {
    18 * count
}

/// Every start lies inside the margin the generator keeps.
pub open spec fn starts_inside(starts: Seq<(i32, i32)>, size: int) -> bool {
    forall|k: int| 0 <= k < starts.len() ==> 12 <= (#[trigger] starts[k]).0 <= size - 13 && 12 <= starts[k].1 <= size - 13
}

/// The sizes a map of edge `size` gives, for `size` up to 256.
proof fn lemma_area(size: int)
    requires
        0 <= size <= 256,
    ensures
        0 <= size * size <= 65536,
        (size + 1) * (size + 1) <= 66049,
        2 * (size + 2) * (size + 2) <= 150_000,
        2 * (size + 3) * (size + 3) <= 150_000,
{
    assert(0 <= size * size <= 65536) by (nonlinear_arith)
        requires 0 <= size <= 256;
    assert((size + 1) * (size + 1) <= 66049) by (nonlinear_arith)
        requires 0 <= size <= 256;
    assert(2 * (size + 2) * (size + 2) <= 150_000) by (nonlinear_arith)
        requires 0 <= size <= 256;
    assert(2 * (size + 3) * (size + 3) <= 150_000) by (nonlinear_arith)
        requires 0 <= size <= 256;
}

/// The predicate of an entity some player owns.
pub open spec fn player_owned() -> spec_fn(Spawn) -> bool {
    |x: Spawn| x.owner != GAIA
}

/// The spawns some player owns, in order.
pub open spec fn owned_spawns(s: Seq<Spawn>) -> Seq<Spawn> {
    s.filter(player_owned())
}

/// Where a building with footprint `fp` anchored on `(x, y)` stands.
pub open spec fn building_pos(x: int, y: int, fp: int) -> Vec2Fx {
    Vec2Fx { x: Fx(building_centre_raw(x, fp) as i32), y: Fx(building_centre_raw(y, fp) as i32) }
}

/// What every player gets at its start: a Town Center on it, three
/// villagers in the row two below it, and a scout two up and two right.
pub open spec fn kit(p: u8, start: (i32, i32)) -> Seq<Spawn> {
    let sx = start.0 as int;
    let sy = start.1 as int;
    seq![
        Spawn { kind: TOWN_CENTER, owner: p, pos: building_pos(sx, sy, kind_info(TOWN_CENTER).footprint as int) },
        Spawn { kind: VILLAGER, owner: p, pos: centre_spec(((sx - 1) as i32, (sy + 2) as i32)) },
        Spawn { kind: VILLAGER, owner: p, pos: centre_spec((sx as i32, (sy + 2) as i32)) },
        Spawn { kind: VILLAGER, owner: p, pos: centre_spec(((sx + 1) as i32, (sy + 2) as i32)) },
        Spawn { kind: SCOUT, owner: p, pos: centre_spec(((sx + 2) as i32, (sy - 2) as i32)) },
    ]
}

/// The kits of the first `n` players, player by player.
pub open spec fn kits(starts: Seq<(i32, i32)>, n: int) -> Seq<Spawn>
    decreases n,
{
    if n <= 0 {
        Seq::empty()
    } else {
        kits(starts, n - 1) + kit((n - 1) as u8, starts[n - 1])
    }
}

/// Every entry of `new` past the length of `old` is nobody's, and the
/// entries before it are those of `old`.
pub open spec fn appends_gaia(old: Seq<Spawn>, new: Seq<Spawn>) -> bool {
    &&& new.len() >= old.len()
    &&& forall|k: int| 0 <= k < old.len() ==> #[trigger] new[k] == old[k]
    &&& forall|k: int| old.len() <= k < new.len() ==> (#[trigger] new[k]).owner == GAIA
}

proof fn lemma_owned_append(a: Seq<Spawn>, b: Seq<Spawn>)
    ensures
        owned_spawns(a + b) == owned_spawns(a) + owned_spawns(b),
{
    Seq::filter_distributes_over_add(a, b, player_owned());
}

proof fn lemma_owned_all(s: Seq<Spawn>)
    requires
        forall|k: int| 0 <= k < s.len() ==> (#[trigger] s[k]).owner != GAIA,
    ensures
        owned_spawns(s) == s,
    decreases s.len(),
{
    reveal(Seq::filter);
    if s.len() > 0 {
        lemma_owned_all(s.drop_last());
        assert(s.drop_last().push(s.last()) =~= s);
    } else {
        assert(s.filter(player_owned()) == s);
    }
}

proof fn lemma_owned_none(s: Seq<Spawn>)
    requires
        forall|k: int| 0 <= k < s.len() ==> (#[trigger] s[k]).owner == GAIA,
    ensures
        owned_spawns(s) == Seq::<Spawn>::empty(),
{
    s.lemma_all_neg_filter_empty(player_owned());
    assert(owned_spawns(s) =~= Seq::<Spawn>::empty());
}

/// The tile a point stands on.
pub open spec fn tile_at_point(p: Vec2Fx) -> (int, int) {
    (p.x.0 as int / 65536, p.y.0 as int / 65536)
}

/// A spawn that does not move covers the tiles of its footprint: those
/// within half the footprint's side of the tile it stands on.
pub open spec fn blocks(s: Spawn, x: int, y: int) -> bool {
    &&& !kind_info(s.kind).mobile
    &&& crate::nav::cheb(x - tile_at_point(s.pos).0, y - tile_at_point(s.pos).1) <= kind_info(s.kind).footprint as int / 2
}

/// A unit can stand on the tile: on the map, not water, and covered by no
/// spawn.
pub open spec fn clear_tile(tiles: TileMap, spawns: Seq<Spawn>, x: int, y: int) -> bool {
    &&& tiles.in_map(x, y)
    &&& !is_water_spec(tiles.tile_at(x, y))
    &&& forall|k: int| 0 <= k < spawns.len() ==> !blocks(#[trigger] spawns[k], x, y)
}

/// Orthogonal steps over clear tiles.
pub open spec fn clear_walk(tiles: TileMap, spawns: Seq<Spawn>, p: Seq<(i32, i32)>) -> bool {
    &&& p.len() >= 1
    &&& forall|k: int| 0 <= k < p.len() ==> clear_tile(tiles, spawns, (#[trigger] p[k]).0 as int, p[k].1 as int)
    &&& forall|k: int| 0 <= k < p.len() - 1 ==> {
        let dx = (#[trigger] p[k + 1]).0 - p[k].0;
        let dy = p[k + 1].1 - p[k].1;
        (dx == 0 && (dy == 1 || dy == -1)) || (dy == 0 && (dx == 1 || dx == -1))
    }
}

/// A unit can walk from `a` to `b` over clear tiles.
pub open spec fn reaches(tiles: TileMap, spawns: Seq<Spawn>, a: (i32, i32), b: (i32, i32)) -> bool {
    exists|p: Seq<(i32, i32)>| #[trigger] clear_walk(tiles, spawns, p) && p[0] == a && p.last() == b
}

/// Walking a walk backwards is a walk.
proof fn lemma_walk_back(tiles: TileMap, spawns: Seq<Spawn>, p: Seq<(i32, i32)>) -> (q: Seq<(i32, i32)>)
    requires
        clear_walk(tiles, spawns, p),
    ensures
        clear_walk(tiles, spawns, q),
        q.len() == p.len(),
        q[0] == p.last(),
        q.last() == p[0],
{
    let n = p.len() as int;
    let q = Seq::new(n as nat, |i: int| p[n - 1 - i]);
    assert forall|k: int| 0 <= k < q.len() implies clear_tile(tiles, spawns, (#[trigger] q[k]).0 as int, q[k].1 as int) by {
        assert(q[k] == p[n - 1 - k]);
    }
    assert forall|k: int| 0 <= k < q.len() - 1 implies {
        let dx = (#[trigger] q[k + 1]).0 - q[k].0;
        let dy = q[k + 1].1 - q[k].1;
        (dx == 0 && (dy == 1 || dy == -1)) || (dy == 0 && (dx == 1 || dx == -1))
    } by {
        let j = n - 2 - k;
        assert(q[k] == p[j + 1] && q[k + 1] == p[j]);
        let ex = p[j + 1].0 - p[j].0;
        let ey = p[j + 1].1 - p[j].1;
        assert((ex == 0 && (ey == 1 || ey == -1)) || (ey == 0 && (ex == 1 || ex == -1)));
    }
    q
}

/// A walk from `a` to `b` and one from `b` to `c` make one from `a` to `c`.
proof fn lemma_walk_join(tiles: TileMap, spawns: Seq<Spawn>, p: Seq<(i32, i32)>, q: Seq<(i32, i32)>) -> (w: Seq<(i32, i32)>)
    requires
        clear_walk(tiles, spawns, p),
        clear_walk(tiles, spawns, q),
        p.last() == q[0],
    ensures
        clear_walk(tiles, spawns, w),
        w[0] == p[0],
        w.last() == q.last(),
{
    let t = q.subrange(1, q.len() as int);
    let w = p + t;
    let n = p.len() as int;
    assert forall|k: int| 0 <= k < w.len() implies clear_tile(tiles, spawns, (#[trigger] w[k]).0 as int, w[k].1 as int) by {
        if k < n {
            assert(w[k] == p[k]);
        } else {
            assert(w[k] == q[k - n + 1]);
        }
    }
    assert forall|k: int| 0 <= k < w.len() - 1 implies {
        let dx = (#[trigger] w[k + 1]).0 - w[k].0;
        let dy = w[k + 1].1 - w[k].1;
        (dx == 0 && (dy == 1 || dy == -1)) || (dy == 0 && (dx == 1 || dx == -1))
    } by {
        if k < n - 1 {
            assert(w[k] == p[k] && w[k + 1] == p[k + 1]);
        } else {
            let j = k - n + 1;
            assert(w[k + 1] == q[j + 1]);
            if k == n - 1 {
                assert(w[k] == p[n - 1]);
                assert(w[k] == q[0]);
            } else {
                assert(w[k] == q[j]);
            }
            let ex = q[j + 1].0 - q[j].0;
            let ey = q[j + 1].1 - q[j].1;
            assert((ex == 0 && (ey == 1 || ey == -1)) || (ey == 0 && (ex == 1 || ex == -1)));
        }
    }
    if q.len() == 1 {
        assert(w =~= p);
    } else {
        assert(w.last() == q.last());
    }
    w
}

/// Every start can walk to every other one: when each reaches the first,
/// any two reach each other, through the first.
pub proof fn lemma_starts_connected_pairwise(tiles: TileMap, spawns: Seq<Spawn>, starts: Seq<(i32, i32)>)
    requires
        starts.len() > 0,
        forall|k: int| 0 <= k < starts.len() ==> reaches(tiles, spawns, villager_row(starts[0]), villager_row(#[trigger] starts[k])),
    ensures
        forall|i: int, j: int| 0 <= i < starts.len() && 0 <= j < starts.len() ==> reaches(tiles, spawns, villager_row(
            #[trigger] starts[i]), villager_row(#[trigger] starts[j])),
{
    let o = villager_row(starts[0]);
    assert forall|i: int, j: int| 0 <= i < starts.len() && 0 <= j < starts.len() implies reaches(tiles, spawns, villager_row(
        #[trigger] starts[i]), villager_row(#[trigger] starts[j])) by {
        let a = villager_row(starts[i]);
        let b = villager_row(starts[j]);
        assert(reaches(tiles, spawns, o, a));
        assert(reaches(tiles, spawns, o, b));
        let pa = choose|p: Seq<(i32, i32)>| #[trigger] clear_walk(tiles, spawns, p) && p[0] == o && p.last() == a;
        let pb = choose|p: Seq<(i32, i32)>| #[trigger] clear_walk(tiles, spawns, p) && p[0] == o && p.last() == b;
        let back = lemma_walk_back(tiles, spawns, pa);
        let w = lemma_walk_join(tiles, spawns, back, pb);
        assert(clear_walk(tiles, spawns, w) && w[0] == a && w.last() == b);
    }
}

/// The centre of tile `(x, y)` stands on it.
proof fn lemma_tile_of_centre(x: i32, y: i32)
    requires
        -32768 <= x <= 32766,
        -32768 <= y <= 32766,
    ensures
        tile_at_point(centre_spec((x, y))) == (x as int, y as int),
{
    assert((x * 65536 + 32768) / 65536 == x) by (nonlinear_arith)
        requires -32768 <= x <= 32766;
    assert((y * 65536 + 32768) / 65536 == y) by (nonlinear_arith)
        requires -32768 <= y <= 32766;
}

/// A building three tiles across stands on the tile it is anchored on.
proof fn lemma_tile_of_building(x: int, y: int)
    requires
        -32000 <= x <= 32000,
        -32000 <= y <= 32000,
    ensures
        tile_at_point(building_pos(x, y, 3)) == (x, y),
{
    assert(crate::fx::abs_int(3 * 65536int) == 196608);
    assert(crate::fx::abs_int(2) == 2);
    assert((196608int + 1) / 2 == 98304);
    assert(crate::fx::round_div(3 * 65536int, 2) == 98304);
    assert(((x - 1) * 65536 + 98304) / 65536 == x) by (nonlinear_arith)
        requires -32000 <= x <= 32000;
    assert(((y - 1) * 65536 + 98304) / 65536 == y) by (nonlinear_arith)
        requires -32000 <= y <= 32000;
}

/// Appending nobody's entities leaves the owned ones as they were.
proof fn lemma_appends_gaia(old: Seq<Spawn>, new: Seq<Spawn>)
    requires
        appends_gaia(old, new),
    ensures
        owned_spawns(new) == owned_spawns(old),
{
    let tail = new.subrange(old.len() as int, new.len() as int);
    assert(old + tail =~= new);
    lemma_owned_append(old, tail);
    lemma_owned_none(tail);
    assert(owned_spawns(old) + Seq::<Spawn>::empty() =~= owned_spawns(old));
}

impl Gen {
    spec fn wf(&self) -> bool {
        &&& 48 <= self.size <= 256
        &&& self.tiles.wf()
        &&& self.tiles.w() == self.size
        &&& self.tiles.h() == self.size
        &&& self.occ@.len() == self.size * self.size
        &&& starts_inside(self.starts@, self.size as int)
        &&& self.spawns@.len() <= 100_000
    }

    spec fn inside(&self, x: int, y: int) -> bool {
        0 <= x < self.size && 0 <= y < self.size
    }

    spec fn occ_at(&self, x: int, y: int) -> Occ {
        if self.inside(x, y) { self.occ@[y * self.size + x] } else { Occ::Blocked }
    }

    /// Every tile a placed spawn covers is blocked.
    spec fn covers(&self) -> bool {
        forall|k: int, x: int, y: int|
            0 <= k < self.spawns@.len() && #[trigger] blocks(self.spawns@[k], x, y) ==> self.occ_at(x, y) == Occ::Blocked
    }

    fn idx(&self, x: i32, y: i32) -> (r: usize)
        requires
            self.wf(),
            self.inside(x as int, y as int),
        ensures
            r == y * self.size + x,
            r < self.occ@.len(),
    {
        proof {
            crate::nav::lemma_index_in_grid(x as int, y as int, self.size as int, self.size as int);
            lemma_area(self.size as int);
        }
        (y * self.size + x) as usize
    }

    fn in_bounds(&self, x: i32, y: i32) -> (r: bool)
        ensures
            r == self.inside(x as int, y as int),
    {
        x >= 0 && y >= 0 && x < self.size && y < self.size
    }

    fn occ(&self, x: i32, y: i32) -> (r: Occ)
        requires
            self.wf(),
        ensures
            r == self.occ_at(x as int, y as int),
    {
        if self.in_bounds(x, y) {
            self.occ[self.idx(x, y)]
        } else {
            Occ::Blocked
        }
    }

    fn set_occ(&mut self, x: i32, y: i32, o: Occ)
        requires
            old(self).wf(),
        ensures
            final(self).wf(),
            final(self).size == old(self).size,
            final(self).tiles == old(self).tiles,
            final(self).spawns == old(self).spawns,
            final(self).starts == old(self).starts,
            old(self).inside(x as int, y as int) ==> final(self).occ@ == old(self).occ@.update(y * old(self).size + x, o),
            !old(self).inside(x as int, y as int) ==> final(self).occ@ == old(self).occ@,
            forall|tx: int, ty: int| #[trigger] final(self).occ_at(tx, ty) == if tx == x && ty == y && old(self).inside(tx, ty) {
                o
            } else {
                old(self).occ_at(tx, ty)
            },
    {
        if self.in_bounds(x, y) {
            let i = self.idx(x, y);
            self.occ.set(i, o);
        }
        proof {
            let n = old(self).size as int;
            assert forall|tx: int, ty: int| #[trigger] self.occ_at(tx, ty) == if tx == x && ty == y && old(self).inside(tx, ty) {
                o
            } else {
                old(self).occ_at(tx, ty)
            } by {
                if old(self).inside(tx, ty) && old(self).inside(x as int, y as int) && !(tx == x && ty == y) {
                    crate::nav::lemma_index_in_grid(tx, ty, n, n);
                    crate::nav::lemma_index_in_grid(x as int, y as int, n, n);
                    if ty * n + tx == y * n + x {
                        crate::nav::lemma_index_unique(tx, ty, x as int, y as int, n);
                    }
                }
            }
        }
    }

    fn free(&self, x: i32, y: i32) -> (r: bool)
        requires
            self.wf(),
        ensures
            r == (self.occ_at(x as int, y as int) == Occ::Free),
    {
        self.occ(x, y) == Occ::Free
    }

    fn placeable(&self, x: i32, y: i32) -> (r: bool)
        requires
            self.wf(),
        ensures
            r == (self.occ_at(x as int, y as int) != Occ::Blocked),
    {
        let o = self.occ(x, y);
        o == Occ::Free || o == Occ::Reserved
    }

    /// Chebyshev distance to the nearest start; `i32::MAX` with none.
    fn dist_to_nearest_start(&self, x: i32, y: i32) -> (r: i32)
        requires
            self.wf(),
            0 <= x <= 256,
            0 <= y <= 256,
        ensures
            forall|k: int| 0 <= k < self.starts@.len() ==> r <= crate::nav::cheb(self.starts@[k].0 - x, self.starts@[k].1 - y),
            self.starts@.len() == 0 ==> r == i32::MAX,
            self.starts@.len() > 0 ==> exists|k: int| 0 <= k < self.starts@.len() && r == crate::nav::cheb(
                self.starts@[k].0 - x, self.starts@[k].1 - y),
    {
        let mut best = i32::MAX;
        let mut k: usize = 0;
        while k < self.starts.len()
            invariant
                self.wf(),
                0 <= x <= 256,
                0 <= y <= 256,
                k <= self.starts@.len(),
                forall|j: int| 0 <= j < k ==> best <= crate::nav::cheb(self.starts@[j].0 - x, self.starts@[j].1 - y),
                k == 0 ==> best == i32::MAX,
                k > 0 ==> exists|j: int| 0 <= j < k && best == crate::nav::cheb(self.starts@[j].0 - x, self.starts@[j].1 - y),
            decreases self.starts.len() - k,
        {
            let (sx, sy) = self.starts[k];
            let ax = if sx - x < 0 { x - sx } else { sx - x };
            let ay = if sy - y < 0 { y - sy } else { sy - y };
            let d = if ax < ay { ay } else { ax };
            if k == 0 || d < best {
                best = d;
            }
            k = k + 1;
        }
        best
    }

    /// Places one static object, blocking its tile.
    fn place(&mut self, kind: u16, owner: u8, x: i32, y: i32)
        requires
            old(self).wf(),
            old(self).spawns@.len() < 100_000,
            old(self).covers(),
            old(self).inside(x as int, y as int),
            kind_info(kind).footprint <= 1,
        ensures
            final(self).covers(),
            final(self).wf(),
            final(self).size == old(self).size,
            final(self).tiles == old(self).tiles,
            final(self).starts == old(self).starts,
            final(self).spawns@ == old(self).spawns@.push(Spawn { kind, owner, pos: crate::nav::centre_spec((x, y)) }),
            old(self).inside(x as int, y as int) ==> final(self).occ@ == old(self).occ@.update(y * old(self).size + x, Occ::Blocked),
            !old(self).inside(x as int, y as int) ==> final(self).occ@ == old(self).occ@,
    {
        self.set_occ(x, y, Occ::Blocked);
        let ghost mid = *self;
        self.spawns.push(Spawn { kind, owner, pos: centre((x, y)) });
        proof {
            lemma_tile_of_centre(x, y);
            assert forall|k: int, tx: int, ty: int|
                0 <= k < self.spawns@.len() && #[trigger] blocks(self.spawns@[k], tx, ty) implies self.occ_at(tx, ty)
                == Occ::Blocked by {
                assert(mid.occ_at(tx, ty) == if tx == x && ty == y && old(self).inside(tx, ty) {
                    Occ::Blocked
                } else {
                    old(self).occ_at(tx, ty)
                });
                if k < old(self).spawns@.len() {
                    assert(self.spawns@[k] == old(self).spawns@[k]);
                    assert(old(self).occ_at(tx, ty) == Occ::Blocked);
                } else {
                    assert(self.spawns@[k] == Spawn { kind, owner, pos: centre_spec((x, y)) });
                    assert(tx == x && ty == y);
                }
                assert(self.occ_at(tx, ty) == mid.occ_at(tx, ty));
            }
        }
    }

    /// Places a mobile unit; does not block.
    fn place_unit(&mut self, kind: u16, owner: u8, x: i32, y: i32)
        requires
            old(self).wf(),
            old(self).spawns@.len() < 100_000,
            old(self).covers(),
            kind_info(kind).mobile,
        ensures
            final(self).covers(),
            final(self).wf(),
            final(self).size == old(self).size,
            final(self).tiles == old(self).tiles,
            final(self).starts == old(self).starts,
            final(self).occ == old(self).occ,
            final(self).spawns@ == old(self).spawns@.push(Spawn { kind, owner, pos: crate::nav::centre_spec((x, y)) }),
    {
        self.spawns.push(Spawn { kind, owner, pos: centre((x, y)) });
        proof {
            assert forall|k: int, tx: int, ty: int|
                0 <= k < self.spawns@.len() && #[trigger] blocks(self.spawns@[k], tx, ty) implies self.occ_at(tx, ty)
                == Occ::Blocked by {
                if k < old(self).spawns@.len() {
                    assert(self.spawns@[k] == old(self).spawns@[k]);
                }
            }
        }
    }

    /// Places a building centred on `(x, y)`, blocking its footprint.
    fn place_building(&mut self, kind: u16, owner: u8, x: i32, y: i32)
        requires
            old(self).wf(),
            old(self).spawns@.len() < 100_000,
            old(self).covers(),
            kind_info(kind).footprint == 3,
            0 <= x <= 256,
            0 <= y <= 256,
        ensures
            final(self).wf(),
            final(self).covers(),
            final(self).size == old(self).size,
            final(self).tiles == old(self).tiles,
            final(self).starts == old(self).starts,
            final(self).spawns@ == old(self).spawns@.push(
                Spawn { kind, owner, pos: building_pos(x as int, y as int, kind_info(kind).footprint as int) },
            ),
    {
        let fp = info(kind).footprint as i32;
        let half = fp / 2;
        let mut dy: i32 = -half;
        while dy < fp - half
            invariant
                self.wf(),
                self.covers(),
                self.size == old(self).size,
                self.tiles == old(self).tiles,
                self.starts == old(self).starts,
                self.spawns == old(self).spawns,
                fp == 3,
                half == 1,
                0 <= x <= 256,
                0 <= y <= 256,
                -1 <= dy <= 2,
                forall|tx: int, ty: int| x - 1 <= tx <= x + 1 && y - 1 <= ty < y + dy ==> #[trigger] self.occ_at(tx, ty) == Occ::Blocked,
            decreases fp - half - dy,
        {
            let mut dx: i32 = -half;
            while dx < fp - half
                invariant
                    self.wf(),
                    self.covers(),
                    self.size == old(self).size,
                    self.tiles == old(self).tiles,
                    self.starts == old(self).starts,
                    self.spawns == old(self).spawns,
                    fp == 3,
                    half == 1,
                    0 <= x <= 256,
                    0 <= y <= 256,
                    -1 <= dy < 2,
                    -1 <= dx <= 2,
                    forall|tx: int, ty: int| x - 1 <= tx <= x + 1 && y - 1 <= ty < y + dy ==> #[trigger] self.occ_at(tx, ty) == Occ::Blocked,
                    forall|tx: int| x - 1 <= tx < x + dx ==> #[trigger] self.occ_at(tx, y + dy) == Occ::Blocked,
                decreases fp - half - dx,
            {
                let ghost before = *self;
                self.set_occ(x + dx, y + dy, Occ::Blocked);
                proof {
                    assert forall|k: int, tx: int, ty: int|
                        0 <= k < self.spawns@.len() && #[trigger] blocks(self.spawns@[k], tx, ty) implies self.occ_at(tx, ty)
                        == Occ::Blocked by {
                        assert(before.occ_at(tx, ty) == Occ::Blocked);
                        assert(self.occ_at(tx, ty) == if tx == x + dx && ty == y + dy && before.inside(tx, ty) {
                            Occ::Blocked
                        } else {
                            before.occ_at(tx, ty)
                        });
                    }
                    assert forall|tx: int, ty: int| x - 1 <= tx <= x + 1 && y - 1 <= ty < y + dy implies #[trigger] self.occ_at(
                        tx,
                        ty,
                    ) == Occ::Blocked by {
                        assert(before.occ_at(tx, ty) == Occ::Blocked);
                        assert(self.occ_at(tx, ty) == if tx == x + dx && ty == y + dy && before.inside(tx, ty) {
                            Occ::Blocked
                        } else {
                            before.occ_at(tx, ty)
                        });
                    }
                    assert forall|tx: int| x - 1 <= tx < x + dx + 1 implies #[trigger] self.occ_at(tx, y + dy) == Occ::Blocked by {
                        assert(self.occ_at(tx, y + dy) == if tx == x + dx && y + dy == y + dy && before.inside(tx, y + dy) {
                            Occ::Blocked
                        } else {
                            before.occ_at(tx, y + dy)
                        });
                    }
                }
                dx = dx + 1;
            }
            proof {
                assert forall|tx: int, ty: int| x - 1 <= tx <= x + 1 && y - 1 <= ty < y + dy + 1 implies #[trigger] self.occ_at(
                    tx,
                    ty,
                ) == Occ::Blocked by {
                    if ty == y + dy {
                        assert(self.occ_at(tx, y + dy) == Occ::Blocked);
                    }
                }
            }
            dy = dy + 1;
        }
        let pos = building_centre(x, y, fp);
        let ghost mid = *self;
        self.spawns.push(Spawn { kind, owner, pos });
        proof {
            lemma_tile_of_building(x as int, y as int);
            assert forall|k: int, tx: int, ty: int|
                0 <= k < self.spawns@.len() && #[trigger] blocks(self.spawns@[k], tx, ty) implies self.occ_at(tx, ty)
                == Occ::Blocked by {
                assert(self.occ_at(tx, ty) == mid.occ_at(tx, ty));
                if k < old(self).spawns@.len() {
                    assert(self.spawns@[k] == mid.spawns@[k]);
                    assert(mid.occ_at(tx, ty) == Occ::Blocked);
                } else {
                    assert(self.spawns@[k].pos == building_pos(x as int, y as int, 3));
                    assert(x - 1 <= tx <= x + 1 && y - 1 <= ty <= y + 1);
                    assert(mid.occ_at(tx, ty) == Occ::Blocked);
                }
            }
        }
    }

    /// The nearest free tile to `(x, y)` within `radius`, by ring search:
    /// the lowest ring with a free tile, first in row order on it.
    fn nearest_free(&self, x: i32, y: i32, radius: i32) -> (r: Option<(i32, i32)>)
        requires
            self.wf(),
            -1000 <= x <= 1000,
            -1000 <= y <= 1000,
            radius <= 16,
        ensures
            r matches Some(t) ==> self.occ_at(t.0 as int, t.1 as int) == Occ::Free && crate::nav::cheb(t.0 - x, t.1 - y)
                <= radius,
            r matches Some(t) ==> forall|tx: int, ty: int| #[trigger] self.occ_at(tx, ty) == Occ::Free ==> crate::nav::cheb(
                tx - x, ty - y) >= crate::nav::cheb(t.0 - x, t.1 - y),
            r is None ==> forall|tx: int, ty: int| crate::nav::cheb(tx - x, ty - y) <= radius ==> #[trigger] self.occ_at(tx, ty)
                != Occ::Free,
    {
        let mut r: i32 = 0;
        while r <= radius
            invariant
                self.wf(),
                -1000 <= x <= 1000,
                -1000 <= y <= 1000,
                radius <= 16,
                0 <= r <= 17,
                forall|tx: int, ty: int| #[trigger] self.occ_at(tx, ty) == Occ::Free ==> crate::nav::cheb(tx - x, ty - y) >= r,
            decreases 17 - r,
        {
            let mut dy: i32 = -r;
            while dy <= r
                invariant
                    self.wf(),
                    -1000 <= x <= 1000,
                    -1000 <= y <= 1000,
                    0 <= r <= 16,
                    r <= radius,
                    -r <= dy <= r + 1,
                    forall|tx: int, ty: int| #[trigger] self.occ_at(tx, ty) == Occ::Free ==> crate::nav::cheb(tx - x, ty - y) >= r,
                    forall|tx: int, ty: int| #[trigger] self.occ_at(tx, ty) == Occ::Free && ty - y < dy ==> crate::nav::cheb(tx - x,
                        ty - y) != r,
                decreases r + 1 - dy,
            {
                let mut dx: i32 = -r;
                while dx <= r
                    invariant
                        self.wf(),
                        -1000 <= x <= 1000,
                        -1000 <= y <= 1000,
                        0 <= r <= 16,
                        r <= radius,
                        -r <= dy <= r,
                        -r <= dx <= r + 1,
                        forall|tx: int, ty: int| #[trigger] self.occ_at(tx, ty) == Occ::Free ==> crate::nav::cheb(tx - x, ty - y) >= r,
                        forall|tx: int, ty: int| #[trigger] self.occ_at(tx, ty) == Occ::Free && crate::nav::scan_before(ty - y,
                            tx - x, dy as int, dx as int) ==> crate::nav::cheb(tx - x, ty - y) != r,
                    decreases r + 1 - dx,
                {
                    let ax = if dx < 0 { -dx } else { dx };
                    let ay = if dy < 0 { -dy } else { dy };
                    let m = if ax < ay { ay } else { ax };
                    if m == r && self.free(x + dx, y + dy) {
                        return Some((x + dx, y + dy));
                    }
                    dx = dx + 1;
                }
                dy = dy + 1;
            }
            r = r + 1;
        }
        None
    }

    /// A point `dist` tiles from `(x, y)` in direction `a`, clamped inside
    /// the map with a margin of two.
    fn offset(&self, x: i32, y: i32, a: Angle, dist: i32) -> (r: (i32, i32))
        requires
            self.wf(),
            0 <= x <= 256,
            0 <= y <= 256,
        ensures
            2 <= r.0 <= self.size - 3,
            2 <= r.1 <= self.size - 3,
    {
        let d = Vec2Fx::from_angle(a, Fx::from_int(dist));
        let m: i32 = 2;
        let ox = x + d.x.round();
        let oy = y + d.y.round();
        let hi = self.size - 1 - m;
        (if ox < m { m } else if ox > hi { hi } else { ox }, if oy < m { m } else if oy > hi { hi } else { oy })
    }
}

/// Grows a blob of up to `count` objects from the free tile nearest
/// `(x, y)` by random expansion over free tiles. Returns how many were
/// placed; all are `kind`, owned by nobody.
fn blob(g: &mut Gen, rng: &mut Rng, kind: u16, x: i32, y: i32, count: usize) -> (placed_n: usize)
    requires
        old(g).wf(),
        old(g).covers(),
        kind_info(kind).footprint <= 1,
        old(g).spawns@.len() + count < 100_000,
        old(rng).room(blob_draws(count as int)),
        old(rng).words().len() == 4,
        count <= 64,
        -1000 <= x <= 1000,
        -1000 <= y <= 1000,
    ensures
        final(g).wf(),
        final(g).covers(),
        final(g).size == old(g).size,
        final(g).tiles == old(g).tiles,
        final(g).starts == old(g).starts,
        placed_n <= (if count == 0 { 1 } else { count as int }),
        final(g).spawns@.len() == old(g).spawns@.len() + placed_n,
        forall|k: int| old(g).spawns@.len() <= k < final(g).spawns@.len() ==> (#[trigger] final(g).spawns@[k]).kind == kind
            && final(g).spawns@[k].owner == GAIA,
        forall|k: int| 0 <= k < old(g).spawns@.len() ==> #[trigger] final(g).spawns@[k] == old(g).spawns@[k],
        old(rng).count() <= final(rng).count() <= old(rng).count() + blob_draws(count as int),
        final(rng).words().len() == 4,
        (placed_n == 0) <==> forall|tx: int, ty: int| crate::nav::cheb(tx - x, ty - y) <= 4 ==> #[trigger] old(g).occ_at(tx, ty)
            != Occ::Free,
        placed_n == 0 ==> *final(g) == *old(g) && *final(rng) == *old(rng),
        placed_n >= 1 && count == 0 ==> placed_n == 1,
        placed_n >= 1 && count >= 1 ==> placed_n == count || final(rng).count() == old(rng).count() + 2 * (placed_n - 1 + 8
            * count),
{
    let start = match g.nearest_free(x, y, 4) {
        Some(t) => t,
        None => {
            return 0;
        },
    };
    let mut placed: Vec<(i32, i32)> = Vec::new();
    placed.push(start);
    g.place(kind, GAIA, start.0, start.1);
    let ghost base = old(g).spawns@.len();
    let ghost c0 = rng.count();
    let mut stalls: usize = 0;
    while placed.len() < count && stalls < count * 8
        invariant
            g.wf(),
            g.covers(),
            kind_info(kind).footprint <= 1,
            g.size == old(g).size,
            g.tiles == old(g).tiles,
            g.starts == old(g).starts,
            count <= 64,
            base + count < 100_000,
            1 <= placed@.len() <= (if count == 0 { 1 } else { count as int }),
            g.spawns@.len() == base + placed@.len(),
            forall|k: int| base <= k < g.spawns@.len() ==> (#[trigger] g.spawns@[k]).kind == kind && g.spawns@[k].owner == GAIA,
            forall|k: int| 0 <= k < base ==> #[trigger] g.spawns@[k] == old(g).spawns@[k],
            forall|k: int| 0 <= k < placed@.len() ==> 0 <= (#[trigger] placed@[k]).0 < g.size && 0 <= placed@[k].1 < g.size,
            stalls <= count * 8,
            rng.count() == c0 + 2 * ((placed@.len() - 1) + stalls),
            c0 == old(rng).count(),
            old(rng).room(blob_draws(count as int)),
            rng.words().len() == 4,
        decreases count * 9 - (placed@.len() + stalls),
    {
        let pick = rng.below(placed.len() as u32) as usize;
        let (px, py) = placed[pick];
        let dir = rng.below(4);
        let (dx, dy) = if dir == 0 { (1, 0) } else if dir == 1 { (-1, 0) } else if dir == 2 { (0, 1) } else { (0, -1) };
        let nx = px + dx;
        let ny = py + dy;
        if g.free(nx, ny) {
            g.place(kind, GAIA, nx, ny);
            placed.push((nx, ny));
        } else {
            stalls = stalls + 1;
        }
    }
    placed.len()
}

fn jitter(rng: &mut Rng, degrees: i32) -> (r: Angle)
    requires
        old(rng).room(1),
        old(rng).words().len() == 4,
        0 <= degrees <= 360,
    ensures
        old(rng).count() <= final(rng).count() <= old(rng).count() + 1,
        final(rng).words().len() == 4,
        final(rng).advanced(*old(rng)),
        r.0 as int == ((below_spec(old(rng).words(), (2 * degrees + 1) as u32) - degrees) % 360) * 65536 / 360,
{
    Angle::from_degrees(rng.range_i32(-degrees, degrees + 1))
}

/// A flat grass map of the spec's size, with the starts laid out as for an
/// inland map from a fixed seed.
fn flat(spec: &MapSpec) -> (r: Generated)
    requires
        48 <= spec.size <= 256,
        1 <= spec.players <= 8,
    ensures
        r.tiles.wf(),
        r.tiles.smooth(),
        r.tiles.w() == spec.size && r.tiles.h() == spec.size,
        r.spawns@.len() == 0,
        r.starts@.len() == spec.players,
        starts_inside(r.starts@, spec.size as int),
        r.attempts == 1,
{
    let size = spec.size as i32;
    proof {
        lemma_area(size as int);
    }
    let mut rng = Rng::new(0);
    let starts = start_positions(&mut rng, size, spec.players);
    let tiles = TileMap::new(spec.size, spec.size);
    proof {
        tiles.lemma_flat_is_smooth();
    }
    Generated { tiles, spawns: Vec::new(), starts, attempts: 1 }
}

/// Player starts on a ring around the centre, evenly spaced with a little
/// jitter, at a radius of 34% of the map, kept 12 tiles off the edge; a
/// single player starts in the centre.
fn start_positions(rng: &mut Rng, size: i32, players: u8) -> (r: Vec<(i32, i32)>)
    requires
        48 <= size <= 256,
        1 <= players <= 8,
        old(rng).room(16),
        old(rng).words().len() == 4,
    ensures
        r@.len() == players,
        starts_inside(r@, size as int),
        old(rng).count() <= final(rng).count() <= old(rng).count() + 16,
        final(rng).words().len() == 4,
{
    let n = players as i32;
    let centre_point = Vec2Fx::from_int(size / 2, size / 2);
    let radius = Fx::from_int(size).mul_div(Fx::from_ratio(34, 100), Fx::ONE());
    let base = Angle(#[verifier::truncate] (rng.next_u32() as u16));
    let step = Angle(#[verifier::truncate] ((65536 / n) as u16));
    let margin: i32 = 12;
    let hi = size - 1 - margin;
    let mut out: Vec<(i32, i32)> = Vec::new();
    let mut i: i32 = 0;
    let ghost c0 = old(rng).count();
    while i < n
        invariant
            48 <= size <= 256,
            1 <= n <= 8,
            hi == size - 13,
            margin == 12,
            0 <= i <= n,
            out@.len() == i,
            starts_inside(out@, size as int),
            rng.count() <= c0 + 1 + i,
            c0 <= rng.count(),
            old(rng).room(16),
            c0 == old(rng).count(),
            rng.words().len() == 4,
        decreases n - i,
    {
        let jit = Angle::from_degrees(rng.range_i32(-8, 9));
        let a = base + Angle(step.0.wrapping_mul(i as u16)) + jit;
        let p = if n == 1 { centre_point } else { centre_point + Vec2Fx::from_angle(a, radius) };
        let px = p.x.round();
        let py = p.y.round();
        let cx = if px < margin { margin } else if px > hi { hi } else { px };
        let cy = if py < margin { margin } else if py > hi { hi } else { py };
        let ghost before = out@;
        out.push((cx, cy));
        proof {
            assert forall|k: int| 0 <= k < out@.len() implies 12 <= (#[trigger] out@[k]).0 <= size - 13 && 12 <= out@[k].1
                <= size - 13 by {
                if k < before.len() {
                    assert(out@[k] == before[k]);
                }
            }
        }
        i = i + 1;
    }
    out
}

/// Draws the inland generator may take for a map `size` across with
/// `players` starts, all together.
pub open spec fn inland_draws() -> int {
    1_000_000
}

/// One attempt at an inland map; `None` if a start cannot walk to the first.
fn inland(rng: &mut Rng, spec: &MapSpec) -> (r: Option<Generated>)
    requires
        48 <= spec.size <= 256,
        1 <= spec.players <= 8,
        old(rng).room(inland_draws()),
        old(rng).words().len() == 4,
    ensures
        r matches Some(g) ==> {
            &&& g.tiles.wf()
            &&& g.tiles.smooth()
            &&& g.tiles.w() == spec.size && g.tiles.h() == spec.size
            &&& g.starts@.len() == spec.players
            &&& starts_inside(g.starts@, spec.size as int)
            &&& owned_spawns(g.spawns@) == kits(g.starts@, spec.players as int)
            &&& g.spawns@.len() <= 100_000
            &&& forall|k: int| 0 <= k < g.starts@.len() ==> reaches(g.tiles, g.spawns@, villager_row(g.starts@[0]), villager_row(
                #[trigger] g.starts@[k]))
        },
{
    let size = spec.size as i32;
    let ghost c0 = rng.count();
    let starts = start_positions(rng, size, spec.players);
    proof {
        lemma_area(size as int);
    }
    let occ = crate::nav::filled(Occ::Free, (size * size) as usize);
    let mut g = Gen { size, tiles: TileMap::new(spec.size, spec.size), occ, spawns: Vec::new(), starts };
    shape_elevation(&mut g, rng);
    paint_terrain(&mut g, rng);
    // Keep a building zone clear around each start.
    let mut k: usize = 0;
    while k < g.starts.len()
        invariant
            g.wf(),
            g.size == size,
            g.starts@.len() == spec.players,
            g.spawns@.len() == 0,
            k <= g.starts@.len(),
        decreases g.starts.len() - k,
    {
        let (sx, sy) = g.starts[k];
        let mut dy: i32 = -6;
        while dy <= 6
            invariant
                g.wf(),
                g.size == size,
                g.starts@.len() == spec.players,
                g.spawns@.len() == 0,
                12 <= sx <= 256,
                12 <= sy <= 256,
                -6 <= dy <= 7,
            decreases 7 - dy,
        {
            let mut dx: i32 = -6;
            while dx <= 6
                invariant
                    g.wf(),
                    g.size == size,
                    g.starts@.len() == spec.players,
                    g.spawns@.len() == 0,
                    12 <= sx <= 256,
                    12 <= sy <= 256,
                    -6 <= dy <= 6,
                    -6 <= dx <= 7,
                decreases 7 - dx,
            {
                g.set_occ(sx + dx, sy + dy, Occ::Reserved);
                dx = dx + 1;
            }
            dy = dy + 1;
        }
        k = k + 1;
    }
    let mut p: u8 = 0;
    proof {
        assert(g.covers());
        lemma_owned_none(g.spawns@);
        assert(kits(g.starts@, 0) =~= Seq::<Spawn>::empty());
    }
    while p < spec.players
        invariant
            g.wf(),
            g.size == size,
            48 <= size <= 256,
            g.starts@.len() == spec.players,
            1 <= spec.players <= 8,
            p <= spec.players,
            g.spawns@.len() <= 200 * p,
            g.covers(),
            owned_spawns(g.spawns@) == kits(g.starts@, p as int),
            rng.count() <= c0 + 16 + 300_000 + 1_000 * p,
            old(rng).room(inland_draws()),
            c0 == old(rng).count(),
            rng.words().len() == 4,
        decreases spec.players - p,
    {
        let ghost before = g.spawns@;
        start_kit(&mut g, rng, p);
        proof {
            let k = kit(p, g.starts@[p as int]);
            lemma_appends_gaia(before + k, g.spawns@);
            lemma_owned_append(before, k);
            lemma_owned_all(k);
        }
        p = p + 1;
    }
    let ghost before_scenery = g.spawns@;
    scatter_scenery(&mut g, rng, spec.players);
    proof {
        lemma_appends_gaia(before_scenery, g.spawns@);
    }
    let ghost before_smoothing = g;
    g.tiles.enforce_max_step();
    proof {
        assert(g.covers()) by {
            assert forall|k: int, x: int, y: int|
                0 <= k < g.spawns@.len() && #[trigger] blocks(g.spawns@[k], x, y) implies g.occ_at(x, y) == Occ::Blocked by {
                assert(before_smoothing.occ_at(x, y) == Occ::Blocked);
            }
        }
    }
    if !all_starts_connected(&g) {
        return None;
    }
    proof {
        assert forall|k: int| 0 <= k < g.starts@.len() implies reaches(g.tiles, g.spawns@, villager_row(g.starts@[0]), villager_row(
            #[trigger] g.starts@[k])) by {
            let a = villager_row(g.starts@[0]);
            let b = villager_row(g.starts@[k]);
            assert(walk_between(&g, a, b));
            let p = choose|p: Seq<(i32, i32)>| #[trigger] gen_walk(&g, p) && p[0] == a && p.last() == b;
            lemma_walk_clear(&g, p);
        }
    }
    Some(Generated { tiles: g.tiles, spawns: g.spawns, starts: g.starts, attempts: 0 })
}

/// Rolling hills from noise, quantised to levels at 50%, 64% and 78%,
/// flattened around starts to the level at each start's corner.
fn shape_elevation(g: &mut Gen, rng: &mut Rng)
    requires
        old(g).wf(),
        old(rng).room(150_000),
        old(rng).words().len() == 4,
    ensures
        final(g).wf(),
        final(g).size == old(g).size,
        final(g).starts == old(g).starts,
        final(g).spawns == old(g).spawns,
        final(g).occ == old(g).occ,
        old(rng).count() <= final(rng).count() <= old(rng).count() + 150_000,
        final(rng).words().len() == 4,
        final(g).tiles.smooth(),
        final(g).tiles.tiles() == old(g).tiles.tiles(),
        exists|f: Fbm| #[trigger] fbm_from(f, old(rng).words(), old(g).size + 1, old(g).size + 1, 18) && final(rng).words()
            == words_after_fbm(f, old(rng).words()),
{
    let size = g.size;
    proof {
        lemma_area(size as int);
        assert(2 * ((size + 1) + 2) * ((size + 1) + 2) == 2 * (size + 3) * (size + 3));
    }
    let ghost w0 = rng.words();
    let ghost ground0 = g.tiles.tiles();
    let noise = Fbm::new(rng, size + 1, size + 1, 18);
    proof {
        assert(fbm_from(noise, w0, size + 1, size + 1, 18));
    }
    let ghost w1 = rng.words();
    let t0 = Fx::from_ratio(50, 100);
    let t1 = Fx::from_ratio(64, 100);
    let t2 = Fx::from_ratio(78, 100);
    let mut cy: i32 = 0;
    while cy <= size
        invariant
            g.wf(),
            g.size == size,
            g.starts == old(g).starts,
            g.spawns == old(g).spawns,
            g.occ == old(g).occ,
            g.tiles.tiles() == ground0,
            rng.words() == w1,
            noise.wf(),
            0 <= cy <= size + 1,
        decreases size + 1 - cy,
    {
        let mut cx: i32 = 0;
        while cx <= size
            invariant
                g.wf(),
                g.size == size,
                g.starts == old(g).starts,
                g.spawns == old(g).spawns,
                g.occ == old(g).occ,
                g.tiles.tiles() == ground0,
                rng.words() == w1,
            g.tiles.tiles() == ground0,
            rng.words() == w1,
                noise.wf(),
                0 <= cy <= size,
                0 <= cx <= size + 1,
            decreases size + 1 - cx,
        {
            let v = noise.sample(cx, cy);
            let mut h: u8 = 0;
            if v.0 >= t0.0 {
                h = h + 1;
            }
            if v.0 >= t1.0 {
                h = h + 1;
            }
            if v.0 >= t2.0 {
                h = h + 1;
            }
            let level = if h < MAX_ELEVATION { h } else { MAX_ELEVATION };
            g.tiles.set_corner(cx, cy, level);
            cx = cx + 1;
        }
        cy = cy + 1;
    }
    // Flatten each start zone to the level at its centre.
    let mut k: usize = 0;
    while k < g.starts.len()
        invariant
            g.wf(),
            g.size == size,
            g.starts == old(g).starts,
            g.spawns == old(g).spawns,
            g.occ == old(g).occ,
            g.tiles.tiles() == ground0,
            rng.words() == w1,
            k <= g.starts@.len(),
        decreases g.starts.len() - k,
    {
        let (sx, sy) = g.starts[k];
        let level = g.tiles.corner(sx, sy);
        let mut cy: i32 = sy - 8;
        while cy <= sy + 9
            invariant
                g.wf(),
                g.size == size,
                g.starts == old(g).starts,
                g.spawns == old(g).spawns,
                g.occ == old(g).occ,
                g.tiles.tiles() == ground0,
                rng.words() == w1,
            g.tiles.tiles() == ground0,
            rng.words() == w1,
                12 <= sx <= 256,
                12 <= sy <= 256,
                sy - 8 <= cy <= sy + 10,
            decreases sy + 10 - cy,
        {
            let mut cx: i32 = sx - 8;
            while cx <= sx + 9
                invariant
                    g.wf(),
                    g.size == size,
                    g.starts == old(g).starts,
                    g.spawns == old(g).spawns,
                    g.occ == old(g).occ,
                    g.tiles.tiles() == ground0,
                    rng.words() == w1,
                g.tiles.tiles() == ground0,
                rng.words() == w1,
            g.tiles.tiles() == ground0,
            rng.words() == w1,
                    12 <= sx <= 256,
                    12 <= sy <= 256,
                    sy - 8 <= cy <= sy + 9,
                    sx - 8 <= cx <= sx + 10,
                decreases sx + 10 - cx,
            {
                g.tiles.set_corner(cx, cy, level);
                cx = cx + 1;
            }
            cy = cy + 1;
        }
        k = k + 1;
    }
    g.tiles.enforce_max_step();
}

/// `f` is the noise the generator state `w` draws for a `width × height`
/// area with lattice spacing `cell`, as [`Fbm::new`] draws it.
spec fn fbm_from(f: Fbm, w: Seq<u64>, width: int, height: int, cell: int) -> bool {
    let c = f.spec_coarse();
    let fi = f.spec_fine();
    &&& f.wf()
    &&& c.spec_cell() == if cell < 1 { 1 } else { cell }
    &&& fi.spec_cell() == if cell / 3 < 2 { 2 } else { cell / 3 }
    &&& c.spec_cols() == width / c.spec_cell() + 2
    &&& c.spec_rows() == height / c.spec_cell() + 2
    &&& fi.spec_cols() == width / fi.spec_cell() + 2
    &&& fi.spec_rows() == height / fi.spec_cell() + 2
    &&& forall|cx: int, cy: int|
        0 <= cx < c.spec_cols() && 0 <= cy < c.spec_rows() ==> #[trigger] c.node(cx, cy) == unit_draw(
            w,
            (cy * c.spec_cols() + cx) as nat,
        )
    &&& forall|cx: int, cy: int|
        0 <= cx < fi.spec_cols() && 0 <= cy < fi.spec_rows() ==> #[trigger] fi.node(cx, cy) == unit_draw(
            words_after(w, (c.spec_cols() * c.spec_rows()) as nat),
            (cy * fi.spec_cols() + cx) as nat,
        )
}

/// The generator state after drawing `f`.
spec fn words_after_fbm(f: Fbm, w: Seq<u64>) -> Seq<u64> {
    words_after(
        words_after(w, (f.spec_coarse().spec_cols() * f.spec_coarse().spec_rows()) as nat),
        (f.spec_fine().spec_cols() * f.spec_fine().spec_rows()) as nat,
    )
}

/// The raw value [`Fbm::sample`] gives at `(x, y)`.
spec fn fbm_value(f: Fbm, x: int, y: int) -> int {
    sat(round_div(sat(sat(f.spec_coarse().sample_spec(x, y) * 3) + f.spec_fine().sample_spec(x, y)), 4))
}

/// The ground a noise value paints: desert from 82%, dirt from 66%, grass
/// below.
spec fn ground_for(v: int) -> Terrain {
    if v >= sat(round_div(82int * 65536, 100)) {
        Terrain::Desert
    } else if v >= sat(round_div(66int * 65536, 100)) {
        Terrain::Dirt
    } else {
        Terrain::Grass
    }
}

/// Grass with patches of dirt (noise at 66%) and the odd desert scar (82%).
fn paint_terrain(g: &mut Gen, rng: &mut Rng)
    requires
        old(g).wf(),
        old(rng).room(150_000),
        old(rng).words().len() == 4,
    ensures
        final(g).wf(),
        final(g).size == old(g).size,
        final(g).starts == old(g).starts,
        final(g).spawns == old(g).spawns,
        final(g).occ == old(g).occ,
        old(rng).count() <= final(rng).count() <= old(rng).count() + 150_000,
        final(rng).words().len() == 4,
        final(g).tiles.heights() == old(g).tiles.heights(),
        exists|f: Fbm| {
            &&& #[trigger] fbm_from(f, old(rng).words(), old(g).size as int, old(g).size as int, 12)
            &&& final(rng).words() == words_after_fbm(f, old(rng).words())
            &&& forall|x: int, y: int|
                0 <= x < old(g).size && 0 <= y < old(g).size ==> #[trigger] final(g).tiles.tile_at(x, y) == ground_for(
                    fbm_value(f, x, y),
                )
        },
{
    let size = g.size;
    proof {
        lemma_area(size as int);
    }
    let ghost w0 = rng.words();
    let ghost h0 = g.tiles.heights();
    let noise = Fbm::new(rng, size, size, 12);
    proof {
        assert(fbm_from(noise, w0, size as int, size as int, 12));
    }
    let dirt = Fx::from_ratio(66, 100);
    let desert = Fx::from_ratio(82, 100);
    let mut y: i32 = 0;
    while y < size
        invariant
            g.wf(),
            g.size == size,
            g.starts == old(g).starts,
            g.spawns == old(g).spawns,
            g.occ == old(g).occ,
            noise.wf(),
            0 <= y <= size,
            g.tiles.heights() == h0,
            dirt.0 == sat(round_div(66int * 65536, 100)),
            desert.0 == sat(round_div(82int * 65536, 100)),
            forall|px: int, py: int| 0 <= px < size && 0 <= py < y ==> #[trigger] g.tiles.tile_at(px, py) == ground_for(
                fbm_value(noise, px, py),
            ),
        decreases size - y,
    {
        let mut x: i32 = 0;
        while x < size
            invariant
                g.wf(),
                g.size == size,
                g.starts == old(g).starts,
                g.spawns == old(g).spawns,
                g.occ == old(g).occ,
                noise.wf(),
                0 <= y < size,
                0 <= x <= size,
                g.tiles.heights() == h0,
                dirt.0 == sat(round_div(66int * 65536, 100)),
                desert.0 == sat(round_div(82int * 65536, 100)),
                forall|px: int, py: int| 0 <= px < size && 0 <= py < y ==> #[trigger] g.tiles.tile_at(px, py) == ground_for(
                    fbm_value(noise, px, py),
                ),
                forall|px: int| 0 <= px < x ==> #[trigger] g.tiles.tile_at(px, y as int) == ground_for(
                    fbm_value(noise, px, y as int),
                ),
            decreases size - x,
        {
            let ghost tb = g.tiles;
            let v = noise.sample(x, y);
            let t = if v.0 >= desert.0 {
                Terrain::Desert
            } else if v.0 >= dirt.0 {
                Terrain::Dirt
            } else {
                Terrain::Grass
            };
            g.tiles.set_terrain(x, y, t);
            proof {
                assert(t == ground_for(fbm_value(noise, x as int, y as int)));
                assert forall|px: int, py: int| 0 <= px < size && 0 <= py < y implies #[trigger] g.tiles.tile_at(px, py)
                    == ground_for(fbm_value(noise, px, py)) by {
                    lemma_tile_update(tb, g.tiles, x as int, y as int, t, px, py);
                    assert(tb.tile_at(px, py) == ground_for(fbm_value(noise, px, py)));
                }
                assert forall|px: int| 0 <= px < x + 1 implies #[trigger] g.tiles.tile_at(px, y as int) == ground_for(
                    fbm_value(noise, px, y as int),
                ) by {
                    lemma_tile_update(tb, g.tiles, x as int, y as int, t, px, y as int);
                    if px < x {
                        assert(tb.tile_at(px, y as int) == ground_for(fbm_value(noise, px, y as int)));
                    }
                }
            }
            x = x + 1;
        }
        y = y + 1;
    }
}

/// Writing one tile leaves every other tile as it was.
proof fn lemma_tile_update(tb: TileMap, ta: TileMap, x: int, y: int, t: Terrain, px: int, py: int)
    requires
        tb.wf(),
        ta.w() == tb.w(),
        tb.in_map(x, y),
        tb.in_map(px, py),
        ta.tiles() == tb.tiles().update(y * tb.w() + x, t),
    ensures
        ta.tile_at(px, py) == if px == x && py == y { t } else { tb.tile_at(px, py) },
{
    lemma_index_distinct(px, py, x, y, tb.w() as int);
    lemma_index_distinct(x, y, x, y, tb.w() as int);
    crate::nav::lemma_index_in_grid(px, py, tb.w() as int, tb.h() as int);
    crate::nav::lemma_index_in_grid(x, y, tb.w() as int, tb.h() as int);
}

/// Distinct tiles of a `size`-wide grid have distinct row-major indices.
proof fn lemma_index_distinct(px: int, py: int, x: int, y: int, size: int)
    requires
        0 <= px < size,
        0 <= x < size,
        0 <= py,
        0 <= y,
    ensures
        (px != x || py != y) ==> py * size + px != y * size + x,
        0 <= py * size + px,
{
    if py != y {
        if py < y {
            assert(py * size + size <= y * size) by (nonlinear_arith)
                requires py < y, size >= 0;
        } else {
            assert(y * size + size <= py * size) by (nonlinear_arith)
                requires y < py, size >= 0;
        }
    }
    assert(0 <= py * size) by (nonlinear_arith)
        requires 0 <= py, 0 <= size;
}

/// The guaranteed kit every player gets: a Town Center, three villagers, a
/// scout, berries, gold, stone, a forest and a herd, the same for everyone.
fn start_kit(g: &mut Gen, rng: &mut Rng, player: u8)
    requires
        old(g).wf(),
        old(g).covers(),
        (player as int) < old(g).starts@.len(),
        old(g).spawns@.len() <= 200 * player,
        player < 8,
        old(rng).room(1_000),
        old(rng).words().len() == 4,
    ensures
        final(g).wf(),
        final(g).covers(),
        final(g).size == old(g).size,
        final(g).starts == old(g).starts,
        final(g).spawns@.len() <= old(g).spawns@.len() + 200,
        appends_gaia(old(g).spawns@ + kit(player, old(g).starts@[player as int]), final(g).spawns@),
        old(rng).count() <= final(rng).count() <= old(rng).count() + 1_000,
        final(rng).words().len() == 4,
{
    let ghost c0 = rng.count();
    let (sx, sy) = g.starts[player as usize];
    let ghost full = old(g).spawns@ + kit(player, (sx, sy));
    let ghost base: int = old(g).spawns@.len() as int;
    g.place_building(TOWN_CENTER, player, sx, sy);
    proof {
        assert(g.spawns@ =~= full.take(base + 1));
    }
    let mut i: i32 = 0;
    while i < 3
        invariant
            g.wf(),
            g.covers(),
            g.size == old(g).size,
            g.starts == old(g).starts,
            g.spawns@ == full.take(base + 1 + i),
            full == old(g).spawns@ + kit(player, (sx, sy)),
            base == old(g).spawns@.len(),
            base <= 1400,
            0 <= i <= 3,
            12 <= sx <= 256,
            12 <= sy <= 256,
        decreases 3 - i,
    {
        g.place_unit(VILLAGER, player, sx - 1 + i, sy + 2);
        proof {
            assert(g.spawns@ =~= full.take(base + 1 + i + 1));
        }
        i = i + 1;
    }
    g.place_unit(SCOUT, player, sx + 2, sy - 2);
    proof {
        assert(g.spawns@ =~= full);
    }
    let a = Angle(#[verifier::truncate] (rng.next_u32() as u16));

    let b = a + Angle::from_degrees(0) + jitter(rng, 12);
    let (bx, by) = g.offset(sx, sy, b, 6);
    blob(g, rng, BERRY_BUSH, bx, by, 6);
    let ghost after_berries = g.spawns@;

    let gold = a + Angle::from_degrees(120) + jitter(rng, 12);
    let (gx, gy) = g.offset(sx, sy, gold, 8);
    blob(g, rng, GOLD_MINE, gx, gy, 5);
    proof {
        lemma_appends_gaia_trans(full, after_berries, g.spawns@);
    }
    let ghost after_gold = g.spawns@;

    let stone = a + Angle::from_degrees(240) + jitter(rng, 12);
    let (tx, ty) = g.offset(sx, sy, stone, 8);
    blob(g, rng, STONE_MINE, tx, ty, 4);
    proof {
        lemma_appends_gaia_trans(full, after_gold, g.spawns@);
    }
    let ghost after_stone = g.spawns@;

    let forest = a + Angle::from_degrees(60) + jitter(rng, 12);
    let (fx, fy) = g.offset(sx, sy, forest, 11);
    blob(g, rng, TREE, fx, fy, 32);
    proof {
        lemma_appends_gaia_trans(full, after_stone, g.spawns@);
    }

    let herd = a + Angle::from_degrees(180) + jitter(rng, 12);
    let (hx, hy) = g.offset(sx, sy, herd, 10);
    let mut j: i32 = 0;
    while j < 3
        invariant
            g.wf(),
            g.covers(),
            g.size == old(g).size,
            g.starts == old(g).starts,
            g.spawns@.len() <= old(g).spawns@.len() + 5 + 6 + 5 + 4 + 32 + j,
            appends_gaia(full, g.spawns@),
            base == old(g).spawns@.len(),
            base <= 1400,
            0 <= j <= 3,
            2 <= hx <= 253,
            2 <= hy <= 253,
        decreases 3 - j,
    {
        match g.nearest_free(hx + j, hy, 3) {
            Some((ux, uy)) => {
                let ghost before = g.spawns@;
                g.place_unit(GAZELLE, GAIA, ux, uy);
                proof {
                    lemma_appends_gaia_trans(full, before, g.spawns@);
                }
            },
            None => {},
        }
        j = j + 1;
    }
}

/// Appending nobody's entities twice is appending them once.
proof fn lemma_appends_gaia_trans(a: Seq<Spawn>, b: Seq<Spawn>, c: Seq<Spawn>)
    requires
        appends_gaia(a, b),
        appends_gaia(b, c),
    ensures
        appends_gaia(a, c),
{
    assert forall|k: int| 0 <= k < a.len() implies #[trigger] c[k] == a[k] by {
        assert(c[k] == b[k]);
    }
    assert forall|k: int| a.len() <= k < c.len() implies (#[trigger] c[k]).owner == GAIA by {
        if k < b.len() {
            assert(c[k] == b[k]);
        }
    }
}

/// Every start is at least `d` (Chebyshev) from `(x, y)`.
spec fn far_enough(starts: Seq<(i32, i32)>, x: int, y: int, d: int) -> bool {
    forall|k: int| 0 <= k < starts.len() ==> crate::nav::cheb(#[trigger] starts[k].0 - x, starts[k].1 - y) >= d
}

/// What `far` picks from the generator state `w` on try `k` and after: each
/// try draws `x` then `y` in `2..size - 2`, and the first free tile far
/// enough from every start wins.
spec fn far_pick(g: Gen, w: Seq<u64>, min_dist: int, k: int) -> Option<(i32, i32)>
    decreases 40 - k,
{
    if k >= 40 {
        None
    } else {
        let span = (g.size - 4) as u32;
        let x = 2 + below_spec(w, span);
        let w1 = xoshiro_next(w);
        let y = 2 + below_spec(w1, span);
        let w2 = xoshiro_next(w1);
        if far_enough(g.starts@, x, y, min_dist) && g.occ_at(x, y) == Occ::Free {
            Some((x as i32, y as i32))
        } else {
            far_pick(g, w2, min_dist, k + 1)
        }
    }
}

/// A free tile at least `min_dist` (Chebyshev) from every start, from up to
/// forty random tries.
fn far(g: &Gen, rng: &mut Rng, min_dist: i32) -> (r: Option<(i32, i32)>)
    requires
        g.wf(),
        old(rng).room(80),
        old(rng).words().len() == 4,
    ensures
        r == far_pick(*g, old(rng).words(), min_dist as int, 0),
        r matches Some(t) ==> 2 <= t.0 < g.size - 2 && 2 <= t.1 < g.size - 2 && g.occ_at(t.0 as int, t.1 as int)
            == Occ::Free,
        old(rng).count() <= final(rng).count() <= old(rng).count() + 80,
        final(rng).words().len() == 4,
{
    let size = g.size;
    let mut k: u32 = 0;
    let ghost c0 = rng.count();
    while k < 40
        invariant
            g.wf(),
            size == g.size,
            k <= 40,
            c0 <= rng.count() <= c0 + 2 * k,
            c0 == old(rng).count(),
            old(rng).room(80),
            rng.words().len() == 4,
            far_pick(*g, old(rng).words(), min_dist as int, 0) == far_pick(*g, rng.words(), min_dist as int, k as int),
        decreases 40 - k,
    {
        let ghost w = rng.words();
        let x = rng.range_i32(2, size - 2);
        let y = rng.range_i32(2, size - 2);
        let d = g.dist_to_nearest_start(x, y);
        proof {
            assert(d >= min_dist <==> far_enough(g.starts@, x as int, y as int, min_dist as int)) by {
                if g.starts@.len() > 0 {
                    let j = choose|j: int| 0 <= j < g.starts@.len() && d == crate::nav::cheb(
                        g.starts@[j].0 - x,
                        g.starts@[j].1 - y,
                    );
                    assert(crate::nav::cheb(g.starts@[j].0 - x, g.starts@[j].1 - y) == d);
                }
            }
        }
        if d >= min_dist && g.free(x, y) {
            return Some((x, y));
        }
        k = k + 1;
    }
    None
}

/// The tile a tree stands on.
spec fn tree_tile(sp: Spawn) -> (int, int) {
    (sp.pos.x.0 as int / 65536, sp.pos.y.0 as int / 65536)
}

/// Forests, extra mines, bushes and herds away from the starts, then a
/// forest floor under every tree.
fn scatter_scenery(g: &mut Gen, rng: &mut Rng, players: u8)
    requires
        old(g).wf(),
        old(g).covers(),
        old(g).spawns@.len() <= 1_600,
        1 <= players <= 8,
        old(rng).room(300_000),
        old(rng).words().len() == 4,
    ensures
        final(g).wf(),
        final(g).covers(),
        final(g).size == old(g).size,
        final(g).starts == old(g).starts,
        appends_gaia(old(g).spawns@, final(g).spawns@),
        old(rng).count() <= final(rng).count() <= old(rng).count() + 300_000,
        final(rng).words().len() == 4,
        final(g).tiles.heights() == old(g).tiles.heights(),
        forall|k: int|
            0 <= k < final(g).spawns@.len() && (#[trigger] final(g).spawns@[k]).kind == TREE && final(g).tiles.in_map(
                tree_tile(final(g).spawns@[k]).0,
                tree_tile(final(g).spawns@[k]).1,
            ) ==> final(g).tiles.tile_at(tree_tile(final(g).spawns@[k]).0, tree_tile(final(g).spawns@[k]).1)
                == Terrain::ForestFloor,
        forall|x: int, y: int|
            #[trigger] final(g).tiles.in_map(x, y) && final(g).tiles.tile_at(x, y) != old(g).tiles.tile_at(x, y) ==> exists|k: int|
                0 <= k < final(g).spawns@.len() && (#[trigger] final(g).spawns@[k]).kind == TREE && tree_tile(
                    final(g).spawns@[k],
                ) == (x, y),
{
    let size = g.size;
    proof {
        lemma_area(size as int);
    }
    let area = size * size;
    let forests = if area / 550 < 4 { 4 } else { area / 550 };
    let ghost c0 = rng.count();
    let mut f: i32 = 0;
    while f < forests
        invariant
            g.wf(),
            g.covers(),
            g.size == size,
            g.starts == old(g).starts,
            g.tiles == old(g).tiles,
            appends_gaia(old(g).spawns@, g.spawns@),
            48 <= size <= 256,
            area == size * size,
            forests <= 120,
            0 <= f <= forests,
            g.spawns@.len() <= 1_600 + 53 * f,
            c0 <= rng.count() <= c0 + 1_100 * f,
            c0 == old(rng).count(),
            old(rng).room(300_000),
            rng.words().len() == 4,
        decreases forests - f,
    {
        match far(g, rng, 12) {
            Some((x, y)) => {
                let n = rng.range_i32(18, 52) as usize;
                let ghost before = g.spawns@;
                blob(g, rng, TREE, x, y, n);
                proof {
                    lemma_appends_gaia_trans(old(g).spawns@, before, g.spawns@);
                }
            },
            None => {},
        }
        f = f + 1;
    }
    let mut k: i32 = 0;
    while k < players as i32 * 2
        invariant
            g.wf(),
            g.covers(),
            g.size == size,
            g.starts == old(g).starts,
            g.tiles == old(g).tiles,
            appends_gaia(old(g).spawns@, g.spawns@),
            1 <= players <= 8,
            0 <= k <= players * 2,
            g.spawns@.len() <= 1_600 + 53 * 120 + 8 * k,
            c0 <= rng.count() <= c0 + 1_100 * 120 + 300 * k,
            c0 == old(rng).count(),
            old(rng).room(300_000),
            rng.words().len() == 4,
        decreases players * 2 - k,
    {
        match far(g, rng, 14) {
            Some((x, y)) => {
                let n = rng.range_i32(4, 7) as usize;
                let ghost before = g.spawns@;
                blob(g, rng, GOLD_MINE, x, y, n);
                proof {
                    lemma_appends_gaia_trans(old(g).spawns@, before, g.spawns@);
                }
            },
            None => {},
        }
        k = k + 1;
    }
    let mut k: i32 = 0;
    while k < players as i32
        invariant
            g.wf(),
            g.covers(),
            g.size == size,
            g.starts == old(g).starts,
            g.tiles == old(g).tiles,
            appends_gaia(old(g).spawns@, g.spawns@),
            1 <= players <= 8,
            0 <= k <= players,
            g.spawns@.len() <= 1_600 + 53 * 120 + 8 * 16 + 8 * k,
            c0 <= rng.count() <= c0 + 1_100 * 120 + 300 * 16 + 300 * k,
            c0 == old(rng).count(),
            old(rng).room(300_000),
            rng.words().len() == 4,
        decreases players - k,
    {
        match far(g, rng, 14) {
            Some((x, y)) => {
                let n = rng.range_i32(3, 5) as usize;
                let ghost before = g.spawns@;
                blob(g, rng, STONE_MINE, x, y, n);
                proof {
                    lemma_appends_gaia_trans(old(g).spawns@, before, g.spawns@);
                }
            },
            None => {},
        }
        k = k + 1;
    }
    let mut k: i32 = 0;
    while k < players as i32
        invariant
            g.wf(),
            g.covers(),
            g.size == size,
            g.starts == old(g).starts,
            g.tiles == old(g).tiles,
            appends_gaia(old(g).spawns@, g.spawns@),
            1 <= players <= 8,
            0 <= k <= players,
            g.spawns@.len() <= 1_600 + 53 * 120 + 8 * 24 + 8 * k,
            c0 <= rng.count() <= c0 + 1_100 * 120 + 300 * 24 + 300 * k,
            c0 == old(rng).count(),
            old(rng).room(300_000),
            rng.words().len() == 4,
        decreases players - k,
    {
        match far(g, rng, 12) {
            Some((x, y)) => {
                let ghost before = g.spawns@;
                blob(g, rng, BERRY_BUSH, x, y, 5);
                proof {
                    lemma_appends_gaia_trans(old(g).spawns@, before, g.spawns@);
                }
            },
            None => {},
        }
        k = k + 1;
    }
    let mut k: i32 = 0;
    while k < players as i32 * 2
        invariant
            g.wf(),
            g.covers(),
            g.size == size,
            g.starts == old(g).starts,
            g.tiles == old(g).tiles,
            appends_gaia(old(g).spawns@, g.spawns@),
            1 <= players <= 8,
            0 <= k <= players * 2,
            g.spawns@.len() <= 1_600 + 53 * 120 + 8 * 32 + 3 * k,
            c0 <= rng.count() <= c0 + 1_100 * 120 + 300 * 32 + 80 * k,
            c0 == old(rng).count(),
            old(rng).room(300_000),
            rng.words().len() == 4,
        decreases players * 2 - k,
    {
        match far(g, rng, 12) {
            Some((x, y)) => {
                let mut i: i32 = 0;
                while i < 3
                    invariant
                        g.wf(),
                        g.covers(),
                        g.size == size,
                        g.starts == old(g).starts,
                        g.tiles == old(g).tiles,
                        appends_gaia(old(g).spawns@, g.spawns@),
                        0 <= i <= 3,
                        2 <= x < size - 2,
                        2 <= y < size - 2,
                        g.spawns@.len() <= 1_600 + 53 * 120 + 8 * 32 + 3 * k + i,
                        0 <= k < players * 2,
                        players <= 8,
                    decreases 3 - i,
                {
                    match g.nearest_free(x + i, y, 3) {
                        Some((ux, uy)) => {
                            let ghost before = g.spawns@;
                            g.place_unit(GAZELLE, GAIA, ux, uy);
                            proof {
                                lemma_appends_gaia_trans(old(g).spawns@, before, g.spawns@);
                            }
                        },
                        None => {},
                    }
                    i = i + 1;
                }
            },
            None => {},
        }
        k = k + 1;
    }
    // Forest floor under every tree.
    let ghost sp0 = g.spawns@;
    let mut s: usize = 0;
    while s < g.spawns.len()
        invariant
            g.wf(),
            g.covers(),
            g.size == size,
            g.starts == old(g).starts,
            appends_gaia(old(g).spawns@, g.spawns@),
            s <= g.spawns@.len(),
            g.spawns@ == sp0,
            g.tiles.w() == old(g).tiles.w(),
            g.tiles.h() == old(g).tiles.h(),
            g.tiles.heights() == old(g).tiles.heights(),
            forall|k: int|
                0 <= k < s && (#[trigger] sp0[k]).kind == TREE && g.tiles.in_map(tree_tile(sp0[k]).0, tree_tile(sp0[k]).1)
                    ==> g.tiles.tile_at(tree_tile(sp0[k]).0, tree_tile(sp0[k]).1) == Terrain::ForestFloor,
            forall|x: int, y: int|
                #[trigger] g.tiles.in_map(x, y) && g.tiles.tile_at(x, y) != old(g).tiles.tile_at(x, y) ==> exists|k: int|
                    0 <= k < s && (#[trigger] sp0[k]).kind == TREE && tree_tile(sp0[k]) == (x, y),
        decreases g.spawns.len() - s,
    {
        let sp = g.spawns[s];
        let ghost tb = g.tiles;
        if sp.kind == TREE {
            let tx = sp.pos.x.floor();
            let ty = sp.pos.y.floor();
            g.tiles.set_terrain(tx, ty, Terrain::ForestFloor);
            proof {
                assert(tree_tile(sp) == (tx as int, ty as int));
                assert forall|k: int|
                    0 <= k < s + 1 && (#[trigger] sp0[k]).kind == TREE && g.tiles.in_map(tree_tile(sp0[k]).0, tree_tile(sp0[k]).1)
                        implies g.tiles.tile_at(tree_tile(sp0[k]).0, tree_tile(sp0[k]).1) == Terrain::ForestFloor by {
                    if tb.in_map(tx as int, ty as int) {
                        lemma_tile_update(tb, g.tiles, tx as int, ty as int, Terrain::ForestFloor, tree_tile(sp0[k]).0, tree_tile(sp0[k]).1);
                    }
                }
                assert forall|x: int, y: int|
                    #[trigger] g.tiles.in_map(x, y) && g.tiles.tile_at(x, y) != old(g).tiles.tile_at(x, y) implies exists|k: int|
                        0 <= k < s + 1 && (#[trigger] sp0[k]).kind == TREE && tree_tile(sp0[k]) == (x, y) by {
                    if tb.in_map(tx as int, ty as int) {
                        lemma_tile_update(tb, g.tiles, tx as int, ty as int, Terrain::ForestFloor, x, y);
                        if x == tx && y == ty {
                            assert(sp0[s as int] == sp);
                        } else {
                            assert(tb.in_map(x, y));
                            assert(tb.tile_at(x, y) == g.tiles.tile_at(x, y));
                            let w = choose|k: int| 0 <= k < s && (#[trigger] sp0[k]).kind == TREE && tree_tile(sp0[k]) == (x, y);
                            assert(0 <= w < s + 1 && sp0[w].kind == TREE && tree_tile(sp0[w]) == (x, y));
                        }
                    } else {
                        assert(tb.in_map(x, y));
                        assert(tb.tile_at(x, y) == g.tiles.tile_at(x, y));
                        let w = choose|k: int| 0 <= k < s && (#[trigger] sp0[k]).kind == TREE && tree_tile(sp0[k]) == (x, y);
                        assert(0 <= w < s + 1 && sp0[w].kind == TREE && tree_tile(sp0[w]) == (x, y));
                    }
                }
            }
        } else {
            proof {
                assert forall|x: int, y: int|
                    #[trigger] g.tiles.in_map(x, y) && g.tiles.tile_at(x, y) != old(g).tiles.tile_at(x, y) implies exists|k: int|
                        0 <= k < s + 1 && (#[trigger] sp0[k]).kind == TREE && tree_tile(sp0[k]) == (x, y) by {
                    let w = choose|k: int| 0 <= k < s && (#[trigger] sp0[k]).kind == TREE && tree_tile(sp0[k]) == (x, y);
                    assert(0 <= w < s + 1 && sp0[w].kind == TREE && tree_tile(sp0[w]) == (x, y));
                }
            }
        }
        s = s + 1;
    }
}

impl Gen {
    /// A unit may walk the tile while the map is laid out: on the map, not
    /// blocked, and not water.
    spec fn walkable(&self, x: int, y: int) -> bool {
        self.inside(x, y) && self.occ_at(x, y) != Occ::Blocked && !is_water_spec(self.tiles.tile_at(x, y))
    }

    fn walkable_at(&self, x: i32, y: i32) -> (r: bool)
        requires
            self.wf(),
        ensures
            r == self.walkable(x as int, y as int),
    {
        self.in_bounds(x, y) && self.placeable(x, y) && self.tiles.walkable(x, y)
    }
}

/// Each tile of the walk is an orthogonal step from the one before, and
/// every tile is walkable.
spec fn gen_walk(g: &Gen, p: Seq<(i32, i32)>) -> bool {
    &&& p.len() >= 1
    &&& forall|k: int| 0 <= k < p.len() ==> g.walkable((#[trigger] p[k]).0 as int, p[k].1 as int)
    &&& forall|k: int| 0 <= k < p.len() - 1 ==> {
        let dx = (#[trigger] p[k + 1]).0 - p[k].0;
        let dy = p[k + 1].1 - p[k].1;
        (dx == 0 && (dy == 1 || dy == -1)) || (dy == 0 && (dx == 1 || dx == -1))
    }
}

/// Some walk leads from `a` to `b`.
spec fn walk_between(g: &Gen, a: (i32, i32), b: (i32, i32)) -> bool {
    exists|p: Seq<(i32, i32)>| #[trigger] gen_walk(g, p) && p[0] == a && p.last() == b
}

/// A walk over tiles the generator left open is a walk over clear tiles of
/// the map it returns.
proof fn lemma_walk_clear(g: &Gen, p: Seq<(i32, i32)>)
    requires
        g.wf(),
        g.covers(),
        gen_walk(g, p),
    ensures
        clear_walk(g.tiles, g.spawns@, p),
{
    assert forall|k: int| 0 <= k < p.len() implies clear_tile(g.tiles, g.spawns@, (#[trigger] p[k]).0 as int, p[k].1 as int) by {
        let x = p[k].0 as int;
        let y = p[k].1 as int;
        assert(g.walkable(x, y));
        assert forall|j: int| 0 <= j < g.spawns@.len() implies !blocks(#[trigger] g.spawns@[j], x, y) by {
            if blocks(g.spawns@[j], x, y) {
                assert(g.occ_at(x, y) == Occ::Blocked);
            }
        }
    }
}

/// The tile two rows below a start, where its villagers stand.
pub open spec fn villager_row(t: (i32, i32)) -> (i32, i32) {
    (t.0, (t.1 + 2) as i32)
}

/// The `d`-th orthogonal direction: east, west, south, north.
spec fn dir4(d: int) -> (int, int) {
    if d == 0 {
        (1, 0)
    } else if d == 1 {
        (-1, 0)
    } else if d == 2 {
        (0, 1)
    } else {
        (0, -1)
    }
}

/// The walkable neighbour of `(x, y)` in direction `d`, if any, is seen.
spec fn step_seen(g: &Gen, seen: Seq<bool>, x: int, y: int, d: int) -> bool {
    g.walkable(x + dir4(d).0, y + dir4(d).1) ==> seen[g.idx_spec(x + dir4(d).0, y + dir4(d).1)]
}

/// Every walkable neighbour of tile `i` is seen.
spec fn closed_at(g: &Gen, seen: Seq<bool>, i: int) -> bool {
    forall|d: int| 0 <= d < 4 ==> #[trigger] step_seen(g, seen, g.tile_spec(i).0 as int, g.tile_spec(i).1 as int, d)
}

/// Seeing more keeps a tile's neighbours seen.
proof fn lemma_closed_grows(g: &Gen, s1: Seq<bool>, s2: Seq<bool>, i: int)
    requires
        s1.len() == s2.len(),
        forall|k: int| 0 <= k < s1.len() && #[trigger] s1[k] ==> s2[k],
        g.wf(),
        s1.len() == g.size * g.size,
        closed_at(g, s1, i),
    ensures
        closed_at(g, s2, i),
{
    assert forall|d: int| 0 <= d < 4 implies #[trigger] step_seen(g, s2, g.tile_spec(i).0 as int, g.tile_spec(i).1 as int, d) by {
        let x = g.tile_spec(i).0 as int + dir4(d).0;
        let y = g.tile_spec(i).1 as int + dir4(d).1;
        assert(step_seen(g, s1, g.tile_spec(i).0 as int, g.tile_spec(i).1 as int, d));
        if g.walkable(x, y) {
            g.lemma_tile_spec(x, y);
            assert(s1[g.idx_spec(x, y)]);
        }
    }
}

/// When every seen tile has its walkable neighbours seen, a walk that
/// starts on a seen tile stays on seen tiles.
proof fn lemma_walk_seen(g: &Gen, seen: Seq<bool>, p: Seq<(i32, i32)>, k: int)
    requires
        g.wf(),
        seen.len() == g.size * g.size,
        gen_walk(g, p),
        0 <= k < p.len(),
        seen[g.idx_spec(p[0].0 as int, p[0].1 as int)],
        forall|i: int| 0 <= i < seen.len() && #[trigger] seen[i] ==> closed_at(g, seen, i),
    ensures
        seen[g.idx_spec(p[k].0 as int, p[k].1 as int)],
    decreases k,
{
    if k > 0 {
        lemma_walk_seen(g, seen, p, k - 1);
        let a = p[k - 1];
        let b = p[k];
        assert(g.walkable(a.0 as int, a.1 as int));
        assert(g.walkable(b.0 as int, b.1 as int));
        g.lemma_tile_spec(a.0 as int, a.1 as int);
        let i = g.idx_spec(a.0 as int, a.1 as int);
        assert(closed_at(g, seen, i));
        let j = k - 1;
        assert(p[j + 1] == b);
        let ex = b.0 - a.0;
        let ey = b.1 - a.1;
        assert((ex == 0 && (ey == 1 || ey == -1)) || (ey == 0 && (ex == 1 || ex == -1)));
        let d: int = if ex == 1 { 0 } else if ex == -1 { 1 } else if ey == 1 { 2 } else { 3 };
        assert(step_seen(g, seen, a.0 as int, a.1 as int, d));
    }
}

/// Breadth-first flood over walkable tiles from the row below the first
/// start (its Town Center blocks its own tile); true when the tile two rows
/// below every start was reached, and then each of them has a walk from
/// that origin.
fn all_starts_connected(g: &Gen) -> (r: bool)
    requires
        g.wf(),
        g.starts@.len() > 0,
    ensures
        r <==> forall|k: int| 0 <= k < g.starts@.len() ==> walk_between(g, villager_row(g.starts@[0]), villager_row(
            #[trigger] g.starts@[k])),
{
    let size = g.size;
    proof {
        lemma_area(size as int);
    }
    let n = (size * size) as usize;
    let mut seen = crate::nav::filled(false, n);
    let mut queue: VecDeque<(i32, i32)> = VecDeque::new();
    let (sx, sy) = g.starts[0];
    let origin = (sx, sy + 2);
    if !g.walkable_at(origin.0, origin.1) {
        proof {
            assert(villager_row(g.starts@[0]) == origin);
            if walk_between(g, origin, villager_row(g.starts@[0])) {
                let p = choose|p: Seq<(i32, i32)>| #[trigger] gen_walk(g, p) && p[0] == origin && p.last() == origin;
                assert(g.walkable(p[0].0 as int, p[0].1 as int));
            }
        }
        return false;
    }
    let oi = g.idx(origin.0, origin.1);
    let ghost s0 = seen@;
    seen.set(oi, true);
    queue.push_back(origin);
    let ghost mut paths: Map<int, Seq<(i32, i32)>> = map![oi as int => seq![origin]];
    proof {
        g.lemma_tile_spec(origin.0 as int, origin.1 as int);
        assert(gen_walk(g, seq![origin]));
        lemma_count_update(s0, oi as int, true);
        lemma_count_le(seen@);
        assert forall|i: int| 0 <= i < n && #[trigger] seen@[i] implies paths.dom().contains(i) && gen_walk(g, paths[i])
            && paths[i][0] == origin && paths[i].last() == g.tile_spec(i) by {
            if i != oi {
                assert(seen@[i] == s0[i]);
            }
        }
        assert forall|i: int| 0 <= i < n && #[trigger] seen@[i] && !queue@.contains(g.tile_spec(i)) implies closed_at(
            g,
            seen@,
            i,
        ) by {
            if i != oi {
                assert(seen@[i] == s0[i]);
            } else {
                assert(queue@[0] == origin);
            }
        }
    }
    loop
        invariant
            g.wf(),
            g.starts@.len() > 0,
            size == g.size,
            n == size * size,
            seen@.len() == n,
            count_true(seen@) <= n,
            origin == villager_row((sx, sy)),
            (sx, sy) == g.starts@[0],
            forall|q: int| 0 <= q < queue@.len() ==> g.inside((#[trigger] queue@[q]).0 as int, queue@[q].1 as int)
                && seen@[g.idx_spec(queue@[q].0 as int, queue@[q].1 as int)],
            forall|i: int| 0 <= i < n && #[trigger] seen@[i] ==> paths.dom().contains(i) && gen_walk(g, paths[i])
                && paths[i][0] == origin && paths[i].last() == g.tile_spec(i),
            g.inside(origin.0 as int, origin.1 as int),
            seen@[g.idx_spec(origin.0 as int, origin.1 as int)],
            forall|i: int| 0 <= i < n && #[trigger] seen@[i] && !queue@.contains(g.tile_spec(i)) ==> closed_at(g, seen@, i),
        ensures
            queue@.len() == 0,
        decreases 2 * (n - count_true(seen@)) + queue@.len(),
    {
        let ghost q0 = queue@;
        let (x, y) = match queue.pop_front() {
            Some(t) => t,
            None => {
                break;
            },
        };
        let ghost measure = 2 * (n - count_true(seen@)) + queue@.len();
        proof {
            assert(q0[0] == (x, y));
            assert forall|q: int| 0 <= q < queue@.len() implies g.inside((#[trigger] queue@[q]).0 as int, queue@[q].1 as int)
                && seen@[g.idx_spec(queue@[q].0 as int, queue@[q].1 as int)] by {
                assert(queue@[q] == q0[q + 1]);
            }
            assert forall|i: int| 0 <= i < n && #[trigger] seen@[i] && !queue@.contains(g.tile_spec(i)) && g.tile_spec(i) != (
                x,
                y,
            ) implies closed_at(g, seen@, i) by {
                if q0.contains(g.tile_spec(i)) {
                    let q = choose|q: int| 0 <= q < q0.len() && q0[q] == g.tile_spec(i);
                    assert(q != 0);
                    assert(queue@[q - 1] == q0[q]);
                }
            }
        }
        let mut d: usize = 0;
        while d < 4
            invariant
                g.wf(),
                g.starts@.len() > 0,
                size == g.size,
                n == size * size,
                seen@.len() == n,
                count_true(seen@) <= n,
                2 * (n - count_true(seen@)) + queue@.len() <= measure,
                g.inside(x as int, y as int),
                seen@[g.idx_spec(x as int, y as int)],
                origin == villager_row((sx, sy)),
                (sx, sy) == g.starts@[0],
                d <= 4,
                forall|q: int| 0 <= q < queue@.len() ==> g.inside((#[trigger] queue@[q]).0 as int, queue@[q].1 as int)
                    && seen@[g.idx_spec(queue@[q].0 as int, queue@[q].1 as int)],
                forall|i: int| 0 <= i < n && #[trigger] seen@[i] ==> paths.dom().contains(i) && gen_walk(g, paths[i])
                    && paths[i][0] == origin && paths[i].last() == g.tile_spec(i),
                g.inside(origin.0 as int, origin.1 as int),
                seen@[g.idx_spec(origin.0 as int, origin.1 as int)],
                forall|i: int| 0 <= i < n && #[trigger] seen@[i] && !queue@.contains(g.tile_spec(i)) && g.tile_spec(i) != (x, y)
                    ==> closed_at(g, seen@, i),
                forall|e: int| 0 <= e < d ==> #[trigger] step_seen(g, seen@, x as int, y as int, e),
            decreases 4 - d,
        {
            let (dx, dy) = if d == 0 { (1, 0) } else if d == 1 { (-1, 0) } else if d == 2 { (0, 1) } else { (0, -1) };
            let nx = x + dx;
            let ny = y + dy;
            if g.walkable_at(nx, ny) {
                let j = g.idx(nx, ny);
                if !seen[j] {
                    let ghost sb = seen@;
                    let ghost qb = queue@;
                    proof {
                        let here = g.idx_spec(x as int, y as int);
                        g.lemma_tile_spec(x as int, y as int);
                        g.lemma_tile_spec(nx as int, ny as int);
                        let p = paths[here].push((nx, ny));
                        assert forall|k: int| 0 <= k < p.len() - 1 implies {
                            let ex = (#[trigger] p[k + 1]).0 - p[k].0;
                            let ey = p[k + 1].1 - p[k].1;
                            (ex == 0 && (ey == 1 || ey == -1)) || (ey == 0 && (ex == 1 || ex == -1))
                        } by {
                            if k < p.len() - 2 {
                                assert(p[k] == paths[here][k] && p[k + 1] == paths[here][k + 1]);
                            }
                        }
                        assert forall|k: int| 0 <= k < p.len() implies g.walkable((#[trigger] p[k]).0 as int, p[k].1 as int) by {
                            if k < p.len() - 1 {
                                assert(p[k] == paths[here][k]);
                            }
                        }
                        assert(gen_walk(g, p));
                        paths = paths.insert(j as int, p);
                    }
                    seen.set(j, true);
                    queue.push_back((nx, ny));
                    proof {
                        lemma_count_update(sb, j as int, true);
                        lemma_count_le(seen@);
                        assert forall|q: int| 0 <= q < queue@.len() implies g.inside((#[trigger] queue@[q]).0 as int, queue@[q].1
                            as int) && seen@[g.idx_spec(queue@[q].0 as int, queue@[q].1 as int)] by {
                            if q < qb.len() {
                                assert(queue@[q] == qb[q]);
                                g.lemma_tile_spec(qb[q].0 as int, qb[q].1 as int);
                                assert(sb[g.idx_spec(qb[q].0 as int, qb[q].1 as int)]);
                            } else {
                                assert(queue@[q] == (nx, ny));
                                assert(g.idx_spec(nx as int, ny as int) == j);
                                assert(g.inside(nx as int, ny as int));
                            }
                        }
                        assert forall|i: int| 0 <= i < n && #[trigger] seen@[i] implies paths.dom().contains(i) && gen_walk(
                            g,
                            paths[i],
                        ) && paths[i][0] == origin && paths[i].last() == g.tile_spec(i) by {
                            if i != j {
                                assert(seen@[i] == sb[i]);
                            }
                        }
                        assert forall|k: int| 0 <= k < sb.len() && #[trigger] sb[k] implies seen@[k] by {
                            if k != j {
                                assert(seen@[k] == sb[k]);
                            }
                        }
                        assert forall|i: int| 0 <= i < n && #[trigger] seen@[i] && !queue@.contains(g.tile_spec(i))
                            && g.tile_spec(i) != (x, y) implies closed_at(g, seen@, i) by {
                            if i != j {
                                assert(seen@[i] == sb[i]);
                                if qb.contains(g.tile_spec(i)) {
                                    let q = choose|q: int| 0 <= q < qb.len() && qb[q] == g.tile_spec(i);
                                    assert(queue@[q] == qb[q]);
                                }
                                lemma_closed_grows(g, sb, seen@, i);
                            } else {
                                g.lemma_tile_spec(nx as int, ny as int);
                                assert(queue@[queue@.len() - 1] == (nx, ny));
                            }
                        }
                        assert forall|e: int| 0 <= e < d implies #[trigger] step_seen(g, seen@, x as int, y as int, e) by {
                            assert(step_seen(g, sb, x as int, y as int, e));
                            let tx = x + dir4(e).0;
                            let ty = y + dir4(e).1;
                            if g.walkable(tx, ty) {
                                g.lemma_tile_spec(tx, ty);
                                assert(sb[g.idx_spec(tx, ty)]);
                                assert(seen@[g.idx_spec(tx, ty)]);
                            }
                        }
                        g.lemma_tile_spec(origin.0 as int, origin.1 as int);
                        assert(sb[g.idx_spec(origin.0 as int, origin.1 as int)]);
                        assert(seen@[g.idx_spec(origin.0 as int, origin.1 as int)]);
                    }
                }
            }
            proof {
                assert(dir4(d as int) == (dx as int, dy as int));
                assert(step_seen(g, seen@, x as int, y as int, d as int));
            }
            d = d + 1;
        }
        proof {
            assert forall|i: int| 0 <= i < n && #[trigger] seen@[i] && !queue@.contains(g.tile_spec(i)) implies closed_at(
                g,
                seen@,
                i,
            ) by {
                if g.tile_spec(i) == (x, y) {
                    assert forall|e: int| 0 <= e < 4 implies #[trigger] step_seen(
                        g,
                        seen@,
                        g.tile_spec(i).0 as int,
                        g.tile_spec(i).1 as int,
                        e,
                    ) by {
                        assert(step_seen(g, seen@, x as int, y as int, e));
                    }
                }
            }
        }
    }
    let mut k: usize = 0;
    while k < g.starts.len()
        invariant
            g.wf(),
            size == g.size,
            n == size * size,
            seen@.len() == n,
            origin == villager_row((sx, sy)),
            (sx, sy) == g.starts@[0],
            k <= g.starts@.len(),
            forall|i: int| 0 <= i < n && #[trigger] seen@[i] ==> paths.dom().contains(i) && gen_walk(g, paths[i])
                && paths[i][0] == origin && paths[i].last() == g.tile_spec(i),
            forall|j: int| 0 <= j < k ==> walk_between(g, origin, villager_row(#[trigger] g.starts@[j])),
            g.inside(origin.0 as int, origin.1 as int),
            seen@[g.idx_spec(origin.0 as int, origin.1 as int)],
            forall|i: int| 0 <= i < n && #[trigger] seen@[i] ==> closed_at(g, seen@, i),
        decreases g.starts.len() - k,
    {
        let (x, y) = g.starts[k];
        let i = g.idx(x, y + 2);
        if !seen[i] {
            proof {
                if walk_between(g, origin, villager_row(g.starts@[k as int])) {
                    let p = choose|p: Seq<(i32, i32)>| #[trigger] gen_walk(g, p) && p[0] == origin && p.last() == villager_row(
                        g.starts@[k as int],
                    );
                    lemma_walk_seen(g, seen@, p, p.len() - 1);
                }
            }
            return false;
        }
        proof {
            g.lemma_tile_spec(x as int, y + 2);
            assert(gen_walk(g, paths[i as int]));
        }
        k = k + 1;
    }
    true
}

impl Gen {
    spec fn idx_spec(&self, x: int, y: int) -> int {
        y * self.size + x
    }

    spec fn tile_spec(&self, i: int) -> (i32, i32) {
        ((i % (self.size as int)) as i32, (i / (self.size as int)) as i32)
    }

    proof fn lemma_tile_spec(&self, x: int, y: int)
        requires
            self.wf(),
            self.inside(x, y),
        ensures
            self.tile_spec(self.idx_spec(x, y)) == (x as i32, y as i32),
            0 <= self.idx_spec(x, y) < self.size * self.size,
    {
        crate::nav::lemma_index_in_grid(x, y, self.size as int, self.size as int);
        vstd::arithmetic::div_mod::lemma_fundamental_div_mod_converse(y * self.size + x, self.size as int, y, x);
    }
}

/// The number of attempts an inland map gets before the flat fallback.
pub const ATTEMPTS: u32 = 12;

/// Generates a map. Never fails: if a seed produces a map whose starts
/// cannot walk to one another it moves to the next derived seed, and after
/// twelve attempts falls back to a flat map. The size is clamped to
/// `48..=256` and the player count to `1..=8`. An inland map that passed
/// its check gives the players exactly their kits and lets the row below
/// each start reach that of the first (and so, by
/// [`lemma_starts_connected_pairwise`], of every other).
pub fn generate(seed: u64, spec: &MapSpec) -> (r: Generated)
    ensures
        r.tiles.wf(),
        r.tiles.smooth(),
        r.tiles.w() == clamp_int(spec.size as int, 48, 256),
        r.tiles.h() == clamp_int(spec.size as int, 48, 256),
        r.starts@.len() == clamp_int(spec.players as int, 1, 8),
        starts_inside(r.starts@, clamp_int(spec.size as int, 48, 256)),
        1 <= r.attempts <= ATTEMPTS + 1,
        r.spawns@.len() <= 100_000,
        spec.kind == MapKind::Flat ==> r.attempts == 1 && r.spawns@.len() == 0,
        spec.kind == MapKind::Inland && r.attempts <= ATTEMPTS ==> owned_spawns(r.spawns@) == kits(
            r.starts@,
            clamp_int(spec.players as int, 1, 8),
        ),
        spec.kind == MapKind::Inland && r.attempts <= ATTEMPTS ==> forall|k: int|
            0 <= k < r.starts@.len() ==> reaches(r.tiles, r.spawns@, villager_row(r.starts@[0]), villager_row(
                #[trigger] r.starts@[k])),
        r.attempts == ATTEMPTS + 1 ==> r.spawns@.len() == 0,
{
    let size = if spec.size < 48 { 48 } else if spec.size > 256 { 256 } else { spec.size };
    let players = if spec.players < 1 { 1 } else if spec.players > 8 { 8 } else { spec.players };
    let s = MapSpec { kind: spec.kind, size, players };
    match s.kind {
        MapKind::Flat => flat(&s),
        MapKind::Inland => {
            let mut attempt: u32 = 0;
            while attempt < ATTEMPTS
                invariant
                    s.size == clamp_int(spec.size as int, 48, 256),
                    s.players == clamp_int(spec.players as int, 1, 8),
                    s.kind == spec.kind,
                    spec.kind == MapKind::Inland,
                    attempt <= ATTEMPTS,
                decreases ATTEMPTS - attempt,
            {
                let mut rng = Rng::new(attempt_seed(seed, attempt));
                match inland(&mut rng, &s) {
                    Some(mut g) => {
                        g.attempts = attempt + 1;
                        return g;
                    },
                    None => {},
                }
                attempt = attempt + 1;
            }
            let mut g = flat(&s);
            g.attempts = ATTEMPTS + 1;
            g
        },
    }
}

/// The seed of the `attempt`-th try: the map seed advanced by the attempt,
/// scrambled by the golden-ratio multiplier.
fn attempt_seed(seed: u64, attempt: u32) -> (r: u64)
    ensures
        r == seed.wrapping_add(attempt as u64).wrapping_mul(0x9E37_79B9_7F4A_7C15),
{
    seed.wrapping_add(attempt as u64).wrapping_mul(0x9E37_79B9_7F4A_7C15)
}

} // verus!
