//! Navigation: which tiles are passable, whether two tiles are connected,
//! and how to get from one to the other.
//!
//! Three tools, cheapest first:
//!
//! 1. **Connected components** over passable tiles, relabelled when a
//!    blocker appears or disappears. "Can I get there?" is one comparison.
//! 2. **Line of sight** on the tile grid. Most trips are short and straight;
//!    if nothing is in the way, that is the path.
//! 3. **A\*** on tiles, 8-connected without corner cutting, octile heuristic,
//!    node-budgeted, followed by string-pulling.

use vstd::prelude::*;
use std::collections::VecDeque;
use crate::fx::{Fx, sat, round_div, from_int_raw, abs_int, div_raw};
use crate::hash::{HashState, StateHasher, fnv, le16, le_i32, lemma_fnv_append};
use crate::entity::{count_true, lemma_count_update, lemma_count_le};
use crate::map::{TileMap, is_water_spec};
use crate::vec2::Vec2Fx;

verus! {

/// A tile coordinate.
pub type Tile = (i32, i32);

/// The side of a footprint as laid out: at least one.
pub open spec fn fp_side(footprint: int) -> int {
    if footprint < 1 { 1 } else { footprint }
}

/// The `k`-th tile of a square footprint anchored at `(x, y)`, row by row.
pub open spec fn footprint_tile(x: int, y: int, footprint: int, k: int) -> (int, int) {
    let fp = fp_side(footprint);
    let half = fp / 2;
    (x - half + k % fp, y - half + k / fp)
}

/// The footprint fits the coordinate range.
pub open spec fn footprint_fits(x: int, y: int, footprint: int) -> bool {
    &&& footprint <= 46340
    &&& i32::MIN + 46340 <= x <= i32::MAX - 46340
    &&& i32::MIN + 46340 <= y <= i32::MAX - 46340
}

/// Tiles covered by a square footprint centred the way buildings are:
/// `fp × fp` tiles, `fp` at least one, from `fp / 2` up and left of the
/// anchor, row by row.
pub fn footprint_tiles(x: i32, y: i32, footprint: i32) -> (r: Vec<Tile>)
    requires
        footprint_fits(x as int, y as int, footprint as int),
    ensures
        r@.len() == fp_side(footprint as int) * fp_side(footprint as int),
        forall|k: int|
            0 <= k < r@.len() ==> (#[trigger] r@[k]).0 == footprint_tile(x as int, y as int, footprint as int, k).0
                && r@[k].1 == footprint_tile(x as int, y as int, footprint as int, k).1,
{
    let fp = if footprint < 1 { 1 } else { footprint };
    let half = fp / 2;
    let mut out: Vec<Tile> = Vec::new();
    let mut dy: i32 = -half;
    proof {
        assert((dy + half) * fp == 0) by (nonlinear_arith)
            requires dy == -half;
    }
    while dy < fp - half
        invariant
            1 <= fp <= 46340,
            fp == fp_side(footprint as int),
            half == fp / 2,
            -half <= dy <= fp - half,
            footprint_fits(x as int, y as int, footprint as int),
            out@.len() == (dy + half) * fp,
            forall|k: int|
                0 <= k < out@.len() ==> (#[trigger] out@[k]).0 == footprint_tile(x as int, y as int, footprint as int, k).0
                    && out@[k].1 == footprint_tile(x as int, y as int, footprint as int, k).1,
        decreases fp - half - dy,
    {
        let mut dx: i32 = -half;
        while dx < fp - half
            invariant
                1 <= fp <= 46340,
                fp == fp_side(footprint as int),
                half == fp / 2,
                -half <= dy < fp - half,
                -half <= dx <= fp - half,
                footprint_fits(x as int, y as int, footprint as int),
                out@.len() == (dy + half) * fp + (dx + half),
                forall|k: int|
                    0 <= k < out@.len() ==> (#[trigger] out@[k]).0 == footprint_tile(x as int, y as int, footprint as int, k).0
                        && out@[k].1 == footprint_tile(x as int, y as int, footprint as int, k).1,
            decreases fp - half - dx,
        {
            proof {
                let k = (dy + half) * fp + (dx + half);
                assert(k % (fp as int) == dx + half && k / (fp as int) == dy + half) by (nonlinear_arith)
                    requires k == (dy + half) * fp + (dx + half), 0 <= dx + half < fp, 0 <= dy + half, fp >= 1;
            }
            out.push((x + dx, y + dy));
            dx = dx + 1;
        }
        proof {
            assert((dy + half) * fp + fp == (dy + 1 + half) * fp) by (nonlinear_arith);
        }
        dy = dy + 1;
    }
    proof {
        assert(fp * fp == (dy + half) * fp);
    }
    out
}

/// The raw coordinates of a building's centre anchored on `(x, y)`.
pub open spec fn building_centre_raw(a: int, footprint: int) -> int {
    let fp = fp_side(footprint);
    let half = fp / 2;
    sat(from_int_raw(a - half) + sat(round_div(fp * 65536, 2)))
}

/// World position of a building whose footprint is anchored on tile
/// `(x, y)` the way [`footprint_tiles`] lays it out: the geometric centre.
pub fn building_centre(x: i32, y: i32, footprint: i32) -> (r: Vec2Fx)
    requires
        footprint_fits(x as int, y as int, footprint as int),
    ensures
        r.x.0 == building_centre_raw(x as int, footprint as int),
        r.y.0 == building_centre_raw(y as int, footprint as int),
{
    let fp = if footprint < 1 { 1 } else { footprint };
    let half = fp / 2;
    let off = Fx::from_ratio(fp, 2);
    Vec2Fx::new(Fx::from_int(x - half) + off, Fx::from_int(y - half) + off)
}

/// Inverse of [`building_centre`]: the anchor tile of a building at `pos`,
/// the tile it lies in for an odd footprint, the nearest corner for an even
/// one.
pub fn anchor_tile(pos: Vec2Fx, footprint: i32) -> (r: Tile)
    ensures
        fp_side(footprint as int) % 2 == 1 ==> r.0 as int == pos.x.0 as int / 65536 && r.1 as int
            == pos.y.0 as int / 65536,
        fp_side(footprint as int) % 2 == 0 ==> r.0 as int == sat(pos.x.0 + 32768) / 65536 && r.1 as int
            == sat(pos.y.0 + 32768) / 65536,
{
    let fp = if footprint < 1 { 1 } else { footprint };
    if fp % 2 == 1 {
        (pos.x.floor(), pos.y.floor())
    } else {
        (pos.x.round(), pos.y.round())
    }
}

/// The centre point of a tile, as a spec value.
pub open spec fn centre_spec(t: Tile) -> Vec2Fx {
    Vec2Fx { x: Fx(sat(from_int_raw(t.0 as int) + 32768) as i32), y: Fx(sat(from_int_raw(t.1 as int) + 32768) as i32) }
}

/// Centre point of a tile.
pub fn centre(t: Tile) -> (r: Vec2Fx)
    ensures
        r.x.0 == sat(from_int_raw(t.0 as int) + 32768),
        r.y.0 == sat(from_int_raw(t.1 as int) + 32768),
        r == centre_spec(t),
{
    Vec2Fx::new(Fx::from_int(t.0) + Fx::HALF(), Fx::from_int(t.1) + Fx::HALF())
}

/// Tile containing a point.
pub fn tile_of(p: Vec2Fx) -> (r: Tile)
    ensures
        r.0 as int == p.x.0 as int / 65536,
        r.1 as int == p.y.0 as int / 65536,
{
    (p.x.floor(), p.y.floor())
}

/// Passability and connectivity for a map.
#[derive(Clone, PartialEq, Eq, Debug)]
pub struct NavGrid {
    width: i32,
    height: i32,
    /// Number of things blocking each tile; passable when zero.
    blockers: Vec<u16>,
    /// Component label per tile; 0 for impassable. Valid when `!dirty`.
    components: Vec<u16>,
    dirty: bool,
}

/// How many entries are zero.
pub open spec fn zeros(s: Seq<u16>) -> nat
    decreases s.len(),
{
    if s.len() == 0 {
        0
    } else {
        zeros(s.drop_last()) + if s.last() == 0 { 1nat } else { 0nat }
    }
}

proof fn lemma_zeros_update(s: Seq<u16>, i: int, v: u16)
    requires
        0 <= i < s.len(),
    ensures
        zeros(s.update(i, v)) == zeros(s) - (if s[i] == 0 { 1int } else { 0int }) + (if v == 0 { 1int } else { 0int }),
    decreases s.len(),
{
    if i == s.len() - 1 {
        assert(s.update(i, v).drop_last() =~= s.drop_last());
    } else {
        lemma_zeros_update(s.drop_last(), i, v);
        assert(s.update(i, v).drop_last() =~= s.drop_last().update(i, v));
    }
}

/// A run of zeros counts every entry.
proof fn lemma_zeros_all(s: Seq<u16>)
    requires
        forall|t: int| 0 <= t < s.len() ==> #[trigger] s[t] == 0,
    ensures
        zeros(s) == s.len(),
    decreases s.len(),
{
    if s.len() > 0 {
        lemma_zeros_all(s.drop_last());
    }
}

proof fn lemma_zeros_le(s: Seq<u16>)
    ensures
        zeros(s) <= s.len(),
    decreases s.len(),
{
    if s.len() > 0 {
        lemma_zeros_le(s.drop_last());
    }
}

/// The four orthogonal steps, in the order the flood visits them.
pub open spec fn ortho(k: int) -> (int, int) {
    if k == 0 { (1, 0) } else if k == 1 { (-1, 0) } else if k == 2 { (0, 1) } else { (0, -1) }
}

impl NavGrid {
    /// Width in tiles.
    pub closed spec fn gw(&self) -> int {
        self.width as int
    }

    /// Height in tiles.
    pub closed spec fn gh(&self) -> int {
        self.height as int
    }

    /// Blocker count per tile, row-major.
    pub closed spec fn blocks(&self) -> Seq<u16> {
        self.blockers@
    }

    /// Component label per tile, row-major.
    pub closed spec fn labels(&self) -> Seq<u16> {
        self.components@
    }

    /// Something changed since the labels were computed.
    pub closed spec fn is_dirty(&self) -> bool {
        self.dirty
    }

    /// The tile exists.
    pub open spec fn inside(&self, x: int, y: int) -> bool {
        0 <= x < self.gw() && 0 <= y < self.gh()
    }

    /// A unit may stand on the tile: it exists and nothing blocks it.
    pub open spec fn open_at(&self, x: int, y: int) -> bool {
        self.inside(x, y) && self.blocks()[y * self.gw() + x] == 0
    }

    /// A unit may stand on the tile `t`.
    pub open spec fn tile_open(&self, t: Tile) -> bool {
        self.open_at(t.0 as int, t.1 as int)
    }

    /// The label of an existing tile.
    pub open spec fn label_at(&self, x: int, y: int) -> u16 {
        self.labels()[y * self.gw() + x]
    }

    /// Labels are zero exactly on blocked tiles, and two open tiles side by
    /// side carry the same label.
    pub open spec fn labels_sound(&self) -> bool {
        &&& forall|x: int, y: int| #[trigger] self.inside(x, y) ==> (self.label_at(x, y) == 0 <==> !self.open_at(x, y))
        &&& forall|x: int, y: int, k: int|
            0 <= k < 4 && #[trigger] self.open_at(x, y) && #[trigger] self.open_at(x + ortho(k).0, y + ortho(k).1)
                ==> self.label_at(x, y) == self.label_at(x + ortho(k).0, y + ortho(k).1)
    }

    /// Sizes agree with the dimensions, which fit an `i32` index, and the
    /// labels are sound whenever the grid is not dirty; on a grid of at most
    /// 65535 tiles they are then also exact.
    pub open spec fn wf(&self) -> bool {
        &&& 0 <= self.gw()
        &&& 0 <= self.gh()
        &&& self.gw() <= 65535
        &&& self.gh() <= 65535
        &&& self.gw() * self.gh() <= i32::MAX
        &&& self.blocks().len() == self.gw() * self.gh()
        &&& self.labels().len() == self.gw() * self.gh()
        &&& !self.is_dirty() ==> self.labels_sound()
        &&& !self.is_dirty() && self.gw() * self.gh() <= 65535 ==> self.labels_exact()
    }

    /// Width in tiles.
    pub fn width(&self) -> (r: i32)
        ensures
            r == self.gw(),
    {
        self.width
    }

    /// Height in tiles.
    pub fn height(&self) -> (r: i32)
        ensures
            r == self.gh(),
    {
        self.height
    }

    fn idx(&self, x: i32, y: i32) -> (r: usize)
        requires
            self.wf(),
            self.inside(x as int, y as int),
        ensures
            r == y * self.gw() + x,
            r < self.blocks().len(),
    {
        proof {
            lemma_index_in_grid(x as int, y as int, self.gw(), self.gh());
        }
        (y * self.width + x) as usize
    }

    /// True if the tile exists.
    pub fn in_bounds(&self, x: i32, y: i32) -> (r: bool)
        ensures
            r == self.inside(x as int, y as int),
    {
        x >= 0 && y >= 0 && x < self.width && y < self.height
    }

    /// True if a unit may stand on the tile.
    pub fn passable(&self, x: i32, y: i32) -> (r: bool)
        requires
            self.wf(),
        ensures
            r == self.open_at(x as int, y as int),
    {
        self.in_bounds(x, y) && self.blockers[self.idx(x, y)] == 0
    }

    /// Adds a blocker to a tile (saturating); a tile off the map is
    /// ignored. The labels are stale afterwards.
    pub fn block(&mut self, x: i32, y: i32)
        requires
            old(self).wf(),
        ensures
            final(self).wf(),
            final(self).gw() == old(self).gw() && final(self).gh() == old(self).gh(),
            old(self).inside(x as int, y as int) ==> final(self).blocks() == old(self).blocks().update(
                y * old(self).gw() + x, old(self).blocks()[y * old(self).gw() + x].saturating_add(1)) && final(self).is_dirty(),
            !old(self).inside(x as int, y as int) ==> *final(self) == *old(self),
    {
        if self.in_bounds(x, y) {
            let i = self.idx(x, y);
            let v = self.blockers[i].saturating_add(1);
            self.blockers.set(i, v);
            self.dirty = true;
        }
    }

    /// Removes a blocker from a tile (saturating at zero); a tile off the
    /// map is ignored. The labels are stale afterwards.
    pub fn unblock(&mut self, x: i32, y: i32)
        requires
            old(self).wf(),
        ensures
            final(self).wf(),
            final(self).gw() == old(self).gw() && final(self).gh() == old(self).gh(),
            old(self).inside(x as int, y as int) ==> final(self).blocks() == old(self).blocks().update(
                y * old(self).gw() + x, old(self).blocks()[y * old(self).gw() + x].saturating_sub(1)) && final(self).is_dirty(),
            !old(self).inside(x as int, y as int) ==> *final(self) == *old(self),
    {
        if self.in_bounds(x, y) {
            let i = self.idx(x, y);
            let v = self.blockers[i].saturating_sub(1);
            self.blockers.set(i, v);
            self.dirty = true;
        }
    }
}

/// A tile inside a `w × h` grid has a row-major index below `w * h`.
pub proof fn lemma_index_in_grid(x: int, y: int, w: int, h: int)
    requires
        0 <= x < w,
        0 <= y < h,
    ensures
        0 <= y * w + x < w * h,
        y * w + x < h * w,
{
    assert(y * w + x < w * h) by (nonlinear_arith)
        requires 0 <= x < w, 0 <= y < h;
    assert(0 <= y * w) by (nonlinear_arith)
        requires 0 <= y, 0 <= w;
}

/// Row-major indices name distinct tiles.
pub proof fn lemma_index_unique(x1: int, y1: int, x2: int, y2: int, w: int)
    requires
        0 <= x1 < w,
        0 <= x2 < w,
        y1 * w + x1 == y2 * w + x2,
    ensures
        x1 == x2 && y1 == y2,
{
    if y1 < y2 {
        assert(y1 * w + w <= y2 * w) by (nonlinear_arith)
            requires y1 < y2, w > 0;
    } else if y1 > y2 {
        assert(y2 * w + w <= y1 * w) by (nonlinear_arith)
            requires y2 < y1, w > 0;
    }
}

impl NavGrid {
    /// Every open neighbour of `(x, y)` carries the same label in `c`.
    pub open spec fn closed_in(&self, c: Seq<u16>, x: int, y: int) -> bool {
        forall|k: int| 0 <= k < 4 && #[trigger] self.open_at(x + ortho(k).0, y + ortho(k).1)
            ==> c[(y + ortho(k).1) * self.gw() + x + ortho(k).0] == c[y * self.gw() + x]
    }

    /// Labels `(nx, ny)` and queues it if it is open and still unlabelled.
    fn visit(&self, comps: &mut Vec<u16>, queue: &mut VecDeque<usize>, nx: i32, ny: i32, label: u16)
        requires
            self.wf(),
            old(comps)@.len() == self.blocks().len(),
        ensures
            self.open_at(nx as int, ny as int) && old(comps)@[ny * self.gw() + nx] == 0 ==> {
                &&& final(comps)@ == old(comps)@.update(ny * self.gw() + nx, label)
                &&& final(queue)@ == old(queue)@.push((ny * self.gw() + nx) as usize)
            },
            !(self.open_at(nx as int, ny as int) && old(comps)@[ny * self.gw() + nx] == 0) ==> {
                &&& final(comps)@ == old(comps)@
                &&& final(queue)@ == old(queue)@
            },
    {
        if self.passable(nx, ny) {
            let j = self.idx(nx, ny);
            if comps[j] == 0 {
                comps.set(j, label);
                queue.push_back(j);
            }
        }
    }

    /// Labels and queues every open, unlabelled orthogonal neighbour of
    /// `(x, y)`, right, left, down, up.
    #[verifier::spinoff_prover]
    #[verifier::rlimit(60)]
    fn expand(&self, comps: &mut Vec<u16>, queue: &mut VecDeque<usize>, x: i32, y: i32, label: u16)
        requires
            self.wf(),
            self.inside(x as int, y as int),
            old(comps)@.len() == self.blocks().len(),
            label != 0,
        ensures
            final(comps)@.len() == old(comps)@.len(),
            final(queue)@.len() >= old(queue)@.len(),
            final(queue)@.take(old(queue)@.len() as int) == old(queue)@,
            zeros(final(comps)@) + (final(queue)@.len() - old(queue)@.len()) == zeros(old(comps)@),
            forall|m: int| old(queue)@.len() <= m < final(queue)@.len() ==> #[trigger] final(queue)@[m] < old(comps)@.len()
                && old(comps)@[final(queue)@[m] as int] == 0 && final(comps)@[final(queue)@[m] as int] == label,
            forall|t: int| 0 <= t < old(comps)@.len() ==> #[trigger] final(comps)@[t] == old(comps)@[t]
                || (old(comps)@[t] == 0 && final(comps)@[t] == label && self.blocks()[t] == 0
                    && final(queue)@.contains(t as usize)),
            forall|k: int| 0 <= k < 4 && #[trigger] self.open_at(x + ortho(k).0, y + ortho(k).1)
                ==> final(comps)@[(y + ortho(k).1) * self.gw() + x + ortho(k).0] != 0,
            forall|t: int| 0 <= t < old(comps)@.len() && #[trigger] final(comps)@[t] != old(comps)@[t] ==> exists|k: int|
                0 <= k < 4 && t == (y + #[trigger] ortho(k).1) * self.gw() + x + ortho(k).0 && self.open_at(
                    x + ortho(k).0,
                    y + ortho(k).1,
                ),
    {
        let ghost c0 = comps@;
        let ghost q0 = queue@;
        proof {
            lemma_zeros_le(c0);
        }
        self.visit(comps, queue, x + 1, y, label);
        proof {
            self.note_visit(c0, q0, comps@, queue@, (x + 1) as int, y as int, label);
        }
        let ghost c1 = comps@;
        let ghost q1 = queue@;
        self.visit(comps, queue, x - 1, y, label);
        proof {
            self.note_visit(c1, q1, comps@, queue@, (x - 1) as int, y as int, label);
        }
        let ghost c2 = comps@;
        let ghost q2 = queue@;
        self.visit(comps, queue, x, y + 1, label);
        proof {
            self.note_visit(c2, q2, comps@, queue@, x as int, (y + 1) as int, label);
        }
        let ghost c3 = comps@;
        let ghost q3 = queue@;
        self.visit(comps, queue, x, y - 1, label);
        proof {
            self.note_visit(c3, q3, comps@, queue@, x as int, (y - 1) as int, label);
        }
        proof {
            let c4 = comps@;
            let q4 = queue@;
            assert(q4.take(q0.len() as int) =~= q0) by {
                assert(q1.take(q0.len() as int) =~= q0);
                assert(q2.take(q1.len() as int) =~= q1);
                assert(q3.take(q2.len() as int) =~= q2);
                assert(q4.take(q3.len() as int) =~= q3);
            }
            assert forall|m: int| q0.len() <= m < q4.len() implies #[trigger] q4[m] < c0.len()
                && c0[q4[m] as int] == 0 && comps@[q4[m] as int] == label by {
                assert(q4.take(q3.len() as int) =~= q3);
                assert(q3.take(q2.len() as int) =~= q2);
                assert(q2.take(q1.len() as int) =~= q1);
                if m < q1.len() {
                    assert(q4[m] == q1[m]);
                } else if m < q2.len() {
                    assert(q4[m] == q2[m]);
                } else if m < q3.len() {
                    assert(q4[m] == q3[m]);
                }
            }
            assert forall|t: int| 0 <= t < c0.len() implies #[trigger] c4[t] == c0[t]
                || (c0[t] == 0 && c4[t] == label && self.blocks()[t] == 0 && q4.contains(t as usize)) by {
                assert(q4.take(q3.len() as int) =~= q3);
                assert(q3.take(q2.len() as int) =~= q2);
                assert(q2.take(q1.len() as int) =~= q1);
                if c1[t] != c0[t] {
                    let m = choose|m: int| 0 <= m < q1.len() && q1[m] == t as usize;
                    assert(q4[m] == q1[m]);
                } else if c2[t] != c1[t] {
                    let m = choose|m: int| 0 <= m < q2.len() && q2[m] == t as usize;
                    assert(q4[m] == q2[m]);
                } else if c3[t] != c2[t] {
                    let m = choose|m: int| 0 <= m < q3.len() && q3[m] == t as usize;
                    assert(q4[m] == q3[m]);
                }
            }
            assert forall|k: int| 0 <= k < 4 && #[trigger] self.open_at(x + ortho(k).0, y + ortho(k).1)
                implies c4[(y + ortho(k).1) * self.gw() + x + ortho(k).0] != 0 by {
                lemma_index_in_grid(x + ortho(k).0, y + ortho(k).1, self.gw(), self.gh());
            }
            assert forall|t: int| 0 <= t < c0.len() && #[trigger] c4[t] != c0[t] implies exists|k: int|
                0 <= k < 4 && t == (y + #[trigger] ortho(k).1) * self.gw() + x + ortho(k).0 && self.open_at(
                    x + ortho(k).0,
                    y + ortho(k).1,
                ) by {
                if c1[t] != c0[t] {
                    assert(ortho(0) == (1int, 0int));
                    assert(t == (y + ortho(0).1) * self.gw() + x + ortho(0).0);
                } else if c2[t] != c1[t] {
                    assert(ortho(1) == (-1int, 0int));
                    assert(t == (y + ortho(1).1) * self.gw() + x + ortho(1).0);
                } else if c3[t] != c2[t] {
                    assert(ortho(2) == (0int, 1int));
                    assert(t == (y + ortho(2).1) * self.gw() + x + ortho(2).0);
                } else {
                    assert(c4[t] != c3[t]);
                    assert(ortho(3) == (0int, -1int));
                    assert(t == (y + ortho(3).1) * self.gw() + x + ortho(3).0);
                }
            }
        }
    }

    /// What one call of `visit` did, in the terms `expand` states.
    proof fn note_visit(&self, c0: Seq<u16>, q0: Seq<usize>, c1: Seq<u16>, q1: Seq<usize>, nx: int, ny: int, label: u16)
        requires
            self.wf(),
            label != 0,
            c0.len() == self.blocks().len(),
            self.open_at(nx, ny) && c0[ny * self.gw() + nx] == 0 ==> c1 == c0.update(ny * self.gw() + nx, label)
                && q1 == q0.push((ny * self.gw() + nx) as usize),
            !(self.open_at(nx, ny) && c0[ny * self.gw() + nx] == 0) ==> c1 == c0 && q1 == q0,
        ensures
            c1.len() == c0.len(),
            q1.len() >= q0.len(),
            q1.take(q0.len() as int) =~= q0,
            zeros(c1) + (q1.len() - q0.len()) == zeros(c0),
            forall|m: int| q0.len() <= m < q1.len() ==> #[trigger] q1[m] < c0.len() && c0[q1[m] as int] == 0
                && c1[q1[m] as int] == label,
            forall|t: int| 0 <= t < c0.len() ==> #[trigger] c1[t] == c0[t] || (c0[t] == 0 && c1[t] == label
                && self.blocks()[t] == 0 && q1.contains(t as usize)),
            self.open_at(nx, ny) ==> c1[ny * self.gw() + nx] != 0 || c0[ny * self.gw() + nx] != 0,
            forall|t: int| 0 <= t < c0.len() && c0[t] != 0 ==> #[trigger] c1[t] == c0[t],
            forall|t: int| 0 <= t < c0.len() && #[trigger] c1[t] != c0[t] ==> t == ny * self.gw() + nx && self.open_at(nx, ny),
    {
        if self.open_at(nx, ny) && c0[ny * self.gw() + nx] == 0 {
            let j = ny * self.gw() + nx;
            lemma_index_in_grid(nx, ny, self.gw(), self.gh());
            lemma_zeros_update(c0, j, label);
            assert(q1[q0.len() as int] == j as usize);
            assert forall|t: int| 0 <= t < c0.len() implies #[trigger] c1[t] == c0[t] || (c0[t] == 0 && c1[t] == label
                && self.blocks()[t] == 0 && q1.contains(t as usize)) by {
                if t == j {
                    assert(q1[q0.len() as int] == t as usize);
                }
            }
        }
    }

    /// Recomputes component labels with a flood from each unlabelled open
    /// tile in row-major order; labels count up from 1, wrapping past
    /// `u16::MAX` back to 1.
    #[verifier::rlimit(80)]
    fn relabel(&mut self)
        requires
            old(self).wf(),
        ensures
            final(self).wf(),
            !final(self).is_dirty(),
            old(self).gw() * old(self).gh() <= 65535 ==> final(self).labels_exact(),
            final(self).gw() == old(self).gw(),
            final(self).gh() == old(self).gh(),
            final(self).blocks() == old(self).blocks(),
    {
        let n = self.blockers.len();
        let w = self.width;
        let ghost h = self.gh();
        let mut comps: Vec<u16> = Vec::new();
        let mut z: usize = 0;
        while z < n
            invariant
                z <= n,
                comps@.len() == z,
                forall|i: int| 0 <= i < z ==> #[trigger] comps@[i] == 0,
            decreases n - z,
        {
            comps.push(0);
            z = z + 1;
        }
        let mut next: u16 = 1;
        let mut queue: VecDeque<usize> = VecDeque::new();
        let ghost small = n <= 65535;
        let ghost mut count: int = 0;
        let ghost mut seeds: Map<u16, Tile> = Map::empty();
        let ghost mut paths: Map<int, Seq<Tile>> = Map::empty();
        proof {
            assert forall|x: int, y: int| #[trigger] self.inside(x, y) implies comps@[y * w + x] == 0 by {
                lemma_index_in_grid(x, y, w as int, h);
            }
            lemma_zeros_le(comps@);
            assert forall|t: int| 0 <= t < comps@.len() implies #[trigger] comps@[t] == 0 by {}
            assert(zeros(comps@) == n) by {
                lemma_zeros_all(comps@);
            }
        }
        let mut start: usize = 0;
        while start < n
            invariant
                self.wf(),
                n == self.blocks().len(),
                w == self.gw(),
                h == self.gh(),
                comps@.len() == n,
                queue@.len() == 0,
                start <= n,
                next >= 1,
                forall|x: int, y: int| #[trigger] self.inside(x, y) && comps@[y * w + x] != 0 ==> self.open_at(x, y),
                forall|x: int, y: int| #[trigger] self.inside(x, y) && comps@[y * w + x] != 0 ==> self.closed_in(comps@, x, y),
                forall|x: int, y: int| #[trigger] self.inside(x, y) && y * w + x < start && self.open_at(x, y)
                    ==> comps@[y * w + x] != 0,
                small == (n <= 65535),
                small ==> flood_tracked(self, comps@, seeds, paths, count, next),
            decreases n - start,
        {
            if self.blockers[start] == 0 && comps[start] == 0 {
                let label = next;
                next = if next == u16::MAX { 1 } else { next + 1 };
                let ghost sx = start as int % w as int;
                let ghost sy = start as int / w as int;
                proof {
                    lemma_split_index(start as int, w as int, h);
                    assert(self.inside(sx, sy));
                    assert forall|x: int, y: int| #[trigger] self.inside(x, y) && comps@[y * w + x] != 0
                        implies self.closed_in(comps@.update(start as int, label), x, y) by {
                        assert forall|k: int| 0 <= k < 4 && #[trigger] self.open_at(x + ortho(k).0, y + ortho(k).1)
                            implies comps@.update(start as int, label)[(y + ortho(k).1) * w + x + ortho(k).0]
                                == comps@.update(start as int, label)[y * w + x] by {
                            assert(self.closed_in(comps@, x, y));
                            lemma_index_in_grid(x, y, w as int, h);
                            lemma_index_in_grid(x + ortho(k).0, y + ortho(k).1, w as int, h);
                            if (y + ortho(k).1) * w + x + ortho(k).0 == start as int {
                                lemma_index_unique(x + ortho(k).0, y + ortho(k).1, sx, sy, w as int);
                            }
                            if y * w + x == start as int {
                                lemma_index_unique(x, y, sx, sy, w as int);
                            }
                        }
                    }
                }
                let ghost cp = comps@;
                let ghost old_next = label;
                comps.set(start, label);
                queue.push_back(start);
                proof {
                    if small {
                        lemma_zeros_update(cp, start as int, label);
                        lemma_zeros_le(cp);
                        assert(count < 65535);
                        assert(label == count + 1);
                        let st = index_tile(start as int, w as int);
                        lemma_index_tile(sx, sy, w as int, h);
                        assert(sy * w + sx == start as int);
                        assert(st == (sx as i32, sy as i32));
                        assert(self.open_at(sx, sy));
                        let sp = seq![st];
                        assert(orth_walk(self, sp));
                        let seeds1 = seeds.insert(label, st);
                        let paths1 = paths.insert(start as int, sp);
                        assert forall|t: int| 0 <= t < comps@.len() && #[trigger] comps@[t] != 0 implies {
                            &&& 1 <= comps@[t] <= count + 1
                            &&& seeds1.dom().contains(comps@[t])
                            &&& paths1.dom().contains(t)
                            &&& orth_walk(self, paths1[t])
                            &&& paths1[t][0] == seeds1[comps@[t]]
                            &&& paths1[t].last() == index_tile(t, self.gw())
                        } by {
                            if t != start as int {
                                assert(comps@[t] == cp[t]);
                            }
                        }
                        seeds = seeds1;
                        paths = paths1;
                        count = count + 1;
                    }
                    assert(queue@ =~= seq![start]);
                    assert forall|x: int, y: int| #[trigger] self.inside(x, y) && comps@[y * w + x] != 0
                        implies self.open_at(x, y) by {
                        lemma_index_in_grid(x, y, w as int, h);
                        if y * w + x != start as int {
                            assert(cp[y * w + x] != 0);
                        }
                    }
                    assert forall|x: int, y: int| #[trigger] self.inside(x, y) && comps@[y * w + x] != 0
                        && !queue@.contains((y * w + x) as usize) implies self.closed_in(comps@, x, y) by {
                        lemma_index_in_grid(x, y, w as int, h);
                        if y * w + x == start as int {
                            assert(queue@[0] == start);
                        } else {
                            assert(cp[y * w + x] != 0);
                        }
                    }
                    assert forall|x: int, y: int| #[trigger] self.inside(x, y) && y * w + x < start && self.open_at(x, y)
                        implies comps@[y * w + x] != 0 by {
                        lemma_index_in_grid(x, y, w as int, h);
                    }
                }
                loop
                    invariant
                        self.wf(),
                        n == self.blocks().len(),
                        w == self.gw(),
                        h == self.gh(),
                        comps@.len() == n,
                        start < n,
                        label != 0,
                        comps@[start as int] != 0,
                        forall|m: int| 0 <= m < queue@.len() ==> #[trigger] queue@[m] < n && comps@[queue@[m] as int] == label,
                        forall|x: int, y: int| #[trigger] self.inside(x, y) && comps@[y * w + x] != 0 ==> self.open_at(x, y),
                        forall|x: int, y: int| #[trigger] self.inside(x, y) && comps@[y * w + x] != 0
                            && !queue@.contains((y * w + x) as usize) ==> self.closed_in(comps@, x, y),
                        forall|x: int, y: int| #[trigger] self.inside(x, y) && y * w + x < start && self.open_at(x, y)
                            ==> comps@[y * w + x] != 0,
                        small == (n <= 65535),
                        small ==> flood_tracked(self, comps@, seeds, paths, count, next),
                    ensures
                        queue@.len() == 0,
                        small ==> flood_tracked(self, comps@, seeds, paths, count, next),
                        comps@.len() == n,
                        comps@[start as int] != 0,
                        forall|x: int, y: int| #[trigger] self.inside(x, y) && comps@[y * w + x] != 0 ==> self.open_at(x, y),
                        forall|x: int, y: int| #[trigger] self.inside(x, y) && comps@[y * w + x] != 0 ==> self.closed_in(comps@, x, y),
                        forall|x: int, y: int| #[trigger] self.inside(x, y) && y * w + x < start && self.open_at(x, y)
                            ==> comps@[y * w + x] != 0,
                    decreases 2 * zeros(comps@) + queue@.len(),
                {
                    let ghost q0 = queue@;
                    let i = match queue.pop_front() {
                        Some(i) => i,
                        None => {
                            break;
                        },
                    };
                    let ghost qa = queue@;
                    let ghost c0 = comps@;
                    let x = (i as i32) % w;
                    let y = (i as i32) / w;
                    proof {
                        lemma_split_index(i as int, w as int, h);
                        assert(q0[0] == i);
                        assert(c0[i as int] == label);
                        assert(x as int == (i as int) % (w as int));
                        assert(y as int == (i as int) / (w as int));
                        assert(self.inside(x as int, y as int));
                        assert(c0[y * w + x] != 0);
                        assert(self.open_at(x as int, y as int));
                    }
                    self.expand(&mut comps, &mut queue, x, y, label);
                    let ghost c1 = comps@;
                    let ghost qb = queue@;
                    proof {
                        if small {
                            let ii = i as int;
                            let pi = paths[ii];
                            let paths1 = Map::new(
                                |t: int| paths.dom().contains(t) || (0 <= t < n && c1[t] != c0[t]),
                                |t: int| if 0 <= t < n && c1[t] != c0[t] { pi.push(index_tile(t, w as int)) } else { paths[t] },
                            );
                            lemma_index_tile(x as int, y as int, w as int, h);
                            assert(index_tile(ii, w as int) == (x, y));
                            assert(c0[ii] == label);
                            assert forall|t: int| 0 <= t < c1.len() && #[trigger] c1[t] != 0 implies {
                                &&& 1 <= c1[t] <= count
                                &&& seeds.dom().contains(c1[t])
                                &&& paths1.dom().contains(t)
                                &&& orth_walk(self, paths1[t])
                                &&& paths1[t][0] == seeds[c1[t]]
                                &&& paths1[t].last() == index_tile(t, self.gw())
                            } by {
                                if c1[t] != c0[t] {
                                    let k = choose|k: int|
                                        0 <= k < 4 && t == (y + #[trigger] ortho(k).1) * self.gw() + x + ortho(k).0 && self.open_at(
                                            x + ortho(k).0,
                                            y + ortho(k).1,
                                        );
                                    let nx = x + ortho(k).0;
                                    let ny = y + ortho(k).1;
                                    lemma_index_tile(nx, ny, w as int, h);
                                    let np = pi.push(index_tile(t, w as int));
                                    assert(np.last() == (nx as i32, ny as i32));
                                    assert(pi.last() == (x, y));
                                    assert(orth_adj(pi.last(), np.last()));
                                    assert forall|j: int| 0 <= j < np.len() implies self.open_at((#[trigger] np[j]).0 as int, np[j].1 as int) by {
                                        if j < pi.len() {
                                            assert(np[j] == pi[j]);
                                        }
                                    }
                                    assert forall|j: int| 0 <= j < np.len() - 1 implies orth_adj(#[trigger] np[j], np[j + 1]) by {
                                        if j < pi.len() - 1 {
                                            assert(np[j] == pi[j] && np[j + 1] == pi[j + 1]);
                                        } else {
                                            assert(np[j] == pi.last());
                                        }
                                    }
                                    assert(paths1[t] == np);
                                    assert(np[0] == pi[0]);
                                } else {
                                    assert(c0[t] != 0);
                                    assert(paths1[t] == paths[t]);
                                }
                            }
                            paths = paths1;
                            lemma_zeros_le(c1);
                        }
                    }
                    proof {
                        let ii = i as int;
                        assert(y * w + x == ii);
                        // Every open neighbour now carries the label of (x, y).
                        assert(self.closed_in(c1, x as int, y as int)) by {
                            assert forall|k: int| 0 <= k < 4 && #[trigger] self.open_at(x + ortho(k).0, y + ortho(k).1)
                                implies c1[(y + ortho(k).1) * w + x + ortho(k).0] == c1[y * w + x] by {
                                let nx = x + ortho(k).0;
                                let ny = y + ortho(k).1;
                                let ni = ny * w + nx;
                                lemma_index_in_grid(nx, ny, w as int, h);
                                if c0[ni] != 0 {
                                    assert(c1[ni] == c0[ni]);
                                    if q0.contains(ni as usize) {
                                        let m = choose|m: int| 0 <= m < q0.len() && q0[m] == ni as usize;
                                        assert(c0[q0[m] as int] == label);
                                    } else {
                                        assert(self.inside(nx, ny));
                                        assert(self.closed_in(c0, nx, ny));
                                        let kk = if k == 0 { 1int } else if k == 1 { 0int } else if k == 2 { 3int } else { 2int };
                                        assert(nx + ortho(kk).0 == x && ny + ortho(kk).1 == y);
                                        assert(self.open_at(x as int, y as int));
                                        assert(self.open_at(nx + ortho(kk).0, ny + ortho(kk).1));
                                    }
                                }
                            }
                        }
                        assert forall|m: int| 0 <= m < qb.len() implies #[trigger] qb[m] < n && c1[qb[m] as int] == label by {
                            if m < qa.len() {
                                assert(qb[m] == qa[m]);
                                assert(qa[m] == q0[m + 1]);
                            }
                        }
                        assert forall|tx: int, ty: int| #[trigger] self.inside(tx, ty) && c1[ty * w + tx] != 0
                            && !qb.contains((ty * w + tx) as usize) implies self.closed_in(c1, tx, ty) by {
                            let t = ty * w + tx;
                            lemma_index_in_grid(tx, ty, w as int, h);
                            if t == ii {
                                lemma_index_unique(tx, ty, x as int, y as int, w as int);
                            } else {
                                assert(c0[t] != 0);
                                assert(!q0.contains(t as usize)) by {
                                    if q0.contains(t as usize) {
                                        let m = choose|m: int| 0 <= m < q0.len() && q0[m] == t as usize;
                                        assert(m != 0);
                                        assert(qa[m - 1] == q0[m]);
                                        assert(qb[m - 1] == qa[m - 1]);
                                    }
                                }
                                assert(self.closed_in(c0, tx, ty));
                                assert forall|k: int| 0 <= k < 4 && #[trigger] self.open_at(tx + ortho(k).0, ty + ortho(k).1)
                                    implies c1[(ty + ortho(k).1) * w + tx + ortho(k).0] == c1[ty * w + tx] by {
                                    lemma_index_in_grid(tx + ortho(k).0, ty + ortho(k).1, w as int, h);
                                }
                            }
                        }
                        assert forall|tx: int, ty: int| #[trigger] self.inside(tx, ty) && c1[ty * w + tx] != 0
                            implies self.open_at(tx, ty) by {
                            lemma_index_in_grid(tx, ty, w as int, h);
                        }
                        assert forall|tx: int, ty: int| #[trigger] self.inside(tx, ty) && ty * w + tx < start && self.open_at(tx, ty)
                            implies c1[ty * w + tx] != 0 by {
                            lemma_index_in_grid(tx, ty, w as int, h);
                        }
                    }
                }
            }
            start = start + 1;
        }
        let ghost g0 = *self;
        proof {
            assert forall|x: int, y: int| #[trigger] g0.inside(x, y) implies (comps@[y * w + x] == 0 <==> !g0.open_at(x, y))
                && (g0.open_at(x, y) ==> g0.closed_in(comps@, x, y)) by {
                lemma_index_in_grid(x, y, w as int, h);
                assert(self.inside(x, y));
            }
        }
        self.components = comps;
        self.dirty = false;
        proof {
            assert forall|x: int, y: int| #[trigger] self.inside(x, y) implies (self.label_at(x, y) == 0 <==> !self.open_at(x, y)) by {
                assert(g0.inside(x, y));
            }
            assert forall|x: int, y: int, k: int|
                0 <= k < 4 && #[trigger] self.open_at(x, y) && #[trigger] self.open_at(x + ortho(k).0, y + ortho(k).1)
                implies self.label_at(x, y) == self.label_at(x + ortho(k).0, y + ortho(k).1) by {
                assert(g0.inside(x, y));
                assert(g0.closed_in(comps@, x, y));
                assert(g0.open_at(x + ortho(k).0, y + ortho(k).1));
            }
            if small {
                reveal(NavGrid::labels_exact);
                assert forall|a: Tile, b: Tile|
                    self.open_at(a.0 as int, a.1 as int) && self.open_at(b.0 as int, b.1 as int) && self.label_at(a.0 as int, a.1 as int)
                        == self.label_at(b.0 as int, b.1 as int) implies exists|p: Seq<Tile>| #[trigger] orth_walk(self, p) && p[0] == a
                    && p.last() == b by {
                    let ta = a.1 * w + a.0;
                    let tb = b.1 * w + b.0;
                    lemma_index_tile(a.0 as int, a.1 as int, w as int, h);
                    lemma_index_tile(b.0 as int, b.1 as int, w as int, h);
                    assert(g0.inside(a.0 as int, a.1 as int));
                    assert(g0.inside(b.0 as int, b.1 as int));
                    assert(comps@[ta] != 0);
                    assert(comps@[tb] != 0);
                    let pa = paths[ta];
                    let pb = paths[tb];
                    assert(orth_walk(&g0, pa));
                    assert(orth_walk(&g0, pb));
                    lemma_orth_walk_reverse(&g0, pa);
                    lemma_orth_walk_join(&g0, pa.reverse(), pb);
                    let p = pa.reverse() + pb.drop_first();
                    assert forall|j: int| 0 <= j < p.len() implies self.open_at((#[trigger] p[j]).0 as int, p[j].1 as int) by {
                        assert(g0.open_at(p[j].0 as int, p[j].1 as int));
                    }
                    assert(orth_walk(self, p));
                }
            }
        }
    }
}

/// `b` is one orthogonal step from `a`.
pub open spec fn orth_adj(a: Tile, b: Tile) -> bool {
    exists|k: int| 0 <= k < 4 && b.0 == a.0 + #[trigger] ortho(k).0 && b.1 == a.1 + ortho(k).1
}

/// A walk over open tiles, each step orthogonal.
pub open spec fn orth_walk(g: &NavGrid, p: Seq<Tile>) -> bool {
    &&& p.len() >= 1
    &&& forall|i: int| 0 <= i < p.len() ==> g.open_at((#[trigger] p[i]).0 as int, p[i].1 as int)
    &&& forall|i: int| 0 <= i < p.len() - 1 ==> orth_adj(#[trigger] p[i], p[i + 1])
}

/// A walk read backwards is a walk.
pub proof fn lemma_orth_walk_reverse(g: &NavGrid, p: Seq<Tile>)
    requires
        orth_walk(g, p),
    ensures
        orth_walk(g, p.reverse()),
        p.reverse()[0] == p.last(),
        p.reverse().last() == p[0],
{
    let r = p.reverse();
    assert forall|i: int| 0 <= i < r.len() implies g.open_at((#[trigger] r[i]).0 as int, r[i].1 as int) by {
        assert(r[i] == p[p.len() - 1 - i]);
    }
    assert forall|i: int| 0 <= i < r.len() - 1 implies orth_adj(#[trigger] r[i], r[i + 1]) by {
        let j = p.len() - 2 - i;
        assert(r[i] == p[j + 1] && r[i + 1] == p[j]);
        assert(orth_adj(p[j], p[j + 1]));
        let k = choose|k: int| 0 <= k < 4 && p[j + 1].0 == p[j].0 + #[trigger] ortho(k).0 && p[j + 1].1 == p[j].1 + ortho(k).1;
        let kk = if k == 0 { 1int } else if k == 1 { 0int } else if k == 2 { 3int } else { 2int };
        assert(p[j].0 == p[j + 1].0 + ortho(kk).0 && p[j].1 == p[j + 1].1 + ortho(kk).1);
    }
}

/// Two walks that meet join into one.
pub proof fn lemma_orth_walk_join(g: &NavGrid, p: Seq<Tile>, q: Seq<Tile>)
    requires
        orth_walk(g, p),
        orth_walk(g, q),
        p.last() == q[0],
    ensures
        orth_walk(g, p + q.drop_first()),
        (p + q.drop_first())[0] == p[0],
        (p + q.drop_first()).last() == q.last(),
{
    let r = p + q.drop_first();
    assert forall|i: int| 0 <= i < r.len() implies g.open_at((#[trigger] r[i]).0 as int, r[i].1 as int) by {
        if i >= p.len() {
            assert(r[i] == q[i - p.len() + 1]);
        }
    }
    assert forall|i: int| 0 <= i < r.len() - 1 implies orth_adj(#[trigger] r[i], r[i + 1]) by {
        if i < p.len() - 1 {
            assert(r[i] == p[i] && r[i + 1] == p[i + 1]);
        } else {
            let j = i - p.len() + 1;
            assert(r[i] == q[j]);
            assert(r[i + 1] == q[j + 1]);
        }
    }
    if q.len() > 1 {
        assert(r.last() == q[q.len() - 1]);
    }
}

impl NavGrid {
    /// Two open tiles carry the same label only when an orthogonal walk joins
    /// them.
    #[verifier::opaque]
    pub open spec fn labels_exact(&self) -> bool {
        forall|a: Tile, b: Tile|
            #![trigger self.label_at(a.0 as int, a.1 as int), self.label_at(b.0 as int, b.1 as int)]
            self.open_at(a.0 as int, a.1 as int) && self.open_at(b.0 as int, b.1 as int) && self.label_at(a.0 as int, a.1 as int)
                == self.label_at(b.0 as int, b.1 as int) ==> exists|p: Seq<Tile>| #[trigger] orth_walk(self, p) && p[0] == a
                && p.last() == b
    }
}

/// The tile of a row-major index in a `w`-wide grid.
pub open spec fn index_tile(t: int, w: int) -> Tile {
    ((t % w) as i32, (t / w) as i32)
}

/// While a relabelling runs on a grid of at most 65535 tiles: fewer labels
/// handed out than tiles labelled, `next` the one after the last, and every
/// labelled tile joined by an orthogonal walk to the seed of its label.
spec fn flood_tracked(
    g: &NavGrid,
    comps: Seq<u16>,
    seeds: Map<u16, Tile>,
    paths: Map<int, Seq<Tile>>,
    count: int,
    next: u16,
) -> bool {
    &&& count <= comps.len() - zeros(comps)
    &&& count < 65535 ==> next == count + 1
    &&& forall|t: int|
        0 <= t < comps.len() && #[trigger] comps[t] != 0 ==> {
            &&& 1 <= comps[t] <= count
            &&& seeds.dom().contains(comps[t])
            &&& paths.dom().contains(t)
            &&& orth_walk(g, paths[t])
            &&& paths[t][0] == seeds[comps[t]]
            &&& paths[t].last() == index_tile(t, g.gw())
        }
}

/// A tile inside the grid is the tile of its own index.
proof fn lemma_index_tile(x: int, y: int, w: int, h: int)
    requires
        0 <= x < w,
        0 <= y < h,
        w <= 65535,
        h <= 65535,
    ensures
        index_tile(y * w + x, w) == (x as i32, y as i32),
        0 <= y * w + x < w * h,
{
    lemma_index_in_grid(x, y, w, h);
    lemma_split_index(y * w + x, w, h);
    lemma_index_unique((y * w + x) % w, (y * w + x) / w, x, y, w);
}

/// An index below `w * h` splits into a column and a row inside the grid.
pub proof fn lemma_split_index(i: int, w: int, h: int)
    requires
        0 <= i < w * h,
        0 <= w,
        0 <= h,
    ensures
        w > 0,
        0 <= i % w < w,
        0 <= i / w < h,
        (i / w) * w + i % w == i,
{
    assert(w > 0) by (nonlinear_arith)
        requires 0 <= i < w * h, 0 <= w, 0 <= h;
    assert((i / w) * w + i % w == i) by (nonlinear_arith)
        requires w > 0;
    assert(i / w < h) by (nonlinear_arith)
        requires 0 <= i < w * h, w > 0;
}

/// A king move from `a` to `b` that does not cut a corner: one step in
/// each axis at most, and for a diagonal step both tiles it passes between
/// are open.
pub open spec fn king_step(g: &NavGrid, a: Tile, b: Tile) -> bool {
    let dx = b.0 - a.0;
    let dy = b.1 - a.1;
    &&& -1 <= dx <= 1
    &&& -1 <= dy <= 1
    &&& (dx != 0 || dy != 0)
    &&& g.open_at(b.0 as int, b.1 as int)
    &&& (dx != 0 && dy != 0) ==> g.open_at(a.0 + dx, a.1 as int) && g.open_at(a.0 as int, a.1 + dy)
}

/// A walk over open tiles, each step a corner-respecting king move.
pub open spec fn walk(g: &NavGrid, p: Seq<Tile>) -> bool {
    &&& p.len() >= 1
    &&& g.open_at(p[0].0 as int, p[0].1 as int)
    &&& forall|i: int| 0 <= i < p.len() - 1 ==> #[trigger] king_step(g, p[i], p[i + 1])
}

impl NavGrid {
    /// Recomputes component labels if anything changed since the last time.
    pub fn refresh(&mut self)
        requires
            old(self).wf(),
        ensures
            final(self).wf(),
            !final(self).is_dirty(),
            final(self).gw() == old(self).gw(),
            final(self).gh() == old(self).gh(),
            final(self).blocks() == old(self).blocks(),
            !old(self).is_dirty() ==> *final(self) == *old(self),
    {
        if self.dirty {
            self.relabel();
        }
    }

    /// Component label of a tile; 0 if impassable or off the map. Requires
    /// a fresh grid.
    pub fn component(&self, x: i32, y: i32) -> (r: u16)
        requires
            self.wf(),
            !self.is_dirty(),
        ensures
            r == if self.inside(x as int, y as int) { self.label_at(x as int, y as int) } else { 0 },
            r == 0 <==> !self.open_at(x as int, y as int),
    {
        if self.in_bounds(x, y) {
            self.components[self.idx(x, y)]
        } else {
            0
        }
    }

    /// True if a walk exists between two tiles: both open and in the same
    /// component. Requires a fresh grid.
    pub fn connected(&self, a: Tile, b: Tile) -> (r: bool)
        requires
            self.wf(),
            !self.is_dirty(),
        ensures
            r == (self.open_at(a.0 as int, a.1 as int) && self.open_at(b.0 as int, b.1 as int)
                && self.label_at(a.0 as int, a.1 as int) == self.label_at(b.0 as int, b.1 as int)),
            self.gw() * self.gh() <= 65535 ==> (r <==> exists|p: Seq<Tile>| #[trigger] orth_walk(self, p) && p[0] == a
                && p.last() == b),
    {
        proof {
            if self.gw() * self.gh() <= 65535 {
                self.lemma_labels_are_components(a, b);
            }
        }
        let ca = self.component(a.0, a.1);
        ca != 0 && ca == self.component(b.0, b.1)
    }

    /// On a grid of at most 65535 tiles with fresh labels, two open tiles
    /// carry the same label exactly when an orthogonal walk joins them.
    pub proof fn lemma_labels_are_components(&self, a: Tile, b: Tile)
        requires
            self.wf(),
            !self.is_dirty(),
            self.gw() * self.gh() <= 65535,
        ensures
            (self.open_at(a.0 as int, a.1 as int) && self.open_at(b.0 as int, b.1 as int) && self.label_at(a.0 as int, a.1 as int)
                == self.label_at(b.0 as int, b.1 as int)) <==> exists|p: Seq<Tile>| #[trigger] orth_walk(self, p) && p[0] == a
                && p.last() == b,
    {
        reveal(NavGrid::labels_exact);
        if exists|p: Seq<Tile>| #[trigger] orth_walk(self, p) && p[0] == a && p.last() == b {
            let p = choose|p: Seq<Tile>| #[trigger] orth_walk(self, p) && p[0] == a && p.last() == b;
            self.lemma_walk_keeps_label(p, p.len() - 1);
        }
    }

    /// Along an orthogonal walk over a soundly labelled grid the label does
    /// not change.
    proof fn lemma_walk_keeps_label(&self, p: Seq<Tile>, k: int)
        requires
            self.wf(),
            !self.is_dirty(),
            orth_walk(self, p),
            0 <= k < p.len(),
        ensures
            self.label_at(p[k].0 as int, p[k].1 as int) == self.label_at(p[0].0 as int, p[0].1 as int),
        decreases k,
    {
        if k > 0 {
            self.lemma_walk_keeps_label(p, k - 1);
            let j = k - 1;
            assert(orth_adj(p[j], p[j + 1]));
            let d = choose|d: int| 0 <= d < 4 && p[j + 1].0 == p[j].0 + #[trigger] ortho(d).0 && p[j + 1].1 == p[j].1 + ortho(d).1;
            assert(self.open_at(p[j].0 as int, p[j].1 as int));
            assert(self.open_at(p[j + 1].0 as int, p[j + 1].1 as int));
            assert(self.open_at(p[j].0 + ortho(d).0, p[j].1 + ortho(d).1));
        }
    }

    /// A grid where water is blocked and everything else is open, with
    /// fresh labels.
    pub fn from_map(map: &TileMap) -> (r: NavGrid)
        requires
            map.wf(),
            map.w() * map.h() <= i32::MAX,
        ensures
            r.wf(),
            !r.is_dirty(),
            r.gw() == map.w(),
            r.gh() == map.h(),
            forall|x: int, y: int| #[trigger] r.inside(x, y) ==> r.blocks()[y * r.gw() + x] == if is_water_spec(
                map.tile_at(x, y),
            ) { 1u16 } else { 0u16 },
    {
        let w = map.width();
        let h = map.height();
        proof {
            map.lemma_dims();
            assert(0 <= w * h) by (nonlinear_arith)
                requires 0 <= w, 0 <= h;
        }
        let n = (w * h) as usize;
        let mut blockers: Vec<u16> = Vec::new();
        let mut y: i32 = 0;
        while y < h
            invariant
                map.wf(),
                w == map.w(),
                h == map.h(),
                w * h <= i32::MAX,
                0 <= w,
                0 <= y <= h,
                blockers@.len() == y * w,
                forall|tx: int, ty: int| 0 <= tx < w && 0 <= ty < y ==> #[trigger] blockers@[ty * w + tx] == if is_water_spec(
                    map.tile_at(tx, ty),
                ) { 1u16 } else { 0u16 },
            decreases h - y,
        {
            let mut x: i32 = 0;
            while x < w
                invariant
                    map.wf(),
                    w == map.w(),
                    h == map.h(),
                    w * h <= i32::MAX,
                    0 <= w,
                    0 <= y < h,
                    0 <= x <= w,
                    blockers@.len() == y * w + x,
                    forall|tx: int, ty: int| 0 <= tx < w && 0 <= ty < y ==> #[trigger] blockers@[ty * w + tx] == if is_water_spec(
                        map.tile_at(tx, ty),
                    ) { 1u16 } else { 0u16 },
                    forall|tx: int| 0 <= tx < x ==> #[trigger] blockers@[y * w + tx] == if is_water_spec(
                        map.tile_at(tx, y as int),
                    ) { 1u16 } else { 0u16 },
                decreases w - x,
            {
                let v: u16 = if map.terrain(x, y).walkable() { 0 } else { 1 };
                let ghost before = blockers@;
                blockers.push(v);
                proof {
                    assert forall|tx: int, ty: int| 0 <= tx < w && 0 <= ty < y implies #[trigger] blockers@[ty * w + tx] == if is_water_spec(
                        map.tile_at(tx, ty),
                    ) { 1u16 } else { 0u16 } by {
                        lemma_index_in_grid(tx, ty, w as int, y as int);
                        assert(blockers@[ty * w + tx] == before[ty * w + tx]);
                    }
                }
                x = x + 1;
            }
            proof {
                assert forall|tx: int, ty: int| 0 <= tx < w && 0 <= ty < y + 1 implies #[trigger] blockers@[ty * w + tx] == if is_water_spec(
                    map.tile_at(tx, ty),
                ) { 1u16 } else { 0u16 } by {
                    if ty == y {
                        assert(blockers@[y * w + tx] == blockers@[ty * w + tx]);
                    }
                }
                assert(y * w + w == (y + 1) * w) by (nonlinear_arith);
            }
            y = y + 1;
        }
        let mut components: Vec<u16> = Vec::new();
        let mut z: usize = 0;
        while z < n
            invariant
                z <= n,
                components@.len() == z,
            decreases n - z,
        {
            components.push(0);
            z = z + 1;
        }
        proof {
            assert(h * w == w * h) by (nonlinear_arith);
        }
        let mut g = NavGrid { width: w, height: h, blockers, components, dirty: true };
        g.relabel();
        g
    }
}

/// Open tiles side by side carry the same label, so a walk never leaves the
/// component it starts in: tiles that [`NavGrid::connected`] rejects have no
/// walk between them.
pub proof fn lemma_walk_stays_in_component(g: &NavGrid, p: Seq<Tile>)
    requires
        g.wf(),
        !g.is_dirty(),
        walk(g, p),
    ensures
        g.label_at(p[0].0 as int, p[0].1 as int) == g.label_at(p.last().0 as int, p.last().1 as int),
        g.label_at(p[0].0 as int, p[0].1 as int) != 0,
    decreases p.len(),
{
    assert(g.inside(p[0].0 as int, p[0].1 as int));
    if p.len() > 1 {
        let q = p.drop_last();
        assert forall|i: int| 0 <= i < q.len() - 1 implies #[trigger] king_step(g, q[i], q[i + 1]) by {
            assert(king_step(g, p[i], p[i + 1]));
        }
        lemma_walk_stays_in_component(g, q);
        let a = q.last();
        let b = p.last();
        if q.len() > 1 {
            let j = q.len() - 2;
            assert(king_step(g, p[j], p[j + 1]));
        }
        let i = p.len() - 2;
        assert(king_step(g, p[i], p[i + 1]));
        lemma_step_same_label(g, a, b);
    }
}

proof fn lemma_step_same_label(g: &NavGrid, a: Tile, b: Tile)
    requires
        g.wf(),
        !g.is_dirty(),
        g.open_at(a.0 as int, a.1 as int),
        king_step(g, a, b),
    ensures
        g.label_at(a.0 as int, a.1 as int) == g.label_at(b.0 as int, b.1 as int),
{
    let (x, y) = (a.0 as int, a.1 as int);
    let dx = b.0 - a.0;
    let dy = b.1 - a.1;
    let kx = if dx == 1 { 0int } else { 1int };
    let ky = if dy == 1 { 2int } else { 3int };
    if dx != 0 && dy != 0 {
        assert(g.open_at(x + ortho(kx).0, y + ortho(kx).1));
        assert(g.label_at(x, y) == g.label_at(x + ortho(kx).0, y + ortho(kx).1));
        assert(g.open_at(x + dx + ortho(ky).0, y + ortho(ky).1));
        assert(g.label_at(x + dx, y) == g.label_at(x + dx + ortho(ky).0, y + ortho(ky).1));
    } else if dx != 0 {
        assert(g.open_at(x + ortho(kx).0, y + ortho(kx).1));
    } else {
        assert(g.open_at(x + ortho(ky).0, y + ortho(ky).1));
    }
}

/// `(tx, ty)` lies in the square footprint anchored at `(x, y)`.
pub open spec fn in_footprint(x: int, y: int, footprint: int, tx: int, ty: int) -> bool {
    let fp = fp_side(footprint);
    let half = fp / 2;
    &&& -half <= tx - x < fp - half
    &&& -half <= ty - y < fp - half
}

/// The position of a footprint tile in row-by-row order.
pub open spec fn footprint_ordinal(x: int, y: int, footprint: int, tx: int, ty: int) -> int {
    let fp = fp_side(footprint);
    let half = fp / 2;
    (ty - y + half) * fp + (tx - x + half)
}

/// The `k`-th footprint tile is in the footprint, at ordinal `k`; every
/// footprint tile is the `k`-th for its ordinal.
pub(crate) proof fn lemma_footprint_tile(x: int, y: int, footprint: int, k: int)
    requires
        0 <= k < fp_side(footprint) * fp_side(footprint),
    ensures
        in_footprint(x, y, footprint, footprint_tile(x, y, footprint, k).0, footprint_tile(x, y, footprint, k).1),
        footprint_ordinal(x, y, footprint, footprint_tile(x, y, footprint, k).0, footprint_tile(x, y, footprint, k).1) == k,
{
    let fp = fp_side(footprint);
    assert(0 <= k % fp < fp && 0 <= k / fp < fp && (k / fp) * fp + k % fp == k) by (nonlinear_arith)
        requires fp >= 1, 0 <= k < fp * fp;
}

pub(crate) proof fn lemma_ordinal_range(x: int, y: int, footprint: int, tx: int, ty: int)
    requires
        in_footprint(x, y, footprint, tx, ty),
    ensures
        0 <= footprint_ordinal(x, y, footprint, tx, ty) < fp_side(footprint) * fp_side(footprint),
        footprint_tile(x, y, footprint, footprint_ordinal(x, y, footprint, tx, ty)) == (tx, ty),
{
    let fp = fp_side(footprint);
    let half = fp / 2;
    let a = tx - x + half;
    let b = ty - y + half;
    assert(0 <= b * fp + a < fp * fp) by (nonlinear_arith)
        requires 0 <= a < fp, 0 <= b < fp;
    vstd::arithmetic::div_mod::lemma_fundamental_div_mod_converse(b * fp + a, fp, b, a);
}

impl NavGrid {
    /// Adds a blocker to every tile of a square footprint centred like the
    /// generator centres buildings; tiles off the map are skipped.
    pub fn block_footprint(&mut self, x: i32, y: i32, footprint: i32)
        requires
            old(self).wf(),
            footprint_fits(x as int, y as int, footprint as int),
        ensures
            final(self).wf(),
            final(self).gw() == old(self).gw() && final(self).gh() == old(self).gh(),
            forall|tx: int, ty: int| #[trigger] old(self).inside(tx, ty) ==> final(self).blocks()[ty * old(self).gw() + tx]
                == if in_footprint(x as int, y as int, footprint as int, tx, ty) {
                    old(self).blocks()[ty * old(self).gw() + tx].saturating_add(1)
                } else {
                    old(self).blocks()[ty * old(self).gw() + tx]
                },
    {
        self.apply_footprint(x, y, footprint, true);
    }

    /// Removes a blocker from every tile of a square footprint; tiles off
    /// the map are skipped.
    pub fn unblock_footprint(&mut self, x: i32, y: i32, footprint: i32)
        requires
            old(self).wf(),
            footprint_fits(x as int, y as int, footprint as int),
        ensures
            final(self).wf(),
            final(self).gw() == old(self).gw() && final(self).gh() == old(self).gh(),
            forall|tx: int, ty: int| #[trigger] old(self).inside(tx, ty) ==> final(self).blocks()[ty * old(self).gw() + tx]
                == if in_footprint(x as int, y as int, footprint as int, tx, ty) {
                    old(self).blocks()[ty * old(self).gw() + tx].saturating_sub(1)
                } else {
                    old(self).blocks()[ty * old(self).gw() + tx]
                },
    {
        self.apply_footprint(x, y, footprint, false);
    }

    fn apply_footprint(&mut self, x: i32, y: i32, footprint: i32, add: bool)
        requires
            old(self).wf(),
            footprint_fits(x as int, y as int, footprint as int),
        ensures
            final(self).wf(),
            final(self).gw() == old(self).gw() && final(self).gh() == old(self).gh(),
            forall|tx: int, ty: int| #[trigger] old(self).inside(tx, ty) ==> final(self).blocks()[ty * old(self).gw() + tx]
                == if in_footprint(x as int, y as int, footprint as int, tx, ty) {
                    if add {
                        old(self).blocks()[ty * old(self).gw() + tx].saturating_add(1)
                    } else {
                        old(self).blocks()[ty * old(self).gw() + tx].saturating_sub(1)
                    }
                } else {
                    old(self).blocks()[ty * old(self).gw() + tx]
                },
    {
        let ghost g0 = *self;
        let tiles = footprint_tiles(x, y, footprint);
        let mut k: usize = 0;
        while k < tiles.len()
            invariant
                self.wf(),
                g0.wf(),
                self.gw() == g0.gw() && self.gh() == g0.gh(),
                footprint_fits(x as int, y as int, footprint as int),
                k <= tiles@.len(),
                tiles@.len() == fp_side(footprint as int) * fp_side(footprint as int),
                forall|j: int| 0 <= j < tiles@.len() ==> (#[trigger] tiles@[j]).0 == footprint_tile(x as int, y as int, footprint as int, j).0
                    && tiles@[j].1 == footprint_tile(x as int, y as int, footprint as int, j).1,
                forall|tx: int, ty: int| #[trigger] g0.inside(tx, ty) ==> self.blocks()[ty * g0.gw() + tx]
                    == if in_footprint(x as int, y as int, footprint as int, tx, ty)
                        && footprint_ordinal(x as int, y as int, footprint as int, tx, ty) < k {
                        if add {
                            g0.blocks()[ty * g0.gw() + tx].saturating_add(1)
                        } else {
                            g0.blocks()[ty * g0.gw() + tx].saturating_sub(1)
                        }
                    } else {
                        g0.blocks()[ty * g0.gw() + tx]
                    },
            decreases tiles.len() - k,
        {
            let t = tiles[k];
            let ghost s0 = *self;
            proof {
                lemma_footprint_tile(x as int, y as int, footprint as int, k as int);
            }
            if add {
                self.block(t.0, t.1);
            } else {
                self.unblock(t.0, t.1);
            }
            proof {
                assert forall|tx: int, ty: int| #[trigger] g0.inside(tx, ty) implies self.blocks()[ty * g0.gw() + tx]
                    == if in_footprint(x as int, y as int, footprint as int, tx, ty)
                        && footprint_ordinal(x as int, y as int, footprint as int, tx, ty) < k + 1 {
                        if add {
                            g0.blocks()[ty * g0.gw() + tx].saturating_add(1)
                        } else {
                            g0.blocks()[ty * g0.gw() + tx].saturating_sub(1)
                        }
                    } else {
                        g0.blocks()[ty * g0.gw() + tx]
                    } by {
                    assert(s0.inside(tx, ty));
                    lemma_index_in_grid(tx, ty, g0.gw(), g0.gh());
                    if tx == t.0 && ty == t.1 {
                    } else {
                        if s0.inside(t.0 as int, t.1 as int) {
                            lemma_index_in_grid(t.0 as int, t.1 as int, g0.gw(), g0.gh());
                            if ty * g0.gw() + tx == t.1 * g0.gw() + t.0 {
                                lemma_index_unique(tx, ty, t.0 as int, t.1 as int, g0.gw());
                            }
                        }
                        if in_footprint(x as int, y as int, footprint as int, tx, ty)
                            && footprint_ordinal(x as int, y as int, footprint as int, tx, ty) == k {
                            lemma_ordinal_range(x as int, y as int, footprint as int, tx, ty);
                        }
                    }
                }
            }
            k = k + 1;
        }
        proof {
            assert forall|tx: int, ty: int| #[trigger] g0.inside(tx, ty) && in_footprint(x as int, y as int, footprint as int, tx, ty)
                implies footprint_ordinal(x as int, y as int, footprint as int, tx, ty) < k by {
                lemma_ordinal_range(x as int, y as int, footprint as int, tx, ty);
            }
        }
    }

    /// True if every tile of a footprint is passable and on the map.
    pub fn footprint_clear(&self, x: i32, y: i32, footprint: i32) -> (r: bool)
        requires
            self.wf(),
            footprint_fits(x as int, y as int, footprint as int),
        ensures
            r == forall|tx: int, ty: int| in_footprint(x as int, y as int, footprint as int, tx, ty)
                ==> #[trigger] self.open_at(tx, ty),
    {
        let tiles = footprint_tiles(x, y, footprint);
        let mut k: usize = 0;
        while k < tiles.len()
            invariant
                self.wf(),
                k <= tiles@.len(),
                tiles@.len() == fp_side(footprint as int) * fp_side(footprint as int),
                forall|j: int| 0 <= j < tiles@.len() ==> (#[trigger] tiles@[j]).0 == footprint_tile(x as int, y as int, footprint as int, j).0
                    && tiles@[j].1 == footprint_tile(x as int, y as int, footprint as int, j).1,
                forall|tx: int, ty: int| in_footprint(x as int, y as int, footprint as int, tx, ty)
                    && footprint_ordinal(x as int, y as int, footprint as int, tx, ty) < k ==> #[trigger] self.open_at(tx, ty),
            decreases tiles.len() - k,
        {
            let t = tiles[k];
            proof {
                lemma_footprint_tile(x as int, y as int, footprint as int, k as int);
            }
            if !self.passable(t.0, t.1) {
                return false;
            }
            proof {
                assert forall|tx: int, ty: int| in_footprint(x as int, y as int, footprint as int, tx, ty)
                    && footprint_ordinal(x as int, y as int, footprint as int, tx, ty) < k + 1 implies #[trigger] self.open_at(tx, ty) by {
                    if footprint_ordinal(x as int, y as int, footprint as int, tx, ty) == k {
                        lemma_ordinal_range(x as int, y as int, footprint as int, tx, ty);
                    }
                }
            }
            k = k + 1;
        }
        proof {
            assert forall|tx: int, ty: int| in_footprint(x as int, y as int, footprint as int, tx, ty) implies #[trigger] self.open_at(tx, ty) by {
                lemma_ordinal_range(x as int, y as int, footprint as int, tx, ty);
            }
        }
        true
    }
}

/// The tile a point lies in, as a spec value.
pub open spec fn tile_spec(p: Vec2Fx) -> Tile {
    ((p.x.0 as int / 65536) as i32, (p.y.0 as int / 65536) as i32)
}

impl NavGrid {
    /// True if a straight walk from `a` to `b` crosses only passable tiles.
    /// The segment is traced tile by tile (Amanatides–Woo, in fixed point):
    /// every tile it enters must be open, a step exactly through a corner
    /// needs both tiles beside the corner open, and a trace longer than 1024
    /// steps is refused. A `true` answer therefore comes with a
    /// corner-respecting walk over open tiles from `a`'s tile to `b`'s.
    pub fn line_of_sight(&self, a: Vec2Fx, b: Vec2Fx) -> (r: bool)
        requires
            self.wf(),
        ensures
            r ==> exists|p: Seq<Tile>| walk(self, p) && p[0] == tile_spec(a) && p.last() == tile_spec(b),
            !self.open_at(tile_spec(a).0 as int, tile_spec(a).1 as int) ==> !r,
            !self.open_at(tile_spec(b).0 as int, tile_spec(b).1 as int) ==> !r,
            tile_spec(a) == tile_spec(b) && self.open_at(tile_spec(a).0 as int, tile_spec(a).1 as int) ==> r,
            r == sight(*self, a, b),
    {
        let mut x = a.x.floor();
        let mut y = a.y.floor();
        let x1 = b.x.floor();
        let y1 = b.y.floor();
        if !self.passable(x, y) || !self.passable(x1, y1) {
            return false;
        }
        let dx = b.x - a.x;
        let dy = b.y - a.y;
        let step_x: i32 = if dx.is_positive() { 1 } else { -1 };
        let step_y: i32 = if dy.is_positive() { 1 } else { -1 };
        let bx = if step_x > 0 { Fx::from_int(a.x.floor() + 1) } else { Fx::from_int(a.x.floor()) };
        let by = if step_y > 0 { Fx::from_int(a.y.floor() + 1) } else { Fx::from_int(a.y.floor()) };
        let mut t_max_x = if dx.is_zero() { Fx::MAX() } else { ((bx - a.x) / dx).abs() };
        let mut t_max_y = if dy.is_zero() { Fx::MAX() } else { ((by - a.y) / dy).abs() };
        let t_delta_x = if dx.is_zero() { Fx::MAX() } else { (Fx::ONE() / dx).abs() };
        let t_delta_y = if dy.is_zero() { Fx::MAX() } else { (Fx::ONE() / dy).abs() };
        let ghost mut path: Seq<Tile> = seq![(x, y)];
        let ghost x0 = x;
        let ghost y0 = y;
        assert(tile_spec(a) == (x0, y0));
        assert(tile_spec(b) == (x1, y1));
        let mut guard: u32 = 0;
        while x != x1 || y != y1
            invariant
                self.wf(),
                guard <= 1024,
                -32768 - guard <= x <= 32767 + guard,
                -32768 - guard <= y <= 32767 + guard,
                step_x == 1 || step_x == -1,
                step_y == 1 || step_y == -1,
                walk(self, path),
                path[0] == (x0, y0),
                path.last() == (x, y),
                (x0 == x1 && y0 == y1) ==> (x == x1 && y == y1),
                tile_spec(a) == (x0, y0),
                tile_spec(b) == (x1, y1),
                sight(*self, a, b) == trace_clear(*self, x as int, y as int, x1 as int, y1 as int, t_max_x.0 as int, t_max_y.0 as int, t_delta_x.0 as int, t_delta_y.0 as int, step_x as int, step_y as int, guard as int),
                self.open_at(x0 as int, y0 as int),
                self.open_at(x1 as int, y1 as int),
            decreases 1024 - guard,
        {
            guard = guard + 1;
            if guard > 1024 {
                return false;
            }
            let ghost px = x;
            let ghost py = y;
            if t_max_x.0 < t_max_y.0 {
                t_max_x = t_max_x + t_delta_x;
                x = x + step_x;
            } else if t_max_y.0 < t_max_x.0 {
                t_max_y = t_max_y + t_delta_y;
                y = y + step_y;
            } else {
                // Exactly through a corner: both orthogonal neighbours must be open.
                if !self.passable(x + step_x, y) || !self.passable(x, y + step_y) {
                    return false;
                }
                t_max_x = t_max_x + t_delta_x;
                t_max_y = t_max_y + t_delta_y;
                x = x + step_x;
                y = y + step_y;
            }
            if !self.passable(x, y) {
                return false;
            }
            proof {
                let np = path.push((x, y));
                assert(king_step(self, (px, py), (x, y)));
                assert forall|i: int| 0 <= i < np.len() - 1 implies #[trigger] king_step(self, np[i], np[i + 1]) by {
                    if i < path.len() - 1 {
                        assert(np[i] == path[i] && np[i + 1] == path[i + 1]);
                    }
                }
                path = np;
            }
        }
        true
    }
}

/// The grid traversal from tile `(x, y)` towards `(x1, y1)`, stepping
/// `(sx, sy)`, with the next boundary crossings at `tmx`, `tmy` and the
/// crossing spacings `tdx`, `tdy`, after `guard` steps: true when it reaches
/// the end tile within 1024 steps over open tiles, a step exactly through a
/// corner also needing both tiles beside it open.
pub open spec fn trace_clear(
    g: NavGrid,
    x: int,
    y: int,
    x1: int,
    y1: int,
    tmx: int,
    tmy: int,
    tdx: int,
    tdy: int,
    sx: int,
    sy: int,
    guard: int,
) -> bool
    decreases 1024 - guard,
{
    if x == x1 && y == y1 {
        true
    } else if guard >= 1024 {
        false
    } else if tmx < tmy {
        g.open_at(x + sx, y) && trace_clear(g, x + sx, y, x1, y1, sat(tmx + tdx), tmy, tdx, tdy, sx, sy, guard + 1)
    } else if tmy < tmx {
        g.open_at(x, y + sy) && trace_clear(g, x, y + sy, x1, y1, tmx, sat(tmy + tdy), tdx, tdy, sx, sy, guard + 1)
    } else {
        g.open_at(x + sx, y) && g.open_at(x, y + sy) && g.open_at(x + sx, y + sy) && trace_clear(
            g,
            x + sx,
            y + sy,
            x1,
            y1,
            sat(tmx + tdx),
            sat(tmy + tdy),
            tdx,
            tdy,
            sx,
            sy,
            guard + 1,
        )
    }
}

/// The first boundary crossing along one axis, as a fraction of the whole
/// move `d` from `p`: `MAX` when the move has no component on the axis.
pub open spec fn first_crossing(p: int, d: int) -> int {
    if d == 0 {
        i32::MAX as int
    } else {
        let edge = if d > 0 { from_int_raw(p / 65536 + 1) } else { from_int_raw(p / 65536) };
        sat(abs_int(div_raw(sat(edge - p), d)))
    }
}

/// The spacing of boundary crossings along one axis, as a fraction of the
/// whole move `d`.
pub open spec fn crossing_step(d: int) -> int {
    if d == 0 {
        i32::MAX as int
    } else {
        sat(abs_int(div_raw(65536, d)))
    }
}

/// Whether the straight line from `a` to `b` stays in sight: both end tiles
/// open and the traversal from the one to the other clear.
pub open spec fn sight(g: NavGrid, a: Vec2Fx, b: Vec2Fx) -> bool {
    let x = a.x.0 as int / 65536;
    let y = a.y.0 as int / 65536;
    let x1 = b.x.0 as int / 65536;
    let y1 = b.y.0 as int / 65536;
    let dx = sat(b.x.0 - a.x.0);
    let dy = sat(b.y.0 - a.y.0);
    let sx = if dx > 0 { 1int } else { -1int };
    let sy = if dy > 0 { 1int } else { -1int };
    &&& g.open_at(x, y)
    &&& g.open_at(x1, y1)
    &&& trace_clear(g, x, y, x1, y1, first_crossing(a.x.0 as int, dx), first_crossing(a.y.0 as int, dy), crossing_step(dx), crossing_step(dy), sx, sy, 0)
}

/// The open set holds an entry for index `i`.
#[verifier::opaque]
pub open spec fn has_entry(open: Seq<OpenEntry>, i: int) -> bool {
    exists|m: int| 0 <= m < open.len() && open[m].2 == i
}

/// Index `j` is either expanded already or reached and waiting in the open
/// set.
#[verifier::opaque]
pub open spec fn on_frontier(closed: Seq<bool>, gs: Seq<u32>, open: Seq<OpenEntry>, j: int) -> bool {
    closed[j] || (gs[j] != u32::MAX && has_entry(open, j))
}

/// A king move leads from the tile of index `i` to that of index `j`.
#[verifier::opaque]
pub open spec fn index_step(g: &NavGrid, i: int, j: int) -> bool {
    king_step(g, g.tile_of_index(i), g.tile_of_index(j))
}

/// Expanded tiles enclose every walk that starts on one: a walk from an
/// expanded tile stays on expanded tiles when every king move out of an
/// expanded tile lands on one.
proof fn lemma_walk_stays_closed(g: &NavGrid, closed: Seq<bool>, p: Seq<Tile>, k: int)
    requires
        g.wf(),
        closed.len() == g.blocks().len(),
        walk(g, p),
        0 <= k < p.len(),
        closed[p[0].1 * g.gw() + p[0].0],
        forall|i: int, j: int| 0 <= i < closed.len() && 0 <= j < closed.len() && closed[i] && #[trigger] index_step(g, i, j) ==> closed[j],
    ensures
        closed[p[k].1 * g.gw() + p[k].0],
    decreases k,
{
    if k > 0 {
        lemma_walk_stays_closed(g, closed, p, k - 1);
        let j = k - 1;
        assert(king_step(g, p[j], p[j + 1]));
        assert(g.open_at(p[j].0 as int, p[j].1 as int)) by {
            if j > 0 {
                let jj = j - 1;
                assert(king_step(g, p[jj], p[jj + 1]));
            }
        }
        lemma_tile_of_index(g, p[j].0 as int, p[j].1 as int);
        lemma_tile_of_index(g, p[k].0 as int, p[k].1 as int);
        let a = p[j].1 * g.gw() + p[j].0;
        let b = p[k].1 * g.gw() + p[k].0;
        assert(king_step(g, g.tile_of_index(a), g.tile_of_index(b)));
        reveal(index_step);
        assert(index_step(g, a, b));
    }
}

/// What one king move costs: 14 on a diagonal, 10 otherwise.
pub open spec fn step_cost(a: Tile, b: Tile) -> int {
    if a.0 != b.0 && a.1 != b.1 { 14 } else { 10 }
}

/// What walking `p` costs, step by step.
pub open spec fn walk_cost(p: Seq<Tile>) -> int
    decreases p.len(),
{
    if p.len() <= 1 {
        0
    } else {
        step_cost(p[0], p[1]) + walk_cost(p.drop_first())
    }
}

/// No walk costs less than nothing.
proof fn lemma_walk_cost_nonneg(p: Seq<Tile>)
    ensures
        walk_cost(p) >= 0,
    decreases p.len(),
{
    if p.len() > 1 {
        lemma_walk_cost_nonneg(p.drop_first());
    }
}

/// The octile estimate never drops by more than a king move costs.
proof fn lemma_octile_consistent(a: Tile, b: Tile, t: Tile)
    requires
        -1 <= b.0 - a.0 <= 1,
        -1 <= b.1 - a.1 <= 1,
    ensures
        octile(a, t) <= step_cost(a, b) + octile(b, t),
{
}

/// Along a walk, the estimate at its start is at most what the walk costs
/// plus the estimate at its end.
proof fn lemma_octile_along(g: &NavGrid, q: Seq<Tile>, t: Tile)
    requires
        walk(g, q),
    ensures
        octile(q[0], t) <= walk_cost(q) + octile(q.last(), t),
    decreases q.len(),
{
    if q.len() > 1 {
        let r = q.drop_first();
        assert forall|i: int| 0 <= i < r.len() - 1 implies #[trigger] king_step(g, r[i], r[i + 1]) by {
            let j = i + 1;
            assert(king_step(g, q[j], q[j + 1]));
        }
        let z: int = 0;
        assert(king_step(g, q[z], q[z + 1]));
        lemma_octile_consistent(q[0], q[1], t);
        lemma_octile_along(g, r, t);
        assert(r.last() == q.last());
    }
}

/// A walk costs what its first `m` steps cost plus what the rest costs.
proof fn lemma_walk_cost_split(p: Seq<Tile>, m: int)
    requires
        0 <= m < p.len(),
    ensures
        walk_cost(p) == walk_cost(p.take(m + 1)) + walk_cost(p.skip(m)),
    decreases m,
{
    if m == 0 {
        assert(p.skip(0) =~= p);
    } else {
        let r = p.drop_first();
        lemma_walk_cost_split(r, m - 1);
        let pt = p.take(m + 1);
        assert(pt.drop_first() =~= r.take(m));
        assert(pt[0] == p[0] && pt[1] == p[1]);
        assert(r.skip(m - 1) =~= p.skip(m));
    }
}

/// A prefix of a walk is a walk.
proof fn lemma_walk_prefix(g: &NavGrid, p: Seq<Tile>, m: int)
    requires
        walk(g, p),
        1 <= m <= p.len(),
    ensures
        walk(g, p.take(m)),
{
    assert forall|i: int| 0 <= i < p.take(m).len() - 1 implies #[trigger] king_step(g, p.take(m)[i], p.take(m)[i + 1]) by {
        assert(king_step(g, p[i], p[i + 1]));
    }
}

/// A suffix of a walk is a walk.
proof fn lemma_walk_suffix(g: &NavGrid, p: Seq<Tile>, m: int)
    requires
        walk(g, p),
        0 <= m < p.len(),
    ensures
        walk(g, p.skip(m)),
{
    if m > 0 {
        let j = m - 1;
        assert(king_step(g, p[j], p[j + 1]));
    }
    assert forall|i: int| 0 <= i < p.skip(m).len() - 1 implies #[trigger] king_step(g, p.skip(m)[i], p.skip(m)[i + 1]) by {
        let j = m + i;
        assert(king_step(g, p[j], p[j + 1]));
    }
}

/// An entry of the open set: estimated total cost, push order, tile index.
pub type OpenEntry = (u32, u32, u32);

/// `a` sorts before `b`: by estimate, then push order, then index.
pub open spec fn entry_lt(a: OpenEntry, b: OpenEntry) -> bool {
    a.0 < b.0 || (a.0 == b.0 && (a.1 < b.1 || (a.1 == b.1 && a.2 < b.2)))
}

/// Reusable A\* buffers. Not part of the simulation state.
#[derive(Default)]
pub struct Scratch {
    g: Vec<u32>,
    parent: Vec<u32>,
    closed: Vec<bool>,
    /// The open set; the smallest entry is expanded next.
    open: Vec<OpenEntry>,
    /// Nodes expanded by the last search.
    pub expanded: usize,
}

impl Scratch {
    /// Empty buffers.
    pub fn new() -> (r: Scratch)
        ensures
            r.spent() == 0,
    {
        Scratch { g: Vec::new(), parent: Vec::new(), closed: Vec::new(), open: Vec::new(), expanded: 0 }
    }

    /// Nodes expanded by the last search, as the contracts see it.
    pub closed spec fn spent(&self) -> usize {
        self.expanded
    }
}

pub(crate) fn filled<T: Copy>(v: T, n: usize) -> (r: Vec<T>)
    ensures
        r@.len() == n,
        forall|i: int| 0 <= i < n ==> #[trigger] r@[i] == v,
{
    let mut out: Vec<T> = Vec::new();
    let mut i: usize = 0;
    while i < n
        invariant
            i <= n,
            out@.len() == i,
            forall|j: int| 0 <= j < i ==> #[trigger] out@[j] == v,
        decreases n - i,
    {
        out.push(v);
        i = i + 1;
    }
    out
}

/// Removes and returns the smallest entry of the open set.
fn pop_min(open: &mut Vec<OpenEntry>) -> (r: Option<OpenEntry>)
    ensures
        r is None <==> old(open)@.len() == 0,
        r matches Some(e) ==> old(open)@.contains(e) && forall|k: int| 0 <= k < old(open)@.len()
            ==> !entry_lt(#[trigger] old(open)@[k], e),
        r matches Some(e) ==> forall|k: int| 0 <= k < final(open)@.len() ==> old(open)@.contains(#[trigger] final(open)@[k]),
        r is Some ==> final(open)@.len() == old(open)@.len() - 1,
        r is None ==> final(open)@ == old(open)@,
        r matches Some(e) ==> forall|k: int| 0 <= k < old(open)@.len() && old(open)@[k] != e ==> final(open)@.contains(
            #[trigger] old(open)@[k],
        ),
{
    if open.len() == 0 {
        return None;
    }
    let mut best: usize = 0;
    let mut k: usize = 1;
    while k < open.len()
        invariant
            1 <= k <= open@.len(),
            best < open@.len(),
            forall|j: int| 0 <= j < k ==> !entry_lt(#[trigger] open@[j], open@[best as int]),
        decreases open.len() - k,
    {
        let a = open[k];
        let b = open[best];
        if a.0 < b.0 || (a.0 == b.0 && (a.1 < b.1 || (a.1 == b.1 && a.2 < b.2))) {
            best = k;
        }
        k = k + 1;
    }
    let ghost o0 = open@;
    let e = open.swap_remove(best);
    proof {
        assert(o0[best as int] == e);
        assert forall|j: int| 0 <= j < open@.len() implies o0.contains(#[trigger] open@[j]) by {
            if j == best {
                assert(open@[j] == o0[o0.len() - 1]);
            } else {
                assert(open@[j] == o0[j]);
            }
        }
        assert forall|k: int| 0 <= k < o0.len() && o0[k] != e implies open@.contains(#[trigger] o0[k]) by {
            if k == o0.len() - 1 {
                assert(open@[best as int] == o0[k]);
            } else {
                assert(k != best);
                assert(open@[k] == o0[k]);
            }
        }
    }
    Some(e)
}

/// Octile distance in the same units as the step costs.
fn heuristic(a: Tile, b: Tile) -> (r: u32)
    requires
        -65536 <= a.0 <= 65536,
        -65536 <= a.1 <= 65536,
        -65536 <= b.0 <= 65536,
        -65536 <= b.1 <= 65536,
    ensures
        r == octile(a, b),
        r <= 14 * 131072 + 10 * 131072,
{
    let dx: u32 = if a.0 >= b.0 { (a.0 - b.0) as u32 } else { (b.0 - a.0) as u32 };
    let dy: u32 = if a.1 >= b.1 { (a.1 - b.1) as u32 } else { (b.1 - a.1) as u32 };
    let lo = if dx < dy { dx } else { dy };
    let hi = if dx < dy { dy } else { dx };
    14 * lo + 10 * (hi - lo)
}

/// Octile distance: 14 per diagonal step, 10 per straight one.
pub open spec fn octile(a: Tile, b: Tile) -> int {
    let dx = if a.0 >= b.0 { a.0 - b.0 } else { b.0 - a.0 };
    let dy = if a.1 >= b.1 { a.1 - b.1 } else { b.1 - a.1 };
    let lo = if dx < dy { dx } else { dy };
    let hi = if dx < dy { dy } else { dx };
    14 * lo + 10 * (hi - lo)
}

/// The eight king moves with their costs: straight 10, diagonal 14.
pub open spec fn neighbour(k: int) -> (int, int, int) {
    if k == 0 { (1, 0, 10) }
    else if k == 1 { (-1, 0, 10) }
    else if k == 2 { (0, 1, 10) }
    else if k == 3 { (0, -1, 10) }
    else if k == 4 { (1, 1, 14) }
    else if k == 5 { (1, -1, 14) }
    else if k == 6 { (-1, 1, 14) }
    else { (-1, -1, 14) }
}

fn neighbour_at(k: usize) -> (r: (i32, i32, u32))
    requires
        k < 8,
    ensures
        r.0 == neighbour(k as int).0 && r.1 == neighbour(k as int).1 && r.2 == neighbour(k as int).2,
{
    if k == 0 { (1, 0, 10) }
    else if k == 1 { (-1, 0, 10) }
    else if k == 2 { (0, 1, 10) }
    else if k == 3 { (0, -1, 10) }
    else if k == 4 { (1, 1, 14) }
    else if k == 5 { (1, -1, 14) }
    else if k == 6 { (-1, 1, 14) }
    else { (-1, -1, 14) }
}

impl NavGrid {
    /// The tile of a row-major index.
    pub open spec fn tile_of_index(&self, i: int) -> Tile {
        ((i % self.gw()) as i32, (i / self.gw()) as i32)
    }

    /// The search state A\* keeps: every reached node is open and, but for
    /// the start, hangs off a parent one corner-respecting king move away
    /// with a smaller cost, so parent links lead back to the start.
    pub open spec fn search_ok(&self, start: int, g: Seq<u32>, parent: Seq<u32>) -> bool {
        let n = self.blocks().len();
        &&& g.len() == n
        &&& parent.len() == n
        &&& 0 <= start < n
        &&& g[start] == 0
        &&& forall|i: int| 0 <= i < n && #[trigger] g[i] != u32::MAX ==> {
            &&& self.open_at(self.tile_of_index(i).0 as int, self.tile_of_index(i).1 as int)
            &&& i != start ==> {
                &&& parent[i] < n
                &&& g[parent[i] as int] < g[i]
                &&& king_step(self, self.tile_of_index(parent[i] as int), self.tile_of_index(i))
                &&& g[i] == g[parent[i] as int] + step_cost(self.tile_of_index(parent[i] as int), self.tile_of_index(i))
            }
        }
    }
}

/// The tile of `y * w + x` is `(x, y)`.
proof fn lemma_tile_of_index(g: &NavGrid, x: int, y: int)
    requires
        g.wf(),
        g.inside(x, y),
    ensures
        g.tile_of_index(y * g.gw() + x) == (x as i32, y as i32),
        0 <= y * g.gw() + x < g.blocks().len(),
{
    let w = g.gw();
    lemma_index_in_grid(x, y, w, g.gh());
    vstd::arithmetic::div_mod::lemma_fundamental_div_mod_converse(y * w + x, w, y, x);
}

/// Index `i` is the index of its own tile.
proof fn lemma_index_of_tile(g: &NavGrid, i: int)
    requires
        g.wf(),
        0 <= i < g.blocks().len(),
    ensures
        g.inside(g.tile_of_index(i).0 as int, g.tile_of_index(i).1 as int),
        g.tile_of_index(i).1 * g.gw() + g.tile_of_index(i).0 == i,
{
    lemma_split_index(i, g.gw(), g.gh());
}

/// A king move out of a tile is one of the eight moves of `neighbour`.
proof fn lemma_step_direction(g: &NavGrid, i: int, j: int) -> (d: int)
    requires
        g.wf(),
        0 <= i < g.blocks().len(),
        0 <= j < g.blocks().len(),
        index_step(g, i, j),
    ensures
        0 <= d < 8,
        j == (g.tile_of_index(i).1 + neighbour(d).1) * g.gw() + g.tile_of_index(i).0 + neighbour(d).0,
        king_step(
            g,
            g.tile_of_index(i),
            ((g.tile_of_index(i).0 + neighbour(d).0) as i32, (g.tile_of_index(i).1 + neighbour(d).1) as i32),
        ),
        g.tile_of_index(j) == ((g.tile_of_index(i).0 + neighbour(d).0) as i32, (g.tile_of_index(i).1 + neighbour(d).1) as i32),
{
    reveal(index_step);
    let t = g.tile_of_index(i);
    let u = g.tile_of_index(j);
    lemma_index_of_tile(g, i);
    lemma_index_of_tile(g, j);
    let dx = u.0 - t.0;
    let dy = u.1 - t.1;
    let d: int = if dx == 1 && dy == 0 {
        0
    } else if dx == -1 && dy == 0 {
        1
    } else if dx == 0 && dy == 1 {
        2
    } else if dx == 0 && dy == -1 {
        3
    } else if dx == 1 && dy == 1 {
        4
    } else if dx == 1 && dy == -1 {
        5
    } else if dx == -1 && dy == 1 {
        6
    } else {
        7
    };
    assert(u == ((t.0 + neighbour(d).0) as i32, (t.1 + neighbour(d).1) as i32));
    d
}

/// The open set holds an entry for index `j` with estimate exactly `v`.
#[verifier::opaque]
pub open spec fn has_exact(open: Seq<OpenEntry>, j: int, v: int) -> bool {
    exists|m: int| 0 <= m < open.len() && open[m].2 == j && open[m].0 == v
}

/// Every walk from `from` that ends on an expanded tile costs at least the
/// cost recorded for that tile.
#[verifier::opaque]
pub open spec fn settled(g: &NavGrid, from: Tile, closed: Seq<bool>, gs: Seq<u32>) -> bool {
    forall|p: Seq<Tile>|
        #[trigger] walk(g, p) && p[0] == from && 0 <= p.last().1 * g.gw() + p.last().0 < closed.len() && closed[p.last().1
            * g.gw() + p.last().0] ==> gs[p.last().1 * g.gw() + p.last().0] <= walk_cost(p)
}

/// Every king move out of an expanded tile other than `skip` leads onto the
/// frontier.
#[verifier::opaque]
pub open spec fn frontier_ok(g: &NavGrid, closed: Seq<bool>, gs: Seq<u32>, open: Seq<OpenEntry>, skip: int) -> bool {
    forall|i: int, j: int|
        0 <= i < closed.len() && 0 <= j < closed.len() && i != skip && closed[i] && #[trigger] index_step(g, i, j) ==> on_frontier(
            closed,
            gs,
            open,
            j,
        )
}

/// Every reached, unexpanded index has an entry in the open set.
#[verifier::opaque]
pub open spec fn reached_open(closed: Seq<bool>, gs: Seq<u32>, open: Seq<OpenEntry>) -> bool {
    forall|j: int| 0 <= j < closed.len() && #[trigger] gs[j] != u32::MAX && !closed[j] ==> has_entry(open, j)
}

/// The first `k` king moves out of `(x, y)`, expanded at cost `gc`, have
/// been tried: each lands on the frontier and, unless expanded, no dearer
/// than `gc` plus the move's cost.
#[verifier::opaque]
pub open spec fn dirs_done(g: &NavGrid, x: i32, y: i32, k: int, gc: int, closed: Seq<bool>, gs: Seq<u32>, open: Seq<OpenEntry>) -> bool {
    forall|d: int|
        0 <= d < k && #[trigger] king_step(g, (x, y), ((x + neighbour(d).0) as i32, (y + neighbour(d).1) as i32)) ==> {
            let j = (y + neighbour(d).1) * g.gw() + x + neighbour(d).0;
            &&& on_frontier(closed, gs, open, j)
            &&& !closed[j] ==> gs[j] != u32::MAX && gs[j] <= gc + neighbour(d).2
        }
}

proof fn lemma_dirs_next(g: &NavGrid, x: i32, y: i32, k: int, gc: int, closed: Seq<bool>, gs: Seq<u32>, open: Seq<OpenEntry>)
    requires
        dirs_done(g, x, y, k, gc, closed, gs, open),
        king_step(g, (x, y), ((x + neighbour(k).0) as i32, (y + neighbour(k).1) as i32)) ==> {
            let j = (y + neighbour(k).1) * g.gw() + x + neighbour(k).0;
            &&& on_frontier(closed, gs, open, j)
            &&& !closed[j] ==> gs[j] != u32::MAX && gs[j] <= gc + neighbour(k).2
        },
    ensures
        dirs_done(g, x, y, k + 1, gc, closed, gs, open),
{
    reveal(dirs_done);
}

proof fn lemma_dirs_reach(
    g: &NavGrid,
    x: i32,
    y: i32,
    k: int,
    gc: int,
    closed: Seq<bool>,
    g0: Seq<u32>,
    op0: Seq<OpenEntry>,
    ni: int,
    ng: u32,
    e: OpenEntry,
)
    requires
        g.wf(),
        g.inside(x as int, y as int),
        closed.len() == g.blocks().len(),
        g0.len() == g.blocks().len(),
        0 <= ni < g0.len(),
        ng < g0[ni],
        e.2 == ni,
        dirs_done(g, x, y, k, gc, closed, g0, op0),
    ensures
        dirs_done(g, x, y, k, gc, closed, g0.update(ni, ng), op0.push(e)),
{
    reveal(dirs_done);
    lemma_push_frontier(closed, g0, op0, ni, ng, e);
    assert forall|d: int|
        0 <= d < k && #[trigger] king_step(g, (x, y), ((x + neighbour(d).0) as i32, (y + neighbour(d).1) as i32)) implies {
            let j = (y + neighbour(d).1) * g.gw() + x + neighbour(d).0;
            &&& on_frontier(closed, g0.update(ni, ng), op0.push(e), j)
            &&& !closed[j] ==> g0.update(ni, ng)[j] != u32::MAX && g0.update(ni, ng)[j] <= gc + neighbour(d).2
        } by {
        let jd = (y + neighbour(d).1) * g.gw() + x + neighbour(d).0;
        assert(0 <= jd < g0.len()) by {
            assert(g.inside(x + neighbour(d).0, y + neighbour(d).1));
            lemma_tile_of_index(g, x + neighbour(d).0, y + neighbour(d).1);
        }
    }
}

proof fn lemma_frontier_push(g: &NavGrid, closed: Seq<bool>, g0: Seq<u32>, op0: Seq<OpenEntry>, ni: int, ng: u32, e: OpenEntry, skip: int)
    requires
        closed.len() == g0.len(),
        0 <= ni < g0.len(),
        ng != u32::MAX,
        e.2 == ni,
        frontier_ok(g, closed, g0, op0, skip),
    ensures
        frontier_ok(g, closed, g0.update(ni, ng), op0.push(e), skip),
{
    reveal(frontier_ok);
    lemma_push_frontier(closed, g0, op0, ni, ng, e);
}

/// From every expanded tile but `skip`, each king move to an unexpanded
/// tile has been tried: the tile is reached, at no more than the step
/// costs on top.
#[verifier::opaque]
pub open spec fn relaxed(g: &NavGrid, closed: Seq<bool>, gs: Seq<u32>, skip: int) -> bool {
    forall|i: int, j: int|
        0 <= i < closed.len() && 0 <= j < closed.len() && i != skip && closed[i] && #[trigger] index_step(g, i, j) && !closed[j]
            ==> gs[j] != u32::MAX && gs[j] <= gs[i] + step_cost(g.tile_of_index(i), g.tile_of_index(j))
}

/// Every reached, unexpanded index waits in the open set at exactly its
/// cost plus its estimate.
#[verifier::opaque]
pub open spec fn exact_entries(g: &NavGrid, closed: Seq<bool>, gs: Seq<u32>, open: Seq<OpenEntry>, to: Tile) -> bool {
    forall|j: int|
        0 <= j < closed.len() && #[trigger] gs[j] != u32::MAX && !closed[j] ==> has_exact(open, j, gs[j] + octile(g.tile_of_index(j), to))
}

/// No entry of the open set promises less than its index's cost plus its
/// estimate.
#[verifier::opaque]
pub open spec fn entries_bounded(g: &NavGrid, gs: Seq<u32>, open: Seq<OpenEntry>, to: Tile) -> bool {
    forall|m: int| 0 <= m < open.len() ==> (#[trigger] open[m]).0 >= gs[open[m].2 as int] + octile(g.tile_of_index(open[m].2 as int), to)
}

/// From an expanded tile, some king move leads to an unexpanded one.
proof fn lemma_first_unclosed(g: &NavGrid, p: Seq<Tile>, closed: Seq<bool>, k: int) -> (m: int)
    requires
        g.wf(),
        walk(g, p),
        0 <= k < p.len(),
        closed[p[k].1 * g.gw() + p[k].0],
        !closed[p.last().1 * g.gw() + p.last().0],
    ensures
        k < m < p.len(),
        !closed[p[m].1 * g.gw() + p[m].0],
        closed[p[m - 1].1 * g.gw() + p[m - 1].0],
    decreases p.len() - k,
{
    if k == p.len() - 1 {
        assert(false);
        k
    } else if !closed[p[k + 1].1 * g.gw() + p[k + 1].0] {
        k + 1
    } else {
        lemma_first_unclosed(g, p, closed, k + 1)
    }
}

impl NavGrid {
    /// Reaching index `ni` from the expanded index `cur` at a smaller cost than
    /// it had keeps the search state sound.
    proof fn lemma_reach(
        &self,
        start: int,
        closed: Seq<bool>,
        g0: Seq<u32>,
        p0: Seq<u32>,
        op0: Seq<OpenEntry>,
        ni: int,
        ng: u32,
        cur: int,
        e: OpenEntry,
        bound: int,
        from: Tile,
        to: Tile,
        skip: int,
    )
        requires
            self.wf(),
            self.search_ok(start, g0, p0),
            closed.len() == self.blocks().len(),
            0 <= ni < self.blocks().len(),
            0 <= cur < self.blocks().len(),
            !closed[ni],
            ng < g0[ni],
            g0[cur] < ng,
            ng <= bound,
            king_step(self, self.tile_of_index(cur), self.tile_of_index(ni)),
            ng == g0[cur] + step_cost(self.tile_of_index(cur), self.tile_of_index(ni)),
            closed[cur],
            forall|i: int| 0 <= i < self.blocks().len() && #[trigger] g0[i] != u32::MAX && i != start ==> closed[p0[i] as int],
            e.2 == ni,
            forall|m: int| 0 <= m < op0.len() ==> (#[trigger] op0[m]).2 < self.blocks().len()
                && g0[op0[m].2 as int] != u32::MAX,
            forall|i: int| 0 <= i < self.blocks().len() && #[trigger] closed[i] ==> g0[i] != u32::MAX,
            forall|i: int| 0 <= i < self.blocks().len() && #[trigger] g0[i] != u32::MAX ==> g0[i] <= bound,
            reached_open(closed, g0, op0),
            e.0 == ng + octile(self.tile_of_index(ni), to),
            settled(self, from, closed, g0),
            entries_bounded(self, g0, op0, to),
            exact_entries(self, closed, g0, op0, to),
            relaxed(self, closed, g0, skip),
        ensures
            settled(self, from, closed, g0.update(ni, ng)),
            entries_bounded(self, g0.update(ni, ng), op0.push(e), to),
            exact_entries(self, closed, g0.update(ni, ng), op0.push(e), to),
            relaxed(self, closed, g0.update(ni, ng), skip),
            self.search_ok(start, g0.update(ni, ng), p0.update(ni, cur as u32)),
            forall|i: int|
                0 <= i < self.blocks().len() && #[trigger] g0.update(ni, ng)[i] != u32::MAX && i != start
                    ==> closed[p0.update(ni, cur as u32)[i] as int],
            forall|m: int| 0 <= m < op0.push(e).len() ==> (#[trigger] op0.push(e)[m]).2 < self.blocks().len()
                && g0.update(ni, ng)[op0.push(e)[m].2 as int] != u32::MAX,
            forall|i: int| 0 <= i < self.blocks().len() && #[trigger] closed[i] ==> g0.update(ni, ng)[i] != u32::MAX,
            forall|i: int| 0 <= i < self.blocks().len() && #[trigger] g0.update(ni, ng)[i] != u32::MAX ==> g0.update(ni, ng)[i] <= bound,
            reached_open(closed, g0.update(ni, ng), op0.push(e)),
    {
        let n = self.blocks().len();
        let gg = g0.update(ni, ng);
        let pp = p0.update(ni, cur as u32);
        let oo = op0.push(e);
        lemma_push_frontier(closed, g0, op0, ni, ng, e);
        assert(reached_open(closed, gg, oo)) by {
            reveal(reached_open);
            assert forall|jj: int| 0 <= jj < closed.len() && #[trigger] gg[jj] != u32::MAX && !closed[jj] implies has_entry(oo, jj) by {
                if jj != ni {
                    assert(g0[jj] != u32::MAX);
                    assert(has_entry(op0, jj));
                }
            }
        }
        assert forall|m: int| 0 <= m < oo.len() implies (#[trigger] oo[m]).2 < n && gg[oo[m].2 as int] != u32::MAX by {
            if m < oo.len() - 1 {
                assert(oo[m] == op0[m]);
                assert(g0[oo[m].2 as int] != u32::MAX);
            }
        }
        assert forall|i: int| 0 <= i < n && #[trigger] closed[i] implies gg[i] != u32::MAX by {
            assert(g0[i] != u32::MAX);
        }
        assert forall|i: int| 0 <= i < n && #[trigger] gg[i] != u32::MAX implies gg[i] <= bound by {
            if i != ni {
                assert(g0[i] != u32::MAX);
            }
        }
        assert(ni != start) by {
            assert(g0[start] == 0);
        }
        assert forall|i: int| 0 <= i < n && #[trigger] gg[i] != u32::MAX implies {
            &&& self.open_at(self.tile_of_index(i).0 as int, self.tile_of_index(i).1 as int)
            &&& i != start ==> {
                &&& pp[i] < n
                &&& gg[pp[i] as int] < gg[i]
                &&& king_step(self, self.tile_of_index(pp[i] as int), self.tile_of_index(i))
            }
        } by {
            if i != ni {
                assert(g0[i] != u32::MAX);
                if i != start {
                    assert(pp[i] == p0[i]);
                    assert(closed[p0[i] as int]);
                    assert(pp[i] as int != ni);
                }
            } else {
                assert(g0[cur] != u32::MAX);
            }
        }
        assert forall|i: int| 0 <= i < n && #[trigger] gg[i] != u32::MAX && i != start implies closed[pp[i] as int] by {
            if i != ni {
                assert(g0[i] != u32::MAX);
            }
        }
        assert(settled(self, from, closed, gg)) by {
            reveal(settled);
            assert forall|p: Seq<Tile>|
                #[trigger] walk(self, p) && p[0] == from && 0 <= p.last().1 * self.gw() + p.last().0 < closed.len() && closed[p.last().1
                    * self.gw() + p.last().0] implies gg[p.last().1 * self.gw() + p.last().0] <= walk_cost(p) by {
                assert(g0[p.last().1 * self.gw() + p.last().0] <= walk_cost(p));
            }
        }
        assert(entries_bounded(self, gg, oo, to)) by {
            reveal(entries_bounded);
            assert forall|m: int| 0 <= m < oo.len() implies (#[trigger] oo[m]).0 >= gg[oo[m].2 as int] + octile(
                self.tile_of_index(oo[m].2 as int),
                to,
            ) by {
                if m < op0.len() {
                    assert(oo[m] == op0[m]);
                    assert(op0[m].0 >= g0[op0[m].2 as int] + octile(self.tile_of_index(op0[m].2 as int), to));
                } else {
                    assert(oo[m] == e);
                }
            }
        }
        assert(exact_entries(self, closed, gg, oo, to)) by {
            reveal(exact_entries);
            reveal(has_exact);
            assert forall|j: int| 0 <= j < closed.len() && #[trigger] gg[j] != u32::MAX && !closed[j] implies has_exact(
                oo,
                j,
                gg[j] + octile(self.tile_of_index(j), to),
            ) by {
                if j == ni {
                    assert(oo[op0.len() as int] == e);
                } else {
                    assert(g0[j] != u32::MAX);
                    assert(has_exact(op0, j, g0[j] + octile(self.tile_of_index(j), to)));
                    let m = choose|m: int| 0 <= m < op0.len() && op0[m].2 == j && op0[m].0 == g0[j] + octile(self.tile_of_index(j), to);
                    assert(oo[m] == op0[m]);
                }
            }
        }
        assert(relaxed(self, closed, gg, skip)) by {
            reveal(relaxed);
            assert forall|i: int, j: int|
                0 <= i < closed.len() && 0 <= j < closed.len() && i != skip && closed[i] && #[trigger] index_step(self, i, j) && !closed[j]
                    implies gg[j] != u32::MAX && gg[j] <= gg[i] + step_cost(self.tile_of_index(i), self.tile_of_index(j)) by {
                assert(g0[j] != u32::MAX && g0[j] <= g0[i] + step_cost(self.tile_of_index(i), self.tile_of_index(j)));
                assert(i != ni);
            }
        }
    }
}

impl NavGrid {
    /// The A\* step: with a consistent estimate, the cheapest open entry
    /// names a tile whose recorded cost no walk from the start beats, so
    /// expanding it keeps every expanded tile settled.
    proof fn lemma_pop_settles(
        &self,
        start: int,
        from: Tile,
        to: Tile,
        closed: Seq<bool>,
        gs: Seq<u32>,
        open: Seq<OpenEntry>,
        e: OpenEntry,
    )
        requires
            self.wf(),
            closed.len() == self.blocks().len(),
            gs.len() == self.blocks().len(),
            0 <= start < self.blocks().len(),
            self.tile_of_index(start) == from,
            closed[start],
            0 <= e.2 < self.blocks().len(),
            !closed[e.2 as int],
            forall|k: int| 0 <= k < open.len() ==> !entry_lt(#[trigger] open[k], e),
            e.0 >= gs[e.2 as int] + octile(self.tile_of_index(e.2 as int), to),
            settled(self, from, closed, gs),
            relaxed(self, closed, gs, -1),
            exact_entries(self, closed, gs, open, to),
        ensures
            settled(self, from, closed.update(e.2 as int, true), gs),
    {
        let u = e.2 as int;
        let w = self.gw();
        reveal(settled);
        reveal(relaxed);
        reveal(exact_entries);
        assert forall|p: Seq<Tile>|
            #[trigger] walk(self, p) && p[0] == from && 0 <= p.last().1 * w + p.last().0 < closed.update(u, true).len()
                && closed.update(u, true)[p.last().1 * w + p.last().0] implies gs[p.last().1 * w + p.last().0] <= walk_cost(p) by {
            let li = p.last().1 * w + p.last().0;
            let lt = p.last();
            assert(self.open_at(lt.0 as int, lt.1 as int)) by {
                if p.len() > 1 {
                    let j = p.len() - 2;
                    assert(king_step(self, p[j], p[j + 1]));
                }
            }
            lemma_tile_of_index(self, lt.0 as int, lt.1 as int);
            if li != u {
                assert(closed[li]);
            } else {
                lemma_tile_of_index(self, from.0 as int, from.1 as int);
                lemma_index_of_tile(self, start);
                assert(p[0].1 * w + p[0].0 == start);
                let m = lemma_first_unclosed(self, p, closed, 0);
                let pw = p[m - 1];
                let pv = p[m];
                let jj = m - 1;
                assert(king_step(self, p[jj], p[jj + 1]));
                assert(self.open_at(pw.0 as int, pw.1 as int)) by {
                    if m - 1 > 0 {
                        let j2 = m - 2;
                        assert(king_step(self, p[j2], p[j2 + 1]));
                    }
                }
                lemma_tile_of_index(self, pw.0 as int, pw.1 as int);
                lemma_tile_of_index(self, pv.0 as int, pv.1 as int);
                let iw = pw.1 * w + pw.0;
                let iv = pv.1 * w + pv.0;
                assert(index_step(self, iw, iv)) by {
                    reveal(index_step);
                }
                // The prefix up to the last expanded tile is settled.
                lemma_walk_prefix(self, p, m);
                let pre = p.take(m);
                assert(pre.last() == pw);
                assert(walk(self, pre) && pre[0] == from && 0 <= pre.last().1 * w + pre.last().0 < closed.len() && closed[pre.last().1 * w + pre.last().0]);
                assert(gs[iw] <= walk_cost(pre));
                // One step more reaches the first unexpanded tile.
                let pre1 = p.take(m + 1);
                lemma_walk_cost_split(pre1, m - 1);
                assert(pre1.take(m) =~= pre);
                assert(pre1.skip(m - 1) =~= seq![pw, pv]);
                assert(walk_cost(seq![pw, pv]) == step_cost(pw, pv)) by {
                    assert(seq![pw, pv].drop_first() =~= seq![pv]);
                    assert(walk_cost(seq![pv]) == 0);
                }
                assert(gs[iv] <= walk_cost(pre1));
                // It waits in the open set at its exact estimate.
                assert(has_exact(open, iv, gs[iv] + octile(pv, to)));
                reveal(has_exact);
                let x = choose|x: int| 0 <= x < open.len() && open[x].2 == iv && open[x].0 == gs[iv] + octile(pv, to);
                assert(!entry_lt(open[x], e));
                // The rest of the walk costs at least the drop in estimate.
                lemma_walk_suffix(self, p, m);
                lemma_octile_along(self, p.skip(m), to);
                assert(p.skip(m).last() == lt);
                lemma_walk_cost_split(p, m);
            }
        }
    }
}

/// Recording a reached cost for `ni` and pushing its entry keeps every index
/// on the frontier there, and puts `ni` on it.
proof fn lemma_push_frontier(closed: Seq<bool>, gs: Seq<u32>, open: Seq<OpenEntry>, ni: int, v: u32, e: OpenEntry)
    requires
        0 <= ni < gs.len(),
        v != u32::MAX,
        e.2 == ni,
    ensures
        forall|j: int|
            0 <= j < gs.len() && on_frontier(closed, gs, open, j) ==> #[trigger] on_frontier(
                closed,
                gs.update(ni, v),
                open.push(e),
                j,
            ),
        forall|j: int| has_entry(open, j) ==> #[trigger] has_entry(open.push(e), j),
        has_entry(open.push(e), ni),
        on_frontier(closed, gs.update(ni, v), open.push(e), ni),
{
    reveal(on_frontier);
    reveal(has_entry);
    let o2 = open.push(e);
    assert(o2[open.len() as int] == e);
    assert forall|j: int| has_entry(open, j) implies #[trigger] has_entry(o2, j) by {
        let m = choose|m: int| 0 <= m < open.len() && open[m].2 == j;
        assert(o2[m] == open[m]);
    }
    assert forall|j: int|
        0 <= j < gs.len() && on_frontier(closed, gs, open, j) implies #[trigger] on_frontier(closed, gs.update(ni, v), o2, j) by {
        if j != ni && !closed[j] {
            assert(has_entry(o2, j));
        }
    }
}

impl Scratch {
    /// Buffers for a search over `n` tiles: nothing reached, nothing closed.
    fn reset(&mut self, n: usize)
        ensures
            final(self).g@.len() == n,
            final(self).parent@.len() == n,
            final(self).closed@.len() == n,
            final(self).open@.len() == 0,
            forall|i: int| 0 <= i < n ==> #[trigger] final(self).g@[i] == u32::MAX,
            forall|i: int| 0 <= i < n ==> #[trigger] final(self).parent@[i] == u32::MAX,
            forall|i: int| 0 <= i < n ==> !#[trigger] final(self).closed@[i],
            final(self).expanded == old(self).expanded,
    {
        self.g = filled(u32::MAX, n);
        self.parent = filled(u32::MAX, n);
        self.closed = filled(false, n);
        self.open = Vec::new();
    }
}

impl NavGrid {
    /// A\* from tile `from` to tile `to`: 8-connected without corner
    /// cutting, octile heuristic, expanding the open entry with the smallest
    /// (estimate, push order) first. Returns the tiles *after* `from`,
    /// ending at `to`, or `None` if either end is blocked, no path exists,
    /// or more than `budget` nodes were expanded.
    #[verifier::rlimit(100)]
    pub fn astar(&self, from: Tile, to: Tile, budget: usize, scratch: &mut Scratch) -> (r: Option<Vec<Tile>>)
        requires
            self.wf(),
            self.gw() * self.gh() <= 100_000_000,
        ensures
            !self.open_at(from.0 as int, from.1 as int) || !self.open_at(to.0 as int, to.1 as int) ==> r is None,
            from == to && self.open_at(from.0 as int, from.1 as int) ==> (r matches Some(p) && p@.len() == 0),
            r matches Some(p) ==> walk(self, seq![from] + p@) && (seq![from] + p@).last() == to,
            !self.open_at(from.0 as int, from.1 as int) || !self.open_at(to.0 as int, to.1 as int) || from == to
                ==> *final(scratch) == *old(scratch),
            self.open_at(from.0 as int, from.1 as int) && self.open_at(to.0 as int, to.1 as int) && from != to
                ==> final(scratch).spent() <= budget + 1 && (final(scratch).spent() > budget ==> r is None),
            r is None && self.open_at(from.0 as int, from.1 as int) && self.open_at(to.0 as int, to.1 as int) && from != to
                && final(scratch).spent() <= budget ==> !exists|p: Seq<Tile>| #[trigger] walk(self, p) && p[0] == from && p.last() == to,
            r matches Some(p) ==> forall|q: Seq<Tile>|
                #[trigger] walk(self, q) && q[0] == from && q.last() == to ==> walk_cost(seq![from] + p@) <= walk_cost(q),
    {
        if !self.passable(from.0, from.1) || !self.passable(to.0, to.1) {
            return None;
        }
        if from.0 == to.0 && from.1 == to.1 {
            let v: Vec<Tile> = Vec::new();
            proof {
                assert(seq![from] + v@ =~= seq![from]);
                assert forall|q: Seq<Tile>| #[trigger] walk(self, q) && q[0] == from && q.last() == to implies walk_cost(
                    seq![from] + v@,
                ) <= walk_cost(q) by {
                    lemma_walk_cost_nonneg(q);
                }
            }
            return Some(v);
        }
        let n = self.blockers.len();
        scratch.reset(n);
        let start = self.idx(from.0, from.1);
        let goal = self.idx(to.0, to.1);
        proof {
            lemma_tile_of_index(self, from.0 as int, from.1 as int);
            lemma_tile_of_index(self, to.0 as int, to.1 as int);
        }
        scratch.g.set(start, 0);
        scratch.open.push((heuristic(from, to), 0, start as u32));
        proof {
            lemma_count_none(scratch.closed@);
            assert(from != to);
        }
        let mut expanded: usize = 0;
        let mut order: u32 = 0;
        scratch.expanded = 0;
        proof {
            assert(reached_open(scratch.closed@, scratch.g@, scratch.open@)) by {
                reveal(reached_open);
                reveal(has_entry);
                assert forall|j: int| 0 <= j < scratch.closed@.len() && #[trigger] scratch.g@[j] != u32::MAX && !scratch.closed@[j] implies has_entry(
                    scratch.open@,
                    j,
                ) by {
                    assert(j == start as int);
                    assert(scratch.open@[0].2 == start as u32);
                }
            }
            assert(frontier_ok(self, scratch.closed@, scratch.g@, scratch.open@, -1)) by {
                reveal(frontier_ok);
            }
            assert(exact_entries(self, scratch.closed@, scratch.g@, scratch.open@, to)) by {
                reveal(exact_entries);
                reveal(has_exact);
                assert forall|j: int| 0 <= j < scratch.closed@.len() && #[trigger] scratch.g@[j] != u32::MAX && !scratch.closed@[j] implies has_exact(
                    scratch.open@,
                    j,
                    scratch.g@[j] + octile(self.tile_of_index(j), to),
                ) by {
                    assert(j == start as int);
                    assert(scratch.open@[0].2 == start as u32);
                }
            }
            assert(entries_bounded(self, scratch.g@, scratch.open@, to)) by {
                reveal(entries_bounded);
                assert(scratch.open@[0].2 == start as u32);
            }
            assert(settled(self, from, scratch.closed@, scratch.g@)) by {
                reveal(settled);
            }
            assert(relaxed(self, scratch.closed@, scratch.g@, -1)) by {
                reveal(relaxed);
            }
        }
        let w = self.width;
        loop
            invariant
                self.wf(),
                self.gw() * self.gh() <= 100_000_000,
                n == self.blocks().len(),
                w == self.gw(),
                start < n,
                goal < n,
                self.tile_of_index(start as int) == from,
                self.tile_of_index(goal as int) == to,
                self.open_at(to.0 as int, to.1 as int),
                self.search_ok(start as int, scratch.g@, scratch.parent@),
                scratch.closed@.len() == n,
                forall|i: int| 0 <= i < n && #[trigger] scratch.g@[i] != u32::MAX && i != start ==> scratch.closed@[scratch.parent@[i] as int],
                expanded == count_true(scratch.closed@),
                scratch.expanded == expanded,
                expanded <= budget,
                !scratch.closed@[goal as int],
                from != to,
                order <= 8 * expanded,
                forall|m: int| 0 <= m < scratch.open@.len() ==> (#[trigger] scratch.open@[m]).2 < n
                    && scratch.g@[scratch.open@[m].2 as int] != u32::MAX,
                forall|i: int| 0 <= i < n && #[trigger] scratch.closed@[i] ==> scratch.g@[i] != u32::MAX,
                forall|i: int| 0 <= i < n && #[trigger] scratch.g@[i] != u32::MAX ==> scratch.g@[i] <= 14 * expanded,
                frontier_ok(self, scratch.closed@, scratch.g@, scratch.open@, -1),
                reached_open(scratch.closed@, scratch.g@, scratch.open@),
                !scratch.closed@[start as int] ==> forall|m: int| 0 <= m < scratch.open@.len() ==> (#[trigger] scratch.open@[m]).2 == start,
                settled(self, from, scratch.closed@, scratch.g@),
                relaxed(self, scratch.closed@, scratch.g@, -1),
                exact_entries(self, scratch.closed@, scratch.g@, scratch.open@, to),
                entries_bounded(self, scratch.g@, scratch.open@, to),
            decreases n - expanded, scratch.open@.len(),
        {
            let ghost o0 = scratch.open@;
            let entry = match pop_min(&mut scratch.open) {
                Some(e) => e,
                None => {
                    proof {
                        reveal(frontier_ok);
                        reveal(reached_open);
                        reveal(on_frontier);
                        reveal(has_entry);
                        assert forall|i: int, j: int|
                            0 <= i < n && 0 <= j < n && scratch.closed@[i] && #[trigger] index_step(self, i, j) implies scratch.closed@[j] by {
                            assert(on_frontier(scratch.closed@, scratch.g@, scratch.open@, j));
                        }
                        assert(scratch.closed@[start as int]) by {
                            if !scratch.closed@[start as int] {
                                assert(scratch.g@[start as int] == 0);
                                assert(has_entry(scratch.open@, start as int));
                            }
                        }
                        lemma_tile_of_index(self, from.0 as int, from.1 as int);
                        lemma_index_of_tile(self, start as int);
                        lemma_index_of_tile(self, goal as int);
                        if exists|p: Seq<Tile>| #[trigger] walk(self, p) && p[0] == from && p.last() == to {
                            let p = choose|p: Seq<Tile>| #[trigger] walk(self, p) && p[0] == from && p.last() == to;
                            assert(p[0].1 * self.gw() + p[0].0 == start as int);
                            lemma_walk_stays_closed(self, scratch.closed@, p, p.len() - 1);
                            assert(p[p.len() - 1].1 * self.gw() + p[p.len() - 1].0 == goal as int);
                        }
                    }
                    return None;
                },
            };
            let current = entry.2 as usize;
            proof {
                reveal(has_entry);
                assert forall|jj: int| 0 <= jj < n && jj != current as int && has_entry(o0, jj) implies has_entry(scratch.open@, jj) by {
                    let m = choose|m: int| 0 <= m < o0.len() && o0[m].2 == jj;
                    assert(o0[m] != entry);
                    assert(scratch.open@.contains(o0[m]));
                    let m2 = choose|m2: int| 0 <= m2 < scratch.open@.len() && scratch.open@[m2] == o0[m];
                    assert(scratch.open@[m2].2 == jj);
                }
                let m = choose|m: int| 0 <= m < o0.len() && o0[m] == entry;
                assert(o0[m].2 < n);
                lemma_count_le(scratch.closed@);
                assert forall|j: int| 0 <= j < scratch.open@.len() implies (#[trigger] scratch.open@[j]).2 < n
                    && scratch.g@[scratch.open@[j].2 as int] != u32::MAX by {
                    assert(o0.contains(scratch.open@[j]));
                    let mm = choose|mm: int| 0 <= mm < o0.len() && o0[mm] == scratch.open@[j];
                    assert(o0[mm].2 < n);
                }
                assert(entries_bounded(self, scratch.g@, scratch.open@, to)) by {
                    reveal(entries_bounded);
                    assert forall|j: int| 0 <= j < scratch.open@.len() implies (#[trigger] scratch.open@[j]).0 >= scratch.g@[scratch.open@[j].2 as int]
                        + octile(self.tile_of_index(scratch.open@[j].2 as int), to) by {
                        assert(o0.contains(scratch.open@[j]));
                        let mm = choose|mm: int| 0 <= mm < o0.len() && o0[mm] == scratch.open@[j];
                        assert(o0[mm].0 >= scratch.g@[o0[mm].2 as int] + octile(self.tile_of_index(o0[mm].2 as int), to));
                    }
                }
                assert(!scratch.closed@[start as int] ==> forall|j: int| 0 <= j < scratch.open@.len() ==> (#[trigger] scratch.open@[j]).2 == start) by {
                    assert forall|j: int| 0 <= j < scratch.open@.len() && !scratch.closed@[start as int] implies (#[trigger] scratch.open@[j]).2 == start by {
                        assert(o0.contains(scratch.open@[j]));
                    }
                }
                assert(entry.0 >= scratch.g@[current as int] + octile(self.tile_of_index(current as int), to)) by {
                    reveal(entries_bounded);
                }
                assert(exact_entries(self, scratch.closed@.update(current as int, true), scratch.g@, scratch.open@, to)) by {
                    reveal(exact_entries);
                    reveal(has_exact);
                    assert forall|jj: int|
                        0 <= jj < n && #[trigger] scratch.g@[jj] != u32::MAX && !scratch.closed@.update(current as int, true)[jj] implies has_exact(
                            scratch.open@,
                            jj,
                            scratch.g@[jj] + octile(self.tile_of_index(jj), to),
                        ) by {
                        assert(has_exact(o0, jj, scratch.g@[jj] + octile(self.tile_of_index(jj), to)));
                        let m = choose|m: int| 0 <= m < o0.len() && o0[m].2 == jj && o0[m].0 == scratch.g@[jj] + octile(self.tile_of_index(jj), to);
                        assert(o0[m] != entry);
                        assert(scratch.open@.contains(o0[m]));
                        let m2 = choose|m2: int| 0 <= m2 < scratch.open@.len() && scratch.open@[m2] == o0[m];
                        assert(scratch.open@[m2].2 == jj);
                    }
                }
            }
            if scratch.closed[current] {
                proof {
                    assert(frontier_ok(self, scratch.closed@, scratch.g@, scratch.open@, -1)) by {
                        reveal(frontier_ok);
                        reveal(on_frontier);
                        assert forall|i: int, j: int|
                            0 <= i < scratch.closed@.len() && 0 <= j < scratch.closed@.len() && i != -1 && scratch.closed@[i] && #[trigger] index_step(
                                self,
                                i,
                                j,
                            ) implies on_frontier(scratch.closed@, scratch.g@, scratch.open@, j) by {
                            assert(on_frontier(scratch.closed@, scratch.g@, o0, j));
                            if j != current as int && !scratch.closed@[j] {
                                assert(has_entry(o0, j));
                            }
                        }
                    }
                    assert(reached_open(scratch.closed@, scratch.g@, scratch.open@)) by {
                        reveal(reached_open);
                        assert forall|j: int| 0 <= j < scratch.closed@.len() && #[trigger] scratch.g@[j] != u32::MAX && !scratch.closed@[j] implies has_entry(
                            scratch.open@,
                            j,
                        ) by {
                            assert(has_entry(o0, j));
                        }
                    }
                    assert(scratch.closed@.update(current as int, true) =~= scratch.closed@);
                }
                continue;
            }
            proof {
                if current != start {
                    assert(scratch.closed@[start as int]) by {
                        if !scratch.closed@[start as int] {
                            assert(o0[0].2 == start);
                        }
                    }
                    assert forall|k: int| 0 <= k < o0.len() implies !entry_lt(#[trigger] o0[k], entry) by {
                    }
                    self.lemma_pop_settles(start as int, from, to, scratch.closed@, scratch.g@, o0, entry);
                } else {
                    reveal(settled);
                    let cl = scratch.closed@.update(current as int, true);
                    assert forall|p: Seq<Tile>|
                        #[trigger] walk(self, p) && p[0] == from && 0 <= p.last().1 * self.gw() + p.last().0 < cl.len()
                            && cl[p.last().1 * self.gw() + p.last().0] implies scratch.g@[p.last().1 * self.gw() + p.last().0] <= walk_cost(p) by {
                        lemma_walk_cost_nonneg(p);
                        if !scratch.closed@[p.last().1 * self.gw() + p.last().0] {
                            assert(p.last().1 * self.gw() + p.last().0 == start as int);
                        }
                    }
                }
            }
            proof {
                lemma_count_update(scratch.closed@, current as int, true);
                lemma_count_le(scratch.closed@.update(current as int, true));
            }
            let ghost cl0 = scratch.closed@;
            scratch.closed.set(current, true);
            proof {
                assert(reached_open(scratch.closed@, scratch.g@, scratch.open@)) by {
                    reveal(reached_open);
                    assert forall|jj: int| 0 <= jj < scratch.closed@.len() && #[trigger] scratch.g@[jj] != u32::MAX && !scratch.closed@[jj] implies has_entry(
                        scratch.open@,
                        jj,
                    ) by {
                        assert(jj != current as int);
                        assert(!cl0[jj]);
                        assert(has_entry(o0, jj));
                    }
                }
                assert(frontier_ok(self, scratch.closed@, scratch.g@, scratch.open@, current as int)) by {
                    reveal(frontier_ok);
                    reveal(reached_open);
                    reveal(on_frontier);
                    assert forall|i: int, j: int|
                        0 <= i < scratch.closed@.len() && 0 <= j < scratch.closed@.len() && i != current && scratch.closed@[i] && #[trigger] index_step(
                            self,
                            i,
                            j,
                        ) implies on_frontier(scratch.closed@, scratch.g@, scratch.open@, j) by {
                        assert(cl0[i]);
                        assert(on_frontier(cl0, scratch.g@, o0, j));
                        if j != current as int && !cl0[j] {
                            assert(has_entry(o0, j));
                        }
                    }
                }
            }
            if current == goal {
                let path = self.reconstruct(scratch, start, goal);
                proof {
                    reveal(settled);
                    assert forall|q: Seq<Tile>| #[trigger] walk(self, q) && q[0] == from && q.last() == to implies walk_cost(
                        seq![from] + path@,
                    ) <= walk_cost(q) by {
                        lemma_index_of_tile(self, goal as int);
                        assert(q.last().1 * self.gw() + q.last().0 == goal as int);
                    }
                }
                return Some(path);
            }
            expanded = expanded + 1;
            scratch.expanded = expanded;
            if expanded > budget {
                return None;
            }
            let x = (current as i32) % w;
            let y = (current as i32) / w;
            proof {
                lemma_index_of_tile(self, current as int);
            }
            let gc = scratch.g[current];
            proof {
                if !cl0[start as int] {
                    assert(o0[0].2 == start);
                    assert(o0.contains(entry));
                }
                assert(relaxed(self, scratch.closed@, scratch.g@, current as int)) by {
                    reveal(relaxed);
                    assert forall|i: int, j: int|
                        0 <= i < n && 0 <= j < n && i != current && scratch.closed@[i] && #[trigger] index_step(self, i, j) && !scratch.closed@[j]
                            implies scratch.g@[j] != u32::MAX && scratch.g@[j] <= scratch.g@[i] + step_cost(self.tile_of_index(i), self.tile_of_index(j)) by {
                        assert(cl0[i]);
                    }
                }
            }
            self.relax_neighbours(scratch, &mut order, current, x, y, gc, start, goal, from, to, expanded, budget);
        }
    }

    /// Tries the eight king moves out of the expanded index `current`, at
    /// cost `gc`: every open neighbour not yet expanded that this reaches
    /// more cheaply gets the lower cost, `current` as its parent, and an open
    /// entry at its cost plus its estimate.
    #[verifier::spinoff_prover]
    #[verifier::rlimit(100)]
    fn relax_neighbours(
        &self,
        scratch: &mut Scratch,
        order: &mut u32,
        current: usize,
        x: i32,
        y: i32,
        gc: u32,
        start: usize,
        goal: usize,
        from: Tile,
        to: Tile,
        expanded: usize,
        budget: usize,
    )
        requires
            self.wf(),
            self.gw() * self.gh() <= 100_000_000,
            start < self.blocks().len(),
            goal < self.blocks().len(),
            current < self.blocks().len(),
            current != goal,
            old(scratch).expanded == expanded,
            expanded <= budget,
            self.tile_of_index(current as int) == (x, y),
            self.inside(x as int, y as int),
            self.tile_of_index(goal as int) == to,
            self.open_at(to.0 as int, to.1 as int),
            self.search_ok(start as int, old(scratch).g@, old(scratch).parent@),
            old(scratch).closed@.len() == self.blocks().len(),
            old(scratch).closed@[current as int],
            forall|i: int| 0 <= i < self.blocks().len() && #[trigger] old(scratch).g@[i] != u32::MAX && i != start
                ==> old(scratch).closed@[old(scratch).parent@[i] as int],
            !old(scratch).closed@[goal as int],
            from != to,
            forall|i: int| 0 <= i < self.blocks().len() && #[trigger] old(scratch).closed@[i] ==> old(scratch).g@[i] != u32::MAX,
            expanded == count_true(old(scratch).closed@),
            1 <= expanded <= self.blocks().len(),
            gc == old(scratch).g@[current as int],
            gc <= 14 * (expanded - 1),
            *old(order) <= 8 * (expanded - 1),
            forall|m: int| 0 <= m < old(scratch).open@.len() ==> (#[trigger] old(scratch).open@[m]).2 < self.blocks().len()
                && old(scratch).g@[old(scratch).open@[m].2 as int] != u32::MAX,
            forall|i: int| 0 <= i < self.blocks().len() && #[trigger] old(scratch).g@[i] != u32::MAX ==> old(scratch).g@[i] <= 14 * expanded,
            frontier_ok(self, old(scratch).closed@, old(scratch).g@, old(scratch).open@, current as int),
            reached_open(old(scratch).closed@, old(scratch).g@, old(scratch).open@),
            old(scratch).closed@[start as int],
            self.tile_of_index(start as int) == from,
            settled(self, from, old(scratch).closed@, old(scratch).g@),
            relaxed(self, old(scratch).closed@, old(scratch).g@, current as int),
            exact_entries(self, old(scratch).closed@, old(scratch).g@, old(scratch).open@, to),
            entries_bounded(self, old(scratch).g@, old(scratch).open@, to),
        ensures
            final(scratch).closed@ == old(scratch).closed@,
            final(scratch).expanded == old(scratch).expanded,
            *final(order) <= 8 * expanded,
            self.search_ok(start as int, final(scratch).g@, final(scratch).parent@),
            forall|i: int| 0 <= i < self.blocks().len() && #[trigger] final(scratch).g@[i] != u32::MAX && i != start
                ==> final(scratch).closed@[final(scratch).parent@[i] as int],
            forall|i: int| 0 <= i < self.blocks().len() && #[trigger] final(scratch).closed@[i] ==> final(scratch).g@[i] != u32::MAX,
            forall|m: int| 0 <= m < final(scratch).open@.len() ==> (#[trigger] final(scratch).open@[m]).2 < self.blocks().len()
                && final(scratch).g@[final(scratch).open@[m].2 as int] != u32::MAX,
            forall|i: int| 0 <= i < self.blocks().len() && #[trigger] final(scratch).g@[i] != u32::MAX ==> final(scratch).g@[i] <= 14 * expanded,
            frontier_ok(self, final(scratch).closed@, final(scratch).g@, final(scratch).open@, -1),
            reached_open(final(scratch).closed@, final(scratch).g@, final(scratch).open@),
            settled(self, from, final(scratch).closed@, final(scratch).g@),
            relaxed(self, final(scratch).closed@, final(scratch).g@, -1),
            exact_entries(self, final(scratch).closed@, final(scratch).g@, final(scratch).open@, to),
            entries_bounded(self, final(scratch).g@, final(scratch).open@, to),
    {
        let n = self.blockers.len();
        let w = self.width;
        let mut ord: u32 = *order;
        proof {
            assert(dirs_done(self, x, y, 0, gc as int, scratch.closed@, scratch.g@, scratch.open@)) by {
                reveal(dirs_done);
            }
        }
        let mut k: usize = 0;
        while k < 8
            invariant
                scratch.closed@ == old(scratch).closed@,
                self.wf(),
                self.gw() * self.gh() <= 100_000_000,
                n == self.blocks().len(),
                w == self.gw(),
                start < n,
                goal < n,
                current < n,
                current != goal,
                scratch.expanded == expanded,
                expanded <= budget,
                self.tile_of_index(current as int) == (x, y),
                self.inside(x as int, y as int),
                self.tile_of_index(goal as int) == to,
                self.open_at(to.0 as int, to.1 as int),
                self.search_ok(start as int, scratch.g@, scratch.parent@),
                scratch.closed@.len() == n,
                scratch.closed@[current as int],
                forall|i: int| 0 <= i < n && #[trigger] scratch.g@[i] != u32::MAX && i != start ==> scratch.closed@[scratch.parent@[i] as int],
                !scratch.closed@[goal as int],
                from != to,
                forall|i: int| 0 <= i < n && #[trigger] scratch.closed@[i] ==> scratch.g@[i] != u32::MAX,
                expanded == count_true(scratch.closed@),
                1 <= expanded <= n,
                gc == scratch.g@[current as int],
                gc <= 14 * (expanded - 1),
                k <= 8,
                ord <= 8 * (expanded - 1) + k,
                forall|m: int| 0 <= m < scratch.open@.len() ==> (#[trigger] scratch.open@[m]).2 < n
                    && scratch.g@[scratch.open@[m].2 as int] != u32::MAX,
                forall|i: int| 0 <= i < n && #[trigger] scratch.g@[i] != u32::MAX ==> scratch.g@[i] <= 14 * expanded,
                frontier_ok(self, scratch.closed@, scratch.g@, scratch.open@, current as int),
                reached_open(scratch.closed@, scratch.g@, scratch.open@),
                dirs_done(self, x, y, k as int, gc as int, scratch.closed@, scratch.g@, scratch.open@),
                scratch.closed@[start as int],
                self.tile_of_index(start as int) == from,
                settled(self, from, scratch.closed@, scratch.g@),
                relaxed(self, scratch.closed@, scratch.g@, current as int),
                exact_entries(self, scratch.closed@, scratch.g@, scratch.open@, to),
                entries_bounded(self, scratch.g@, scratch.open@, to),
            decreases 8 - k,
        {
            let (dx, dy, cost) = neighbour_at(k);
            let nx = x + dx;
            let ny = y + dy;
            let ghost dir_ok = king_step(self, (x, y), ((x + neighbour(k as int).0) as i32, (y + neighbour(k as int).1) as i32));
            let ghost nj = (y + neighbour(k as int).1) * w + x + neighbour(k as int).0;
            if self.passable(nx, ny) && !(dx != 0 && dy != 0 && (!self.passable(x + dx, y) || !self.passable(x, y + dy))) {
                let ni = self.idx(nx, ny);
                proof {
                    assert(ni as int == nj);
                }
                if scratch.closed[ni] {
                    assert(on_frontier(scratch.closed@, scratch.g@, scratch.open@, nj)) by {
                        reveal(on_frontier);
                    }
                } else {
                    let ng = gc + cost;
                    if ng >= scratch.g[ni] {
                        assert(on_frontier(scratch.closed@, scratch.g@, scratch.open@, nj)) by {
                            reveal(on_frontier);
                            reveal(reached_open);
                            assert(has_entry(scratch.open@, nj));
                        }
                    } else {
                        proof {
                            lemma_tile_of_index(self, nx as int, ny as int);
                            assert(king_step(self, (x, y), (nx, ny)));
                            assert(cost == step_cost((x, y), (nx, ny)));
                        }
                        let ghost g0 = scratch.g@;
                        let ghost p0 = scratch.parent@;
                        let ghost op0 = scratch.open@;
                        scratch.g.set(ni, ng);
                        scratch.parent.set(ni, current as u32);
                        ord = ord + 1;
                        let est = ng + heuristic((nx, ny), to);
                        scratch.open.push((est, ord, ni as u32));
                        proof {
                            lemma_push_frontier(scratch.closed@, g0, op0, ni as int, ng, (est, ord, ni as u32));
                            self.lemma_reach(
                                start as int,
                                scratch.closed@,
                                g0,
                                p0,
                                op0,
                                ni as int,
                                ng,
                                current as int,
                                (est, ord, ni as u32),
                                14 * expanded,
                                from,
                                to,
                                current as int,
                            );
                            assert(scratch.g@ == g0.update(ni as int, ng));
                            assert(scratch.open@ == op0.push((est, ord, ni as u32)));
                            assert(on_frontier(scratch.closed@, scratch.g@, scratch.open@, nj));
                            lemma_dirs_reach(self, x, y, k as int, gc as int, scratch.closed@, g0, op0, ni as int, ng, (est, ord, ni as u32));
                            lemma_frontier_push(self, scratch.closed@, g0, op0, ni as int, ng, (est, ord, ni as u32), current as int);
                        }
                    }
                }
            } else {
                assert(!dir_ok);
            }
            assert(dir_ok ==> on_frontier(scratch.closed@, scratch.g@, scratch.open@, nj));
            assert(dir_ok && !scratch.closed@[nj] ==> scratch.g@[nj] != u32::MAX && scratch.g@[nj] <= gc + neighbour(k as int).2);
            proof {
                lemma_dirs_next(self, x, y, k as int, gc as int, scratch.closed@, scratch.g@, scratch.open@);
            }
            k = k + 1;
        }
        proof {
            self.lemma_expansion_done(current as int, x, y, gc as int, scratch.closed@, scratch.g@, scratch.open@);
        }
        *order = ord;
    }

    /// Once all eight moves out of `current` are tried, every expanded tile
    /// has its moves on the frontier and relaxed.
    proof fn lemma_expansion_done(
        &self,
        current: int,
        x: i32,
        y: i32,
        gc: int,
        closed: Seq<bool>,
        gs: Seq<u32>,
        open: Seq<OpenEntry>,
    )
        requires
            self.wf(),
            0 <= current < self.blocks().len(),
            self.tile_of_index(current) == (x, y),
            closed.len() == self.blocks().len(),
            gs.len() == self.blocks().len(),
            gc == gs[current],
            frontier_ok(self, closed, gs, open, current),
            relaxed(self, closed, gs, current),
            dirs_done(self, x, y, 8, gc, closed, gs, open),
        ensures
            frontier_ok(self, closed, gs, open, -1),
            relaxed(self, closed, gs, -1),
    {
            assert(frontier_ok(self, closed, gs, open, -1)) by {
                reveal(frontier_ok);
                reveal(dirs_done);
                assert forall|i: int, j: int|
                    0 <= i < closed.len() && 0 <= j < closed.len() && i != -1 && closed[i] && #[trigger] index_step(
                        self,
                        i,
                        j,
                    ) implies on_frontier(closed, gs, open, j) by {
                    if i == current {
                        let d = lemma_step_direction(self, i, j);
                        assert(king_step(self, (x, y), ((x + neighbour(d).0) as i32, (y + neighbour(d).1) as i32)));
                    }
                }
            }
            assert(relaxed(self, closed, gs, -1)) by {
                reveal(relaxed);
                reveal(dirs_done);
                assert forall|i: int, j: int|
                    0 <= i < closed.len() && 0 <= j < closed.len() && i != -1 && closed[i] && #[trigger] index_step(self, i, j)
                        && !closed[j] implies gs[j] != u32::MAX && gs[j] <= gs[i] + step_cost(
                        self.tile_of_index(i),
                        self.tile_of_index(j),
                    ) by {
                    if i == current {
                        let d = lemma_step_direction(self, i, j);
                        assert(king_step(self, (x, y), ((x + neighbour(d).0) as i32, (y + neighbour(d).1) as i32)));
                        assert(neighbour(d).2 == step_cost(self.tile_of_index(i), self.tile_of_index(j)));
                    }
                }
            }
    }

    /// Follows parent links from `goal` back to `start`; the tiles after
    /// the start, in walking order.
    fn reconstruct(&self, scratch: &Scratch, start: usize, goal: usize) -> (r: Vec<Tile>)
        requires
            self.wf(),
            self.search_ok(start as int, scratch.g@, scratch.parent@),
            goal < self.blocks().len(),
            scratch.g@[goal as int] != u32::MAX,
            goal != start,
        ensures
            walk(self, seq![self.tile_of_index(start as int)] + r@),
            r@.len() > 0,
            r@.last() == self.tile_of_index(goal as int),
            walk_cost(seq![self.tile_of_index(start as int)] + r@) == scratch.g@[goal as int],
    {
        let n = self.blockers.len();
        let w = self.width;
        let mut rev: Vec<Tile> = Vec::new();
        let mut i = goal;
        let ghost mut tail: Seq<Tile> = seq![self.tile_of_index(goal as int)];
        while i != start
            invariant
                self.wf(),
                self.search_ok(start as int, scratch.g@, scratch.parent@),
                n == self.blocks().len(),
                w == self.gw(),
                i < n,
                scratch.g@[i as int] != u32::MAX,
                tail.len() == rev@.len() + 1,
                tail[0] == self.tile_of_index(i as int),
                tail.last() == self.tile_of_index(goal as int),
                walk(self, tail),
                walk_cost(tail) + scratch.g@[i as int] == scratch.g@[goal as int],
                forall|k: int| 0 <= k < rev@.len() ==> #[trigger] rev@[k] == tail[tail.len() - 1 - k],
            decreases scratch.g@[i as int],
        {
            proof {
                lemma_index_of_tile(self, i as int);
            }
            let x = (i as i32) % w;
            let y = (i as i32) / w;
            rev.push((x, y));
            let p = scratch.parent[i] as usize;
            proof {
                let t = seq![self.tile_of_index(p as int)] + tail;
                assert(king_step(self, self.tile_of_index(p as int), self.tile_of_index(i as int)));
                assert forall|k: int| 0 <= k < t.len() - 1 implies #[trigger] king_step(self, t[k], t[k + 1]) by {
                    if k > 0 {
                        assert(t[k] == tail[k - 1] && t[k + 1] == tail[k]);
                        let j = k - 1;
                        assert(king_step(self, tail[j], tail[j + 1]));
                    }
                }
                lemma_index_of_tile(self, p as int);
                assert forall|k: int| 0 <= k < rev@.len() implies #[trigger] rev@[k] == t[t.len() - 1 - k] by {
                    if k < rev@.len() - 1 {
                        assert(rev@[k] == tail[tail.len() - 1 - k]);
                    }
                }
                assert(t.drop_first() =~= tail);
                assert(walk_cost(t) == step_cost(t[0], t[1]) + walk_cost(tail));
                tail = t;
            }
            i = p;
        }
        let mut out: Vec<Tile> = Vec::new();
        let mut k: usize = rev.len();
        while k > 0
            invariant
                k <= rev@.len(),
                out@.len() == rev@.len() - k,
                forall|j: int| 0 <= j < out@.len() ==> #[trigger] out@[j] == rev@[rev@.len() - 1 - j],
            decreases k,
        {
            k = k - 1;
            out.push(rev[k]);
        }
        proof {
            assert(rev@.len() > 0) by {
                assert(i == start);
                assert(tail[0] == self.tile_of_index(start as int));
                if rev@.len() == 0 {
                    assert(tail.len() == 1);
                    lemma_index_of_tile(self, goal as int);
                    lemma_index_of_tile(self, start as int);
                }
            }
            assert(out@ =~= tail.subrange(1, tail.len() as int)) by {
                assert forall|j: int| 0 <= j < out@.len() implies out@[j] == tail[j + 1] by {
                    assert(out@[j] == rev@[rev@.len() - 1 - j]);
                }
            }
            assert(seq![self.tile_of_index(start as int)] + out@ =~= tail);
        }
        out
    }
}

/// Nothing set counts nothing.
proof fn lemma_count_none(s: Seq<bool>)
    requires
        forall|i: int| 0 <= i < s.len() ==> !#[trigger] s[i],
    ensures
        count_true(s) == 0,
    decreases s.len(),
{
    if s.len() > 0 {
        lemma_count_none(s.drop_last());
    }
}

/// `way` is the centres of the tiles at the strictly increasing positions
/// `ix`.
pub open spec fn selects(way: Seq<Vec2Fx>, tiles: Seq<Tile>, ix: Seq<int>) -> bool {
    &&& ix.len() == way.len()
    &&& forall|k: int| 0 <= k < ix.len() ==> 0 <= #[trigger] ix[k] < tiles.len() && way[k] == centre_spec(tiles[ix[k]])
    &&& forall|a: int, b: int| 0 <= a < b < ix.len() ==> ix[a] < ix[b]
}

/// The `k`-th waypoint of a smoothed way either follows the previous one's
/// tile directly in the input, skipping nothing, or is reached from the
/// previous anchor (the start point for the first) by a walk: a segment
/// that skips tiles always had line of sight.
pub open spec fn hop_ok(g: &NavGrid, from: Vec2Fx, way: Seq<Vec2Fx>, tiles: Seq<Tile>, ix: Seq<int>, k: int) -> bool {
    let prev_anchor = if k == 0 { from } else { way[k - 1] };
    let prev_ix = if k == 0 { -1 } else { ix[k - 1] };
    ix[k] == prev_ix + 1 || exists|p: Seq<Tile>|
        #[trigger] walk(g, p) && p[0] == tile_spec(prev_anchor) && p.last() == tile_spec(way[k])
}

impl NavGrid {
    /// Removes waypoints that a straight walk can skip: from each anchor,
    /// the furthest following tile in line of sight becomes the next
    /// waypoint (its centre), and the walk goes on from there. The result
    /// is the centres of an increasing selection of the tiles that always
    /// ends with the last one.
    pub fn smooth(&self, from: Vec2Fx, tiles: &[Tile]) -> (r: Vec<Vec2Fx>)
        requires
            self.wf(),
        ensures
            r@ == smoothed(*self, from, tiles@, 0),
            r@.len() <= tiles@.len(),
            r@.len() == 0 <==> tiles@.len() == 0,
            r@.len() > 0 ==> r@.last() == centre_spec(tiles@.last()),
            exists|ix: Seq<int>| #[trigger] selects(r@, tiles@, ix) && forall|k: int| 0 <= k < r@.len() ==> hop_ok(
                self,
                from,
                r@,
                tiles@,
                ix,
                k,
            ),
    {
        let mut out: Vec<Vec2Fx> = Vec::new();
        let mut anchor = from;
        let mut i: usize = 0;
        let ghost mut ix: Seq<int> = Seq::empty();
        while i < tiles.len()
            invariant
                self.wf(),
                i <= tiles@.len(),
                out@.len() <= i,
                i > 0 ==> out@.len() > 0 && out@.last() == centre_spec(tiles@[i - 1]),
                i == 0 ==> out@.len() == 0,
                ix.len() == out@.len(),
                forall|k: int| 0 <= k < ix.len() ==> 0 <= #[trigger] ix[k] < i && out@[k] == centre_spec(tiles@[ix[k]]),
                forall|a: int, b: int| 0 <= a < b < ix.len() ==> ix[a] < ix[b],
                anchor == if out@.len() == 0 { from } else { out@.last() },
                out@.len() == 0 ==> i == 0,
                out@.len() > 0 ==> i == ix.last() + 1,
                forall|k: int| 0 <= k < out@.len() ==> hop_ok(self, from, out@, tiles@, ix, k),
                out@ + smoothed(*self, anchor, tiles@, i as int) == smoothed(*self, from, tiles@, 0),
            decreases tiles.len() - i,
        {
            let mut j = i;
            while j + 1 < tiles.len() && self.line_of_sight(anchor, centre(tiles[j + 1]))
                invariant
                    self.wf(),
                    i <= j < tiles@.len(),
                    j > i ==> exists|p: Seq<Tile>|
                        #[trigger] walk(self, p) && p[0] == tile_spec(anchor) && p.last() == tile_spec(centre_spec(tiles@[j as int])),
                    furthest_seen(*self, anchor, tiles@, i as int) == furthest_seen(*self, anchor, tiles@, j as int),
                decreases tiles.len() - j,
            {
                j = j + 1;
            }
            let ghost before = out@;
            let ghost prev_anchor = anchor;
            proof {
                assert(furthest_seen(*self, prev_anchor, tiles@, j as int) == j);
                assert(smoothed(*self, prev_anchor, tiles@, i as int) == seq![centre_spec(tiles@[j as int])] + smoothed(
                    *self,
                    centre_spec(tiles@[j as int]),
                    tiles@,
                    j + 1,
                ));
            }
            anchor = centre(tiles[j]);
            out.push(anchor);
            proof {
                assert(out@ + smoothed(*self, anchor, tiles@, j + 1) =~= before + smoothed(*self, prev_anchor, tiles@, i as int));
            }
            proof {
                let ix0 = ix;
                ix = ix.push(j as int);
                let k = before.len() as int;
                assert(out@ == before.push(anchor));
                assert forall|m: int| 0 <= m < out@.len() implies hop_ok(self, from, out@, tiles@, ix, m) by {
                    if m < k {
                        assert(hop_ok(self, from, before, tiles@, ix0, m));
                        assert(out@[m] == before[m]);
                        assert(ix[m] == ix0[m]);
                        if m > 0 {
                            assert(out@[m - 1] == before[m - 1]);
                            assert(ix[m - 1] == ix0[m - 1]);
                        }
                    } else {
                        assert(out@[m] == anchor);
                        if m > 0 {
                            assert(out@[m - 1] == before[m - 1]);
                            assert(ix[m - 1] == ix0[m - 1]);
                        }
                    }
                }
            }
            i = j + 1;
        }
        assert(selects(out@, tiles@, ix));
        assert(out@ =~= out@ + smoothed(*self, anchor, tiles@, i as int));
        out
    }

    /// Full path query: a straight walk when there is line of sight, else
    /// A\* plus smoothing, finishing on the exact goal point rather than a
    /// tile centre. `None` if the goal tile is blocked, unreachable, or the
    /// budget ran out.
    pub fn find_path(&self, from: Vec2Fx, goal: Vec2Fx, budget: usize, scratch: &mut Scratch) -> (r: Option<Vec<Vec2Fx>>)
        requires
            self.wf(),
            self.gw() * self.gh() <= 100_000_000,
        ensures
            !self.open_at(tile_spec(goal).0 as int, tile_spec(goal).1 as int) ==> r is None,
            r matches Some(w) ==> w@.len() >= 1 && w@.last() == goal,
            tile_spec(from) == tile_spec(goal) && self.open_at(tile_spec(goal).0 as int, tile_spec(goal).1 as int)
                ==> (r matches Some(w) && w@ == seq![goal]),
            r matches Some(w) ==> exists|p: Seq<Tile>|
                #[trigger] walk(self, p) && p[0] == tile_spec(from) && p.last() == tile_spec(goal) && waypoints_on(w@, p),
            r is None && (exists|p: Seq<Tile>| #[trigger] walk(self, p) && p[0] == tile_spec(from) && p.last() == tile_spec(goal))
                ==> final(scratch).spent() > budget,
    {
        let a = tile_of(from);
        let b = tile_of(goal);
        if !self.passable(b.0, b.1) {
            proof {
                if exists|p: Seq<Tile>| #[trigger] walk(self, p) && p[0] == tile_spec(from) && p.last() == tile_spec(goal) {
                    let p = choose|p: Seq<Tile>| #[trigger] walk(self, p) && p[0] == tile_spec(from) && p.last() == tile_spec(goal);
                    if p.len() > 1 {
                        assert(king_step(self, p[p.len() - 2], p[p.len() - 2 + 1]));
                    }
                }
            }
            return None;
        }
        if self.line_of_sight(from, goal) {
            let w = vec![goal];
            proof {
                let p = choose|p: Seq<Tile>| walk(self, p) && p[0] == tile_spec(from) && p.last() == tile_spec(goal);
                assert(waypoints_on(w@, p));
            }
            return Some(w);
        }
        let tiles = match self.astar(a, b, budget, scratch) {
            Some(t) => t,
            None => {
                return None;
            },
        };
        proof {
            if tiles@.len() == 0 {
                assert((seq![a] + tiles@).last() == a);
            }
        }
        let mut way = self.smooth(from, tiles.as_slice());
        let ghost smoothed = way@;
        let last = way.len() - 1;
        way.set(last, goal);
        proof {
            let p = seq![a] + tiles@;
            let ix = choose|ix: Seq<int>| #[trigger] selects(smoothed, tiles@, ix) && forall|k: int| 0 <= k < smoothed.len() ==> hop_ok(
                self,
                from,
                smoothed,
                tiles@,
                ix,
                k,
            );
            assert forall|k: int| 0 <= k < way@.len() - 1 implies exists|j: int| 0 <= j < p.len() && #[trigger] way@[k] == centre_spec(
                p[j],
            ) by {
                assert(way@[k] == smoothed[k]);
                assert(smoothed[k] == centre_spec(tiles@[ix[k]]));
                assert(p[ix[k] + 1] == tiles@[ix[k]]);
            }
            assert(walk(self, p));
        }
        Some(way)
    }
}

/// From `j` on, the furthest tile each of whose successors up to it is in
/// sight from `a`, taking one more while the next is in sight.
pub open spec fn furthest_seen(g: NavGrid, a: Vec2Fx, tiles: Seq<Tile>, j: int) -> int
    decreases tiles.len() - j,
{
    if 0 <= j && j + 1 < tiles.len() && sight(g, a, centre_spec(tiles[j + 1])) {
        furthest_seen(g, a, tiles, j + 1)
    } else {
        j
    }
}

/// The smoothed way from anchor `a` over `tiles` from `i` on: the centre of
/// the furthest tile in sight, then on from there.
pub open spec fn smoothed(g: NavGrid, a: Vec2Fx, tiles: Seq<Tile>, i: int) -> Seq<Vec2Fx>
    decreases tiles.len() - i,
{
    if i < 0 || i >= tiles.len() {
        Seq::empty()
    } else {
        let j = furthest_seen(g, a, tiles, i);
        if j < i || j >= tiles.len() {
            Seq::empty()
        } else {
            seq![centre_spec(tiles[j])] + smoothed(g, centre_spec(tiles[j]), tiles, j + 1)
        }
    }
}

/// The furthest tile in sight is at or after the start and on the path.
proof fn lemma_furthest_range(g: NavGrid, a: Vec2Fx, tiles: Seq<Tile>, j: int)
    requires
        0 <= j < tiles.len(),
    ensures
        j <= furthest_seen(g, a, tiles, j) < tiles.len(),
    decreases tiles.len() - j,
{
    if j + 1 < tiles.len() && sight(g, a, centre_spec(tiles[j + 1])) {
        lemma_furthest_range(g, a, tiles, j + 1);
    }
}

/// Every waypoint but the last stands on the centre of a tile of `p`.
pub open spec fn waypoints_on(w: Seq<Vec2Fx>, p: Seq<Tile>) -> bool {
    forall|k: int| 0 <= k < w.len() - 1 ==> exists|j: int| 0 <= j < p.len() && #[trigger] w[k] == centre_spec(p[j])
}

/// The bytes of a grid: its dimensions, then every blocker count.
pub open spec fn grid_bytes(w: i32, h: i32, blocks: Seq<u16>) -> Seq<u8> {
    le_i32(w) + le_i32(h) + counts_bytes(blocks)
}

/// The bytes of the blocker counts, in row-major order.
pub open spec fn counts_bytes(s: Seq<u16>) -> Seq<u8>
    decreases s.len(),
{
    if s.len() == 0 { Seq::empty() } else { counts_bytes(s.drop_last()) + le16(s.last()) }
}

impl HashState for NavGrid {
    open spec fn state_bytes(&self) -> Seq<u8> {
        grid_bytes(self.gw() as i32, self.gh() as i32, self.blocks())
    }

    fn hash_state(&self, h: &mut StateHasher) {
        let ghost h0 = h@;
        h.write_i32(self.width);
        h.write_i32(self.height);
        proof {
            lemma_fnv_append(h0, le_i32(self.width), le_i32(self.height));
        }
        let ghost h1 = h@;
        let mut i: usize = 0;
        while i < self.blockers.len()
            invariant
                i <= self.blocks().len(),
                h@ == fnv(h1, counts_bytes(self.blocks().take(i as int))),
            decreases self.blockers.len() - i,
        {
            h.write_u16(self.blockers[i]);
            proof {
                assert(self.blocks().take(i + 1).drop_last() =~= self.blocks().take(i as int));
                lemma_fnv_append(h1, counts_bytes(self.blocks().take(i as int)), le16(self.blocks()[i as int]));
            }
            i = i + 1;
        }
        proof {
            assert(self.blocks().take(i as int) =~= self.blocks());
            lemma_fnv_append(h0, le_i32(self.width) + le_i32(self.height), counts_bytes(self.blocks()));
        }
    }
}

/// Chebyshev distance: the ring a tile offset lies on.
pub open spec fn cheb(dx: int, dy: int) -> int {
    let ax = if dx < 0 { -dx } else { dx };
    let ay = if dy < 0 { -dy } else { dy };
    if ax < ay { ay } else { ax }
}

/// `(dy1, dx1)` comes before `(dy2, dx2)` when scanning rows top to bottom,
/// each row left to right.
pub open spec fn scan_before(dy1: int, dx1: int, dy2: int, dx2: int) -> bool {
    dy1 < dy2 || (dy1 == dy2 && dx1 < dx2)
}

impl NavGrid {
    /// The component a search is held to: none, or that of the tile `from`
    /// (0 when it is off the map).
    pub open spec fn wanted(&self, from: Option<Tile>) -> Option<u16> {
        match from {
            None => None,
            Some(f) => Some(if self.inside(f.0 as int, f.1 as int) { self.label_at(f.0 as int, f.1 as int) } else { 0 }),
        }
    }

    /// A tile a unit may be sent to: open, and in the wanted component if
    /// there is one.
    pub open spec fn fits(&self, want: Option<u16>, tx: int, ty: int) -> bool {
        self.open_at(tx, ty) && match want {
            None => true,
            Some(c) => self.label_at(tx, ty) == c,
        }
    }

    fn fits_at(&self, tx: i32, ty: i32, want: Option<u16>) -> (r: bool)
        requires
            self.wf(),
            want is Some ==> !self.is_dirty(),
        ensures
            r == self.fits(want, tx as int, ty as int),
    {
        if !self.passable(tx, ty) {
            return false;
        }
        match want {
            None => true,
            Some(c) => c == self.component(tx, ty),
        }
    }

    /// The nearest passable tile to `(x, y)` (in the same component as
    /// `from` if given), searching rings outward up to `radius`. The answer
    /// is on the lowest ring that has one, nearest by squared distance on
    /// that ring, and first in scan order among equals.
    #[verifier::rlimit(60)]
    /// `t` is the tile [`NavGrid::nearest_passable`] picks around `(x, y)`:
    /// a fitting tile within `radius`, the nearest by rings, then by
    /// straight distance, then first in scan order.
    pub open spec fn nearest_pick(&self, x: int, y: int, radius: int, from: Option<Tile>, t: Tile) -> bool {
        let (tx, ty) = (t.0 as int, t.1 as int);
        &&& self.fits(self.wanted(from), tx, ty)
        &&& cheb(tx - x, ty - y) <= radius
        &&& forall|ux: int, uy: int| #[trigger] self.fits(self.wanted(from), ux, uy) ==> {
            &&& cheb(ux - x, uy - y) >= cheb(tx - x, ty - y)
            &&& cheb(ux - x, uy - y) == cheb(tx - x, ty - y) ==> {
                let du = (ux - x) * (ux - x) + (uy - y) * (uy - y);
                let dt = (tx - x) * (tx - x) + (ty - y) * (ty - y);
                &&& dt <= du
                &&& dt == du ==> !scan_before(uy - y, ux - x, ty - y, tx - x)
            }
        }
    }

    pub fn nearest_passable(&self, x: i32, y: i32, radius: i32, from: Option<Tile>) -> (r: Option<Tile>)
        requires
            self.wf(),
            from is Some ==> !self.is_dirty(),
            radius < i32::MAX,
            i32::MIN <= x - radius && x + radius <= i32::MAX,
            i32::MIN <= y - radius && y + radius <= i32::MAX,
        ensures
            r is Some && from is Some && self.tile_open(from->0) && self.gw() * self.gh() <= 65535
                ==> exists|p: Seq<Tile>| #[trigger] orth_walk(self, p) && p[0] == from->0 && p.last() == r->0,
            r is None <==> forall|tx: int, ty: int| cheb(tx - x, ty - y) <= radius
                ==> !#[trigger] self.fits(self.wanted(from), tx, ty),
            r matches Some(t) ==> self.nearest_pick(x as int, y as int, radius as int, from, t),
    {
        let want: Option<u16> = match from {
            None => None,
            Some(f) => Some(self.component(f.0, f.1)),
        };
        assert(want == self.wanted(from));
        if radius < 0 {
            return None;
        }
        let mut r: i32 = 0;
        while r <= radius
            invariant
                self.wf(),
                want is Some ==> !self.is_dirty(),
                want == self.wanted(from),
                radius < i32::MAX,
                i32::MIN <= x - radius && x + radius <= i32::MAX,
                i32::MIN <= y - radius && y + radius <= i32::MAX,
                0 <= r,
                r <= radius + 1,
                forall|tx: int, ty: int| #[trigger] self.fits(want, tx, ty) ==> cheb(tx - x, ty - y) >= r,
            decreases radius + 1 - r,
        {
            let mut best: Option<(i64, Tile)> = None;
            let mut dy: i32 = -r;
            while dy <= r
                invariant
                    self.wf(),
                    want is Some ==> !self.is_dirty(),
                    0 <= r <= radius,
                    radius < i32::MAX,
                    i32::MIN <= x - radius && x + radius <= i32::MAX,
                    i32::MIN <= y - radius && y + radius <= i32::MAX,
                    -r <= dy <= r + 1,
                    forall|tx: int, ty: int| #[trigger] self.fits(want, tx, ty) ==> cheb(tx - x, ty - y) >= r,
                    best is None ==> forall|tx: int, ty: int| #[trigger] self.fits(want, tx, ty) && cheb(tx - x, ty - y) == r
                        && ty - y < dy ==> false,
                    best matches Some((bd, t)) ==> self.ring_best(want, x as int, y as int, r as int, dy as int, -r as int, bd as int, t),
                decreases r + 1 - dy,
            {
                let mut dx: i32 = -r;
                while dx <= r
                    invariant
                        self.wf(),
                        want is Some ==> !self.is_dirty(),
                        0 <= r <= radius,
                        radius < i32::MAX,
                        i32::MIN <= x - radius && x + radius <= i32::MAX,
                        i32::MIN <= y - radius && y + radius <= i32::MAX,
                        -r <= dy <= r,
                        -r <= dx <= r + 1,
                        forall|tx: int, ty: int| #[trigger] self.fits(want, tx, ty) ==> cheb(tx - x, ty - y) >= r,
                        best is None ==> forall|tx: int, ty: int| #[trigger] self.fits(want, tx, ty) && cheb(tx - x, ty - y) == r
                            && scan_before(ty - y, tx - x, dy as int, dx as int) ==> false,
                        best matches Some((bd, t)) ==> self.ring_best(want, x as int, y as int, r as int, dy as int, dx as int, bd as int, t),
                    decreases r + 1 - dx,
                {
                    let ax = if dx < 0 { -dx } else { dx };
                    let ay = if dy < 0 { -dy } else { dy };
                    let m = if ax < ay { ay } else { ax };
                    if m == r {
                        let tx = x + dx;
                        let ty = y + dy;
                        if self.fits_at(tx, ty, want) {
                            proof {
                                assert((dx as int) * (dx as int) <= 0x3fff_ffff_0000_0001 && (dy as int) * (dy as int) <= 0x3fff_ffff_0000_0001) by (nonlinear_arith)
                                    requires -0x7fff_ffff <= dx <= 0x7fff_ffff, -0x7fff_ffff <= dy <= 0x7fff_ffff;
                                assert(0 <= (dx as int) * (dx as int) && 0 <= (dy as int) * (dy as int)) by (nonlinear_arith);
                            }
                            let d = (dx as i64) * (dx as i64) + (dy as i64) * (dy as i64);
                            let better = match best {
                                None => true,
                                Some((bd, _)) => d < bd,
                            };
                            if better {
                                best = Some((d, (tx, ty)));
                            }
                        }
                    }
                    dx = dx + 1;
                }
                dy = dy + 1;
            }
            match best {
                Some((_, t)) => {
                    proof {
                        if from is Some && self.tile_open(from->0) && self.gw() * self.gh() <= 65535 {
                            self.lemma_labels_are_components(from->0, t);
                        }
                    }
                    return Some(t);
                },
                None => {},
            }
            r = r + 1;
        }
        None
    }

    /// `t` at squared distance `bd` is the best fitting tile on ring `r`
    /// among those scanned before `(dy, dx)`: nearest, then first.
    pub open spec fn ring_best(&self, want: Option<u16>, x: int, y: int, r: int, dy: int, dx: int, bd: int, t: Tile) -> bool {
        let (tx, ty) = (t.0 as int, t.1 as int);
        &&& self.fits(want, tx, ty)
        &&& cheb(tx - x, ty - y) == r
        &&& scan_before(ty - y, tx - x, dy, dx)
        &&& bd == (tx - x) * (tx - x) + (ty - y) * (ty - y)
        &&& forall|ux: int, uy: int| #[trigger] self.fits(want, ux, uy) && cheb(ux - x, uy - y) == r
            && scan_before(uy - y, ux - x, dy, dx) ==> {
                let du = (ux - x) * (ux - x) + (uy - y) * (uy - y);
                &&& bd <= du
                &&& bd == du ==> !scan_before(uy - y, ux - x, ty - y, tx - x)
            }
    }
}

/// Squared distance of an offset.
pub open spec fn dist2(dx: int, dy: int) -> int {
    dx * dx + dy * dy
}

/// Spread order around `(x, y)`: by ring, then squared distance, then
/// column, then row.
pub open spec fn spread_lt(x: int, y: int, a: Tile, b: Tile) -> bool {
    let (ra, rb) = (cheb(a.0 - x, a.1 - y), cheb(b.0 - x, b.1 - y));
    let (da, db) = (dist2(a.0 - x, a.1 - y), dist2(b.0 - x, b.1 - y));
    ra < rb || (ra == rb && (da < db || (da == db && (a.0 < b.0 || (a.0 == b.0 && a.1 < b.1)))))
}

/// Ring entries ordered by squared distance, then column, then row.
pub open spec fn entry_before(a: (i64, Tile), b: (i64, Tile)) -> bool {
    a.0 < b.0 || (a.0 == b.0 && (a.1.0 < b.1.0 || (a.1.0 == b.1.0 && a.1.1 < b.1.1)))
}

/// Inserts `e` into a ring list kept in ascending order.
fn insert_entry(ring: &mut Vec<(i64, Tile)>, e: (i64, Tile))
    requires
        forall|a: int, b: int| 0 <= a < b < old(ring)@.len() ==> entry_before(#[trigger] old(ring)@[a], #[trigger] old(ring)@[b]),
        forall|k: int| 0 <= k < old(ring)@.len() ==> entry_before(#[trigger] old(ring)@[k], e) || entry_before(e, old(ring)@[k]),
    ensures
        forall|a: int, b: int| 0 <= a < b < final(ring)@.len() ==> entry_before(#[trigger] final(ring)@[a], #[trigger] final(ring)@[b]),
        final(ring)@.len() == old(ring)@.len() + 1,
        forall|v: (i64, Tile)| #[trigger] final(ring)@.contains(v) <==> (old(ring)@.contains(v) || v == e),
{
    let mut at: usize = 0;
    while at < ring.len() && (ring[at].0 < e.0 || (ring[at].0 == e.0 && (ring[at].1.0 < e.1.0
        || (ring[at].1.0 == e.1.0 && ring[at].1.1 < e.1.1))))
        invariant
            at <= ring@.len(),
            forall|k: int| 0 <= k < at ==> entry_before(#[trigger] ring@[k], e),
        decreases ring.len() - at,
    {
        at = at + 1;
    }
    let ghost r0 = ring@;
    ring.insert(at, e);
    proof {
        let r1 = ring@;
        assert forall|k: int| at <= k < r0.len() implies entry_before(e, #[trigger] r0[k]) by {
            assert(!entry_before(r0[at as int], e));
            if k > at {
                assert(entry_before(r0[at as int], r0[k]));
            }
        }
        assert forall|a: int, b: int| 0 <= a < b < r1.len() implies entry_before(#[trigger] r1[a], #[trigger] r1[b]) by {
            if b < at {
            } else if b == at {
            } else if a < at {
                assert(r1[b] == r0[b - 1]);
            } else if a == at {
                assert(r1[b] == r0[b - 1]);
            } else {
                assert(r1[a] == r0[a - 1]);
                assert(r1[b] == r0[b - 1]);
            }
        }
        assert forall|v: (i64, Tile)| #[trigger] r1.contains(v) <==> (r0.contains(v) || v == e) by {
            if r1.contains(v) {
                let k = choose|k: int| 0 <= k < r1.len() && r1[k] == v;
                if k < at {
                    assert(r0[k] == v);
                } else if k > at {
                    assert(r0[k - 1] == v);
                }
            }
            if r0.contains(v) {
                let k = choose|k: int| 0 <= k < r0.len() && r0[k] == v;
                if k < at {
                    assert(r1[k] == v);
                } else {
                    assert(r1[k + 1] == v);
                }
            }
            if v == e {
                assert(r1[at as int] == v);
            }
        }
    }
}

impl NavGrid {
    /// Up to `n` distinct tiles near `(x, y)` that fit (same component as
    /// `from` if given), taken in spread order over the rings closer than
    /// 24: exactly the first `n` of them, or all if there are fewer.
    #[verifier::rlimit(100)]
    pub fn spread(&self, x: i32, y: i32, n: usize, from: Option<Tile>) -> (r: Vec<Tile>)
        requires
            self.wf(),
            from is Some ==> !self.is_dirty(),
            i32::MIN + 24 <= x <= i32::MAX - 24,
            i32::MIN + 24 <= y <= i32::MAX - 24,
        ensures
            r@.len() <= n,
            forall|k: int| 0 <= k < r@.len() ==> self.fits(self.wanted(from), (#[trigger] r@[k]).0 as int, r@[k].1 as int)
                && cheb(r@[k].0 - x, r@[k].1 - y) < 24,
            forall|a: int, b: int| 0 <= a < b < r@.len() ==> spread_lt(x as int, y as int, #[trigger] r@[a], #[trigger] r@[b]),
            forall|u: Tile| #[trigger] self.fits(self.wanted(from), u.0 as int, u.1 as int) && cheb(u.0 - x, u.1 - y) < 24
                ==> r@.contains(u) || (r@.len() == n && (n > 0 ==> spread_lt(x as int, y as int, r@.last(), u))),
    {
        let want: Option<u16> = match from {
            None => None,
            Some(f) => Some(self.component(f.0, f.1)),
        };
        let mut out: Vec<Tile> = Vec::new();
        let mut r: i32 = 0;
        while out.len() < n && r < 24
            invariant
                self.wf(),
                want is Some ==> !self.is_dirty(),
                want == self.wanted(from),
                i32::MIN + 24 <= x <= i32::MAX - 24,
                i32::MIN + 24 <= y <= i32::MAX - 24,
                0 <= r <= 24,
                out@.len() <= n,
                forall|k: int| 0 <= k < out@.len() ==> self.fits(want, (#[trigger] out@[k]).0 as int, out@[k].1 as int)
                    && cheb(out@[k].0 - x, out@[k].1 - y) < r,
                forall|a: int, b: int| 0 <= a < b < out@.len() ==> spread_lt(x as int, y as int, #[trigger] out@[a], #[trigger] out@[b]),
                forall|u: Tile| #[trigger] self.fits(want, u.0 as int, u.1 as int) && cheb(u.0 - x, u.1 - y) < r
                    ==> out@.contains(u) || (out@.len() == n && (n > 0 ==> spread_lt(x as int, y as int, out@.last(), u))),
            decreases 24 - r,
        {
            let mut ring: Vec<(i64, Tile)> = Vec::new();
            let mut dy: i32 = -r;
            while dy <= r
                invariant
                    self.wf(),
                    want is Some ==> !self.is_dirty(),
                    i32::MIN + 24 <= x <= i32::MAX - 24,
                    i32::MIN + 24 <= y <= i32::MAX - 24,
                    0 <= r < 24,
                    -r <= dy <= r + 1,
                    self.ring_list(ring@, want, x as int, y as int, r as int, dy as int, -r as int),
                decreases r + 1 - dy,
            {
                let mut dx: i32 = -r;
                while dx <= r
                    invariant
                        self.wf(),
                        want is Some ==> !self.is_dirty(),
                        i32::MIN + 24 <= x <= i32::MAX - 24,
                        i32::MIN + 24 <= y <= i32::MAX - 24,
                        0 <= r < 24,
                        -r <= dy <= r,
                        -r <= dx <= r + 1,
                        self.ring_list(ring@, want, x as int, y as int, r as int, dy as int, dx as int),
                    decreases r + 1 - dx,
                {
                    let ax = if dx < 0 { -dx } else { dx };
                    let ay = if dy < 0 { -dy } else { dy };
                    let m = if ax < ay { ay } else { ax };
                    let ghost r0 = ring@;
                    if m == r && self.fits_at(x + dx, y + dy, want) {
                        proof {
                            assert(0 <= (dx as int) * (dx as int) <= 576 && 0 <= (dy as int) * (dy as int) <= 576) by (nonlinear_arith)
                                requires -24 <= dx <= 24, -24 <= dy <= 24;
                        }
                        let e = ((dx as i64) * (dx as i64) + (dy as i64) * (dy as i64), (x + dx, y + dy));
                        proof {
                            assert forall|k: int| 0 <= k < r0.len() implies entry_before(#[trigger] r0[k], e) || entry_before(e, r0[k]) by {
                                assert(scan_before(r0[k].1.1 - y, r0[k].1.0 - x, dy as int, dx as int));
                            }
                        }
                        insert_entry(&mut ring, e);
                        proof {
                            self.lemma_ring_list_step(r0, ring@, want, x as int, y as int, r as int, dy as int, dx as int, e);
                        }
                    } else {
                        proof {
                            self.lemma_ring_list_skip(ring@, want, x as int, y as int, r as int, dy as int, dx as int);
                        }
                    }
                    dx = dx + 1;
                }
                proof {
                    self.lemma_ring_list_row(ring@, want, x as int, y as int, r as int, dy as int);
                }
                dy = dy + 1;
            }
            let ghost o0 = out@;
            let mut k: usize = 0;
            while k < ring.len() && out.len() < n
                invariant
                    k <= ring@.len(),
                    out@ == o0 + ring@.take(k as int).map_values(|e: (i64, Tile)| e.1),
                    out@.len() <= n,
                decreases ring.len() - k,
            {
                out.push(ring[k].1);
                proof {
                    assert(ring@.take(k + 1).map_values(|e: (i64, Tile)| e.1) =~= ring@.take(k as int).map_values(|e: (i64, Tile)| e.1).push(ring@[k as int].1));
                }
                k = k + 1;
            }
            proof {
                self.lemma_spread_round(o0, out@, ring@, k as int, n as int, want, x as int, y as int, r as int);
            }
            r = r + 1;
        }
        proof {
            assert forall|u: Tile| #[trigger] self.fits(want, u.0 as int, u.1 as int) && cheb(u.0 - x, u.1 - y) < 24
                implies out@.contains(u) || (out@.len() == n && (n > 0 ==> spread_lt(x as int, y as int, out@.last(), u))) by {
                if cheb(u.0 - x, u.1 - y) >= r {
                    assert(out@.len() == n);
                    if n > 0 {
                        assert(cheb(out@.last().0 - x, out@.last().1 - y) < r);
                    }
                }
            }
        }
        out
    }

    /// `ring` holds, in entry order, exactly the fitting tiles of ring `r`
    /// scanned before `(dy, dx)`, each with its squared distance.
    pub open spec fn ring_list(&self, ring: Seq<(i64, Tile)>, want: Option<u16>, x: int, y: int, r: int, dy: int, dx: int) -> bool {
        &&& forall|a: int, b: int| 0 <= a < b < ring.len() ==> entry_before(#[trigger] ring[a], #[trigger] ring[b])
        &&& forall|k: int| 0 <= k < ring.len() ==> {
            let t = (#[trigger] ring[k]).1;
            &&& self.fits(want, t.0 as int, t.1 as int)
            &&& cheb(t.0 - x, t.1 - y) == r
            &&& scan_before(t.1 - y, t.0 - x, dy, dx)
            &&& ring[k].0 == dist2(t.0 - x, t.1 - y)
        }
        &&& forall|u: Tile| #[trigger] self.fits(want, u.0 as int, u.1 as int) && cheb(u.0 - x, u.1 - y) == r
            && scan_before(u.1 - y, u.0 - x, dy, dx) ==> ring.contains((dist2(u.0 - x, u.1 - y) as i64, u))
    }

    proof fn lemma_ring_list_step(&self, r0: Seq<(i64, Tile)>, r1: Seq<(i64, Tile)>, want: Option<u16>, x: int, y: int, r: int, dy: int, dx: int, e: (i64, Tile))
        requires
            self.ring_list(r0, want, x, y, r, dy, dx),
            -24 <= dx <= 24,
            -24 <= dy <= 24,
            e.1.0 == x + dx,
            e.1.1 == y + dy,
            e.0 == dist2(dx, dy),
            cheb(dx, dy) == r,
            self.fits(want, x + dx, y + dy),
            forall|a: int, b: int| 0 <= a < b < r1.len() ==> entry_before(#[trigger] r1[a], #[trigger] r1[b]),
            forall|v: (i64, Tile)| #[trigger] r1.contains(v) <==> (r0.contains(v) || v == e),
        ensures
            self.ring_list(r1, want, x, y, r, dy, dx + 1),
    {
        assert forall|k: int| 0 <= k < r1.len() implies {
            let t = (#[trigger] r1[k]).1;
            &&& self.fits(want, t.0 as int, t.1 as int)
            &&& cheb(t.0 - x, t.1 - y) == r
            &&& scan_before(t.1 - y, t.0 - x, dy, dx + 1)
            &&& r1[k].0 == dist2(t.0 - x, t.1 - y)
        } by {
            assert(r1.contains(r1[k]));
            if r1[k] != e {
                let j = choose|j: int| 0 <= j < r0.len() && r0[j] == r1[k];
                assert(r0[j] == r1[k]);
            }
        }
        assert forall|u: Tile| #[trigger] self.fits(want, u.0 as int, u.1 as int) && cheb(u.0 - x, u.1 - y) == r
            && scan_before(u.1 - y, u.0 - x, dy, dx + 1) implies r1.contains((dist2(u.0 - x, u.1 - y) as i64, u)) by {
            if u.1 - y == dy && u.0 - x == dx {
                assert((dist2(u.0 - x, u.1 - y) as i64, u) == e);
            } else {
                assert(r0.contains((dist2(u.0 - x, u.1 - y) as i64, u)));
            }
        }
    }

    proof fn lemma_ring_list_skip(&self, ring: Seq<(i64, Tile)>, want: Option<u16>, x: int, y: int, r: int, dy: int, dx: int)
        requires
            self.ring_list(ring, want, x, y, r, dy, dx),
            !(cheb(dx, dy) == r && self.fits(want, x + dx, y + dy)),
        ensures
            self.ring_list(ring, want, x, y, r, dy, dx + 1),
    {
        assert forall|u: Tile| #[trigger] self.fits(want, u.0 as int, u.1 as int) && cheb(u.0 - x, u.1 - y) == r
            && scan_before(u.1 - y, u.0 - x, dy, dx + 1) implies ring.contains((dist2(u.0 - x, u.1 - y) as i64, u)) by {
            if u.1 - y == dy && u.0 - x == dx {
            }
        }
    }

    proof fn lemma_ring_list_row(&self, ring: Seq<(i64, Tile)>, want: Option<u16>, x: int, y: int, r: int, dy: int)
        requires
            self.ring_list(ring, want, x, y, r, dy, r + 1),
            0 <= r,
        ensures
            self.ring_list(ring, want, x, y, r, dy + 1, -r),
    {
        assert forall|u: Tile| #[trigger] self.fits(want, u.0 as int, u.1 as int) && cheb(u.0 - x, u.1 - y) == r
            && scan_before(u.1 - y, u.0 - x, dy + 1, -r) implies ring.contains((dist2(u.0 - x, u.1 - y) as i64, u)) by {
            assert(scan_before(u.1 - y, u.0 - x, dy, r + 1));
        }
    }

    proof fn lemma_spread_round(&self, o0: Seq<Tile>, o1: Seq<Tile>, ring: Seq<(i64, Tile)>, k: int, n: int, want: Option<u16>, x: int, y: int, r: int)
        requires
            0 <= r < 24,
            o0.len() < n,
            0 <= k <= ring.len(),
            o1 == o0 + ring.take(k).map_values(|e: (i64, Tile)| e.1),
            o1.len() <= n,
            k < ring.len() ==> o1.len() == n,
            self.ring_list(ring, want, x, y, r, r + 1, -r),
            forall|j: int| 0 <= j < o0.len() ==> self.fits(want, (#[trigger] o0[j]).0 as int, o0[j].1 as int)
                && cheb(o0[j].0 - x, o0[j].1 - y) < r,
            forall|a: int, b: int| 0 <= a < b < o0.len() ==> spread_lt(x, y, #[trigger] o0[a], #[trigger] o0[b]),
            forall|u: Tile| #[trigger] self.fits(want, u.0 as int, u.1 as int) && cheb(u.0 - x, u.1 - y) < r
                ==> o0.contains(u),
        ensures
            forall|j: int| 0 <= j < o1.len() ==> self.fits(want, (#[trigger] o1[j]).0 as int, o1[j].1 as int)
                && cheb(o1[j].0 - x, o1[j].1 - y) < r + 1,
            forall|a: int, b: int| 0 <= a < b < o1.len() ==> spread_lt(x, y, #[trigger] o1[a], #[trigger] o1[b]),
            forall|u: Tile| #[trigger] self.fits(want, u.0 as int, u.1 as int) && cheb(u.0 - x, u.1 - y) < r + 1
                ==> o1.contains(u) || (o1.len() == n && (n > 0 ==> spread_lt(x, y, o1.last(), u))),
    {
        let m = o0.len();
        assert forall|j: int| 0 <= j < o1.len() implies self.fits(want, (#[trigger] o1[j]).0 as int, o1[j].1 as int)
            && cheb(o1[j].0 - x, o1[j].1 - y) < r + 1 by {
            if j >= m {
                assert(o1[j] == ring[j - m].1);
            }
        }
        assert forall|a: int, b: int| 0 <= a < b < o1.len() implies spread_lt(x, y, #[trigger] o1[a], #[trigger] o1[b]) by {
            if b >= m {
                assert(o1[b] == ring[b - m].1);
                if a >= m {
                    assert(o1[a] == ring[a - m].1);
                    assert(entry_before(ring[a - m], ring[b - m]));
                }
            }
        }
        assert forall|u: Tile| #[trigger] self.fits(want, u.0 as int, u.1 as int) && cheb(u.0 - x, u.1 - y) < r + 1
            implies o1.contains(u) || (o1.len() == n && (n > 0 ==> spread_lt(x, y, o1.last(), u))) by {
            if cheb(u.0 - x, u.1 - y) < r {
                let j = choose|j: int| 0 <= j < o0.len() && o0[j] == u;
                assert(o1[j] == u);
            } else {
                assert(scan_before(u.1 - y, u.0 - x, r + 1, -r));
                let e = (dist2(u.0 - x, u.1 - y) as i64, u);
                assert(ring.contains(e));
                let i = choose|i: int| 0 <= i < ring.len() && ring[i] == e;
                if i < k {
                    assert(o1[m + i] == u);
                } else {
                    assert(o1.len() == n);
                    if k > 0 {
                        assert(o1.last() == ring[k - 1].1);
                        assert(entry_before(ring[k - 1], ring[i]));
                    } else {
                        assert(o1 =~= o0);
                        assert(o0.len() == n);
                    }
                }
            }
        }
    }
}

} // verus!
