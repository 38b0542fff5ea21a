//! The tile map: terrain per tile, elevation per tile *corner*.
//!
//! Elevation lives on corners (a `(w+1) × (h+1)` grid) rather than tiles so
//! the isometric terrain can deform smoothly. A tile's gameplay elevation is
//! the rounded mean of its four corners. Neighbouring corners never differ by
//! more than one level; the map generator enforces that with
//! [`TileMap::enforce_max_step`], and [`TileMap::validate`] checks it.

use vstd::prelude::*;
use crate::hash::{HashState, StateHasher, fnv, le16, lemma_fnv_append};

verus! {

/// Highest elevation level.
pub const MAX_ELEVATION: u8 = 3;

/// Two adjacent corner coordinates, as reported by [`TileMap::validate`].
pub type CornerPair = ((i32, i32), (i32, i32));

/// Ground type of a tile.
#[derive(Clone, Copy, PartialEq, Eq, Structural, Hash, Debug, Default)]
pub enum Terrain {
    /// Temperate grassland, the default.
    #[default]
    Grass,
    /// Bare earth.
    Dirt,
    /// Arid sand.
    Desert,
    /// Beach sand next to water.
    Sand,
    /// Wadeable water.
    ShallowWater,
    /// Open water; boats only.
    DeepWater,
    /// Ground under a forest canopy.
    ForestFloor,
    /// Snow-covered ground.
    Snow,
}

/// A terrain's code, 0 to 7.
pub open spec fn terrain_code(t: Terrain) -> u8 {
    match t {
        Terrain::Grass => 0,
        Terrain::Dirt => 1,
        Terrain::Desert => 2,
        Terrain::Sand => 3,
        Terrain::ShallowWater => 4,
        Terrain::DeepWater => 5,
        Terrain::ForestFloor => 6,
        Terrain::Snow => 7,
    }
}

/// Water of any depth.
pub open spec fn is_water_spec(t: Terrain) -> bool {
    t == Terrain::ShallowWater || t == Terrain::DeepWater
}

impl Terrain {
    /// Every terrain, in code order.
    #[allow(non_snake_case)]
    pub fn ALL() -> (r: [Terrain; 8])
        ensures
            forall|i: int| 0 <= i < 8 ==> terrain_code(#[trigger] r@[i]) == i,
    {
        [
            Terrain::Grass,
            Terrain::Dirt,
            Terrain::Desert,
            Terrain::Sand,
            Terrain::ShallowWater,
            Terrain::DeepWater,
            Terrain::ForestFloor,
            Terrain::Snow,
        ]
    }

    /// The code of this terrain.
    pub fn code(self) -> (r: u8)
        ensures
            r == terrain_code(self),
    {
        match self {
            Terrain::Grass => 0,
            Terrain::Dirt => 1,
            Terrain::Desert => 2,
            Terrain::Sand => 3,
            Terrain::ShallowWater => 4,
            Terrain::DeepWater => 5,
            Terrain::ForestFloor => 6,
            Terrain::Snow => 7,
        }
    }

    /// From the code; unknown values become grass.
    pub fn from_u8(v: u8) -> (r: Terrain)
        ensures
            v < 8 ==> terrain_code(r) == v,
            v >= 8 ==> r == Terrain::Grass,
    {
        match v {
            1 => Terrain::Dirt,
            2 => Terrain::Desert,
            3 => Terrain::Sand,
            4 => Terrain::ShallowWater,
            5 => Terrain::DeepWater,
            6 => Terrain::ForestFloor,
            7 => Terrain::Snow,
            _ => Terrain::Grass,
        }
    }

    /// Whether land units can stand on it.
    pub fn walkable(self) -> (r: bool)
        ensures
            r == !is_water_spec(self),
    {
        !self.is_water()
    }

    /// Whether it is water of any depth.
    pub fn is_water(self) -> (r: bool)
        ensures
            r == is_water_spec(self),
    {
        match self {
            Terrain::ShallowWater | Terrain::DeepWater => true,
            _ => false,
        }
    }
}

/// Terrain and elevation for a rectangular map.
#[derive(Clone, PartialEq, Eq, Debug)]
pub struct TileMap {
    width: u16,
    height: u16,
    terrain: Vec<Terrain>,
    /// Corner heights, `(width + 1) * (height + 1)`, row-major.
    corners: Vec<u8>,
}

/// The larger of two corner heights minus the smaller.
pub open spec fn gap(a: int, b: int) -> int {
    if a >= b { a - b } else { b - a }
}

impl TileMap {
    /// Width in tiles.
    pub closed spec fn w(&self) -> int {
        self.width as int
    }

    /// Height in tiles.
    pub closed spec fn h(&self) -> int {
        self.height as int
    }

    /// Tiles, row-major.
    pub closed spec fn tiles(&self) -> Seq<Terrain> {
        self.terrain@
    }

    /// Corner heights, row-major over `(w + 1) × (h + 1)`.
    pub closed spec fn heights(&self) -> Seq<u8> {
        self.corners@
    }

    /// The vectors have the sizes the dimensions give, and every corner is
    /// at most [`MAX_ELEVATION`].
    pub open spec fn wf(&self) -> bool {
        &&& self.tiles().len() == self.w() * self.h()
        &&& self.heights().len() == (self.w() + 1) * (self.h() + 1)
        &&& (self.w() + 1) * (self.h() + 1) <= usize::MAX
        &&& forall|i: int| 0 <= i < self.heights().len() ==> #[trigger] self.heights()[i] <= MAX_ELEVATION
    }

    /// The tile `(x, y)` exists.
    pub open spec fn in_map(&self, x: int, y: int) -> bool {
        0 <= x < self.w() && 0 <= y < self.h()
    }

    /// Terrain of an in-bounds tile.
    pub open spec fn tile_at(&self, x: int, y: int) -> Terrain {
        self.tiles()[y * self.w() + x]
    }

    /// Height of an existing corner.
    pub open spec fn corner_at(&self, cx: int, cy: int) -> int {
        self.heights()[cy * (self.w() + 1) + cx] as int
    }

    /// Height of any corner, clamped to the nearest edge corner.
    pub open spec fn corner_clamped(&self, cx: int, cy: int) -> int {
        let x = if cx < 0 { 0 } else if cx > self.w() { self.w() } else { cx };
        let y = if cy < 0 { 0 } else if cy > self.h() { self.h() } else { cy };
        self.corner_at(x, y)
    }

    /// The corner `(cx, cy)` exists.
    pub open spec fn is_corner(&self, cx: int, cy: int) -> bool {
        0 <= cx <= self.w() && 0 <= cy <= self.h()
    }

    /// The corner and its right neighbour differ by more than one level.
    pub open spec fn bad_right(&self, cx: int, cy: int) -> bool {
        cx < self.w() && gap(self.corner_at(cx, cy), self.corner_at(cx + 1, cy)) > 1
    }

    /// The corner and the one below it differ by more than one level.
    pub open spec fn bad_down(&self, cx: int, cy: int) -> bool {
        cy < self.h() && gap(self.corner_at(cx, cy), self.corner_at(cx, cy + 1)) > 1
    }

    /// No two neighbouring corners differ by more than one level.
    pub open spec fn smooth(&self) -> bool {
        forall|cx: int, cy: int|
            #![trigger self.corner_at(cx, cy)]
            self.is_corner(cx, cy) ==> !self.bad_right(cx, cy) && !self.bad_down(cx, cy)
    }

    /// The corners before `(cx, cy)` in row-major order, the checks
    /// [`TileMap::validate`] makes, all pass.
    pub open spec fn smooth_before(&self, cx: int, cy: int) -> bool {
        forall|x: int, y: int|
            #![trigger self.corner_at(x, y)]
            self.is_corner(x, y) && (y < cy || (y == cy && x < cx)) ==> !self.bad_right(x, y)
                && !self.bad_down(x, y)
    }

    /// A flat grass map.
    pub fn new(width: u16, height: u16) -> (r: TileMap)
        requires
            (width + 1) * (height + 1) <= usize::MAX,
        ensures
            r.wf(),
            r.w() == width,
            r.h() == height,
            forall|i: int| 0 <= i < r.tiles().len() ==> #[trigger] r.tiles()[i] == Terrain::Grass,
            forall|i: int| 0 <= i < r.heights().len() ==> #[trigger] r.heights()[i] == 0,
    {
        let w = width as usize;
        let h = height as usize;
        proof {
            assert(w * h <= 0xffff * 0xffff) by (nonlinear_arith)
                requires w <= 0xffff, h <= 0xffff;
            assert((w + 1) * (h + 1) <= 0x1_0000 * 0x1_0000) by (nonlinear_arith)
                requires w <= 0xffff, h <= 0xffff;
        }
        let n = w * h;
        let m = (w + 1) * (h + 1);
        let mut terrain: Vec<Terrain> = Vec::new();
        let mut i: usize = 0;
        while i < n
            invariant
                i <= n,
                terrain@.len() == i,
                forall|j: int| 0 <= j < i ==> #[trigger] terrain@[j] == Terrain::Grass,
            decreases n - i,
        {
            terrain.push(Terrain::Grass);
            i = i + 1;
        }
        let mut corners: Vec<u8> = Vec::new();
        let mut k: usize = 0;
        while k < m
            invariant
                k <= m,
                corners@.len() == k,
                forall|j: int| 0 <= j < k ==> #[trigger] corners@[j] == 0,
            decreases m - k,
        {
            corners.push(0);
            k = k + 1;
        }
        TileMap { width, height, terrain, corners }
    }

    /// The dimensions are those of a `u16` map.
    pub proof fn lemma_dims(&self)
        ensures
            0 <= self.w() <= 65535,
            0 <= self.h() <= 65535,
    {
    }

    /// A map whose corners are all at level 0 is smooth.
    pub proof fn lemma_flat_is_smooth(&self)
        requires
            self.wf(),
            forall|i: int| 0 <= i < self.heights().len() ==> #[trigger] self.heights()[i] == 0,
        ensures
            self.smooth(),
    {
        let w = self.w();
        let h = self.h();
        assert forall|cx: int, cy: int| #![trigger self.corner_at(cx, cy)] self.is_corner(cx, cy) implies !self.bad_right(
            cx,
            cy,
        ) && !self.bad_down(cx, cy) by {
            assert(0 <= cy * (w + 1) + cx < (w + 1) * (h + 1)) by (nonlinear_arith)
                requires 0 <= cx <= w, 0 <= cy <= h;
            if cx < w {
                assert(0 <= cy * (w + 1) + cx + 1 < (w + 1) * (h + 1)) by (nonlinear_arith)
                    requires 0 <= cx < w, 0 <= cy <= h;
            }
            if cy < h {
                assert(0 <= (cy + 1) * (w + 1) + cx < (w + 1) * (h + 1)) by (nonlinear_arith)
                    requires 0 <= cx <= w, 0 <= cy < h;
            }
        }
    }

    /// Width in tiles.
    pub fn width(&self) -> (r: i32)
        ensures
            r == self.w(),
    {
        self.width as i32
    }

    /// Height in tiles.
    pub fn height(&self) -> (r: i32)
        ensures
            r == self.h(),
    {
        self.height as i32
    }

    /// True if `(x, y)` is a tile on the map.
    pub fn in_bounds(&self, x: i32, y: i32) -> (r: bool)
        ensures
            r == self.in_map(x as int, y as int),
    {
        x >= 0 && y >= 0 && x < self.width as i32 && y < self.height as i32
    }

    fn tile_index(&self, x: i32, y: i32) -> (r: usize)
        requires
            self.wf(),
            self.in_map(x as int, y as int),
        ensures
            r == y * self.w() + x,
            r < self.tiles().len(),
    {
        proof {
            assert(y * self.w() + x < self.w() * self.h()) by (nonlinear_arith)
                requires 0 <= x < self.w(), 0 <= y < self.h();
            assert(self.w() * self.h() <= (self.w() + 1) * (self.h() + 1)) by (nonlinear_arith)
                requires 0 <= self.w(), 0 <= self.h();
            assert(0 <= y * self.w()) by (nonlinear_arith)
                requires 0 <= y, 0 <= self.w();
        }
        y as usize * self.width as usize + x as usize
    }

    fn corner_index(&self, cx: i32, cy: i32) -> (r: usize)
        requires
            self.wf(),
            self.is_corner(cx as int, cy as int),
        ensures
            r == cy * (self.w() + 1) + cx,
            r < self.heights().len(),
    {
        proof {
            assert(cy * (self.w() + 1) + cx < (self.w() + 1) * (self.h() + 1)) by (nonlinear_arith)
                requires 0 <= cx <= self.w(), 0 <= cy <= self.h();
            assert(0 <= cy * (self.w() + 1)) by (nonlinear_arith)
                requires 0 <= cy, 0 <= self.w();
        }
        cy as usize * (self.width as usize + 1) + cx as usize
    }

    /// Terrain of a tile. Out-of-bounds reads as deep water, so the map edge
    /// behaves like a coast for anything that asks.
    pub fn terrain(&self, x: i32, y: i32) -> (r: Terrain)
        requires
            self.wf(),
        ensures
            self.in_map(x as int, y as int) ==> r == self.tile_at(x as int, y as int),
            !self.in_map(x as int, y as int) ==> r == Terrain::DeepWater,
    {
        if self.in_bounds(x, y) {
            self.terrain[self.tile_index(x, y)]
        } else {
            Terrain::DeepWater
        }
    }

    /// Sets a tile's terrain. Out-of-bounds writes are ignored.
    pub fn set_terrain(&mut self, x: i32, y: i32, t: Terrain)
        requires
            old(self).wf(),
        ensures
            final(self).wf(),
            final(self).w() == old(self).w(),
            final(self).h() == old(self).h(),
            final(self).heights() == old(self).heights(),
            old(self).in_map(x as int, y as int) ==> final(self).tiles() == old(self).tiles().update(
                y * old(self).w() + x,
                t,
            ),
            !old(self).in_map(x as int, y as int) ==> final(self).tiles() == old(self).tiles(),
    {
        if self.in_bounds(x, y) {
            let i = self.tile_index(x, y);
            self.terrain.set(i, t);
        }
    }

    /// Height of a corner; corners run `0..=width` and `0..=height`.
    /// Out of range clamps to the nearest edge corner.
    pub fn corner(&self, cx: i32, cy: i32) -> (r: u8)
        requires
            self.wf(),
        ensures
            r == self.corner_clamped(cx as int, cy as int),
    {
        let w = self.width as i32;
        let h = self.height as i32;
        let cx = if cx < 0 { 0 } else if cx > w { w } else { cx };
        let cy = if cy < 0 { 0 } else if cy > h { h } else { cy };
        self.corners[self.corner_index(cx, cy)]
    }

    /// Sets a corner height, clamped to [`MAX_ELEVATION`]. Out of range ignored.
    pub fn set_corner(&mut self, cx: i32, cy: i32, h: u8)
        requires
            old(self).wf(),
        ensures
            final(self).wf(),
            final(self).w() == old(self).w(),
            final(self).h() == old(self).h(),
            final(self).tiles() == old(self).tiles(),
            old(self).is_corner(cx as int, cy as int) ==> final(self).heights()
                == old(self).heights().update(
                cy * (old(self).w() + 1) + cx,
                if h > MAX_ELEVATION { MAX_ELEVATION } else { h },
            ),
            !old(self).is_corner(cx as int, cy as int) ==> final(self).heights()
                == old(self).heights(),
    {
        if cx >= 0 && cy >= 0 && cx <= self.width as i32 && cy <= self.height as i32 {
            let i = self.corner_index(cx, cy);
            let v = if h > MAX_ELEVATION { MAX_ELEVATION } else { h };
            self.corners.set(i, v);
        }
    }

    /// The four corner heights of a tile: `[nw, ne, se, sw]` in corner-grid
    /// terms, i.e. `(x,y) (x+1,y) (x+1,y+1) (x,y+1)`, each clamped.
    pub fn tile_corners(&self, x: i32, y: i32) -> (r: [u8; 4])
        requires
            self.wf(),
            x < i32::MAX,
            y < i32::MAX,
        ensures
            r@ == seq![
                self.corner_clamped(x as int, y as int) as u8,
                self.corner_clamped(x + 1, y as int) as u8,
                self.corner_clamped(x + 1, y + 1) as u8,
                self.corner_clamped(x as int, y + 1) as u8,
            ],
    {
        let r = [self.corner(x, y), self.corner(x + 1, y), self.corner(x + 1, y + 1), self.corner(x, y + 1)];
        assert(r@ =~= seq![
            self.corner_clamped(x as int, y as int) as u8,
            self.corner_clamped(x + 1, y as int) as u8,
            self.corner_clamped(x + 1, y + 1) as u8,
            self.corner_clamped(x as int, y + 1) as u8,
        ]);
        r
    }

    /// Gameplay elevation of a tile: rounded mean of its corners.
    pub fn elevation(&self, x: i32, y: i32) -> (r: u8)
        requires
            self.wf(),
            x < i32::MAX,
            y < i32::MAX,
        ensures
            r as int == (self.corner_clamped(x as int, y as int) + self.corner_clamped(x + 1, y as int)
                + self.corner_clamped(x + 1, y + 1) + self.corner_clamped(x as int, y + 1) + 2) / 4,
    {
        let c = self.tile_corners(x, y);
        ((c[0] as u16 + c[1] as u16 + c[2] as u16 + c[3] as u16 + 2) / 4) as u8
    }

    /// True if the tile is land a unit can stand on.
    pub fn walkable(&self, x: i32, y: i32) -> (r: bool)
        requires
            self.wf(),
        ensures
            r == (self.in_map(x as int, y as int) && !is_water_spec(self.tile_at(x as int, y as int))),
    {
        self.in_bounds(x, y) && self.terrain(x, y).walkable()
    }

    /// Checks the invariant that neighbouring corners differ by at most one
    /// level. Returns the first violating pair in row-major corner order,
    /// the right neighbour checked before the lower one.
    pub fn validate(&self) -> (r: Result<(), CornerPair>)
        requires
            self.wf(),
        ensures
            r is Ok <==> self.smooth(),
            r matches Err(p) ==> {
                let (cx, cy) = p.0;
                &&& self.is_corner(cx as int, cy as int)
                &&& self.smooth_before(cx as int, cy as int)
                &&& ((p.1.0 == cx + 1 && p.1.1 == cy && self.bad_right(cx as int, cy as int)) || (
                p.1.0 == cx && p.1.1 == cy + 1 && !self.bad_right(cx as int, cy as int)
                    && self.bad_down(cx as int, cy as int)))
            },
    {
        let w = self.width as i32;
        let h = self.height as i32;
        let mut cy: i32 = 0;
        while cy <= h
            invariant
                self.wf(),
                w == self.w(),
                h == self.h(),
                0 <= cy <= h + 1,
                self.smooth_before(0, cy as int),
            decreases h + 1 - cy,
        {
            let mut cx: i32 = 0;
            while cx <= w
                invariant
                    self.wf(),
                    w == self.w(),
                    h == self.h(),
                    0 <= cy <= h,
                    0 <= cx <= w + 1,
                    self.smooth_before(cx as int, cy as int),
                decreases w + 1 - cx,
            {
                let a = self.corner(cx, cy) as i32;
                if cx < w {
                    let b = self.corner(cx + 1, cy) as i32;
                    if a - b > 1 || b - a > 1 {
                        return Err(((cx, cy), (cx + 1, cy)));
                    }
                }
                if cy < h {
                    let b = self.corner(cx, cy + 1) as i32;
                    if a - b > 1 || b - a > 1 {
                        return Err(((cx, cy), (cx, cy + 1)));
                    }
                }
                proof {
                    assert forall|x: int, y: int|
                        #![trigger self.corner_at(x, y)]
                        self.is_corner(x, y) && (y < cy || (y == cy && x < cx + 1)) implies !self.bad_right(x, y)
                            && !self.bad_down(x, y) by {
                        if !(y < cy || (y == cy && x < cx)) {
                            assert(x == cx && y == cy);
                        }
                    }
                }
                cx = cx + 1;
            }
            proof {
                assert forall|x: int, y: int|
                    #![trigger self.corner_at(x, y)]
                    self.is_corner(x, y) && (y < cy + 1 || (y == cy + 1 && x < 0)) implies !self.bad_right(x, y)
                        && !self.bad_down(x, y) by {
                    if y == cy {
                        assert(y == cy && x < cx);
                    }
                }
            }
            cy = cy + 1;
        }
        proof {
            assert forall|x: int, y: int|
                #![trigger self.corner_at(x, y)]
                self.is_corner(x, y) implies !self.bad_right(x, y) && !self.bad_down(x, y) by {
                assert(y < cy);
            }
        }
        Ok(())
    }
}

/// The sum of a sequence of heights.
pub open spec fn sum_heights(s: Seq<u8>) -> int
    decreases s.len(),
{
    if s.len() == 0 {
        0
    } else {
        sum_heights(s.drop_last()) + s.last() as int
    }
}

/// Replacing one height changes the sum by the difference.
pub proof fn lemma_sum_update(s: Seq<u8>, i: int, v: u8)
    requires
        0 <= i < s.len(),
    ensures
        sum_heights(s.update(i, v)) == sum_heights(s) - s[i] as int + v as int,
        sum_heights(s) >= 0,
    decreases s.len(),
{
    if i == s.len() - 1 {
        assert(s.update(i, v).drop_last() =~= s.drop_last());
        lemma_sum_nonneg(s.drop_last());
    } else {
        lemma_sum_update(s.drop_last(), i, v);
        assert(s.update(i, v).drop_last() =~= s.drop_last().update(i, v));
    }
}

proof fn lemma_sum_nonneg(s: Seq<u8>)
    ensures
        sum_heights(s) >= 0,
    decreases s.len(),
{
    if s.len() > 0 {
        lemma_sum_nonneg(s.drop_last());
    }
}

impl TileMap {
    /// A corner is at most one level above each of its existing neighbours.
    pub open spec fn settled(&self, cx: int, cy: int) -> bool {
        &&& (cx > 0 ==> self.corner_at(cx, cy) <= self.corner_at(cx - 1, cy) + 1)
        &&& (cx < self.w() ==> self.corner_at(cx, cy) <= self.corner_at(cx + 1, cy) + 1)
        &&& (cy > 0 ==> self.corner_at(cx, cy) <= self.corner_at(cx, cy - 1) + 1)
        &&& (cy < self.h() ==> self.corner_at(cx, cy) <= self.corner_at(cx, cy + 1) + 1)
    }

    /// Every corner is settled.
    pub open spec fn all_settled_before(&self, cx: int, cy: int) -> bool {
        forall|x: int, y: int|
            #![trigger self.corner_at(x, y)]
            self.is_corner(x, y) && (y < cy || (y == cy && x < cx)) ==> self.settled(x, y)
    }

    /// No corner is higher than in `other`.
    pub open spec fn no_higher_than(&self, other: &TileMap) -> bool {
        forall|i: int| 0 <= i < self.heights().len() ==> #[trigger] self.heights()[i] <= other.heights()[i]
    }

    /// An existing corner is at most [`MAX_ELEVATION`].
    proof fn lemma_corner_bounded(&self, cx: int, cy: int)
        requires
            self.wf(),
            self.is_corner(cx, cy),
        ensures
            0 <= self.corner_at(cx, cy) <= MAX_ELEVATION,
    {
        assert(0 <= cy * (self.w() + 1) + cx < (self.w() + 1) * (self.h() + 1)) by (nonlinear_arith)
            requires 0 <= cx <= self.w(), 0 <= cy <= self.h();
        assert(self.heights()[cy * (self.w() + 1) + cx] <= MAX_ELEVATION);
    }

    /// The lowest existing neighbour of a corner; 255 if it has none.
    fn lowest_neighbour(&self, cx: i32, cy: i32) -> (r: u8)
        requires
            self.wf(),
            self.is_corner(cx as int, cy as int),
        ensures
            cx > 0 ==> r <= self.corner_at(cx - 1, cy as int),
            cx < self.w() ==> r <= self.corner_at(cx + 1, cy as int),
            cy > 0 ==> r <= self.corner_at(cx as int, cy - 1),
            cy < self.h() ==> r <= self.corner_at(cx as int, cy + 1),
            (cx > 0 || cx < self.w() || cy > 0 || cy < self.h()) ==> r <= MAX_ELEVATION,
            r == 255 || (cx > 0 && r == self.corner_at(cx - 1, cy as int)) || (cx < self.w() && r
                == self.corner_at(cx + 1, cy as int)) || (cy > 0 && r == self.corner_at(
                cx as int,
                cy - 1,
            )) || (cy < self.h() && r == self.corner_at(cx as int, cy + 1)),
    {
        let w = self.width as i32;
        let h = self.height as i32;
        let mut lowest: u8 = 255;
        if cx > 0 {
            let v = self.corner(cx - 1, cy);
            if v < lowest {
                lowest = v;
            }
        }
        if cx < w {
            let v = self.corner(cx + 1, cy);
            if v < lowest {
                lowest = v;
            }
        }
        if cy > 0 {
            let v = self.corner(cx, cy - 1);
            if v < lowest {
                lowest = v;
            }
        }
        if cy < h {
            let v = self.corner(cx, cy + 1);
            if v < lowest {
                lowest = v;
            }
        }
        proof {
            if cx > 0 {
                self.lemma_corner_bounded(cx - 1, cy as int);
            }
            if cx < self.w() {
                self.lemma_corner_bounded(cx + 1, cy as int);
            }
            if cy > 0 {
                self.lemma_corner_bounded(cx as int, cy - 1);
            }
            if cy < self.h() {
                self.lemma_corner_bounded(cx as int, cy + 1);
            }
        }
        lowest
    }

    /// One pass over the corners in row-major order, lowering each corner to
    /// one above its lowest neighbour where it stands higher. Returns whether
    /// anything changed.
    fn lower_pass(&mut self) -> (changed: bool)
        requires
            old(self).wf(),
            old(self).w() > 0 || old(self).h() > 0,
        ensures
            final(self).wf(),
            final(self).w() == old(self).w(),
            final(self).h() == old(self).h(),
            final(self).tiles() == old(self).tiles(),
            final(self).no_higher_than(old(self)),
            changed ==> sum_heights(final(self).heights()) < sum_heights(old(self).heights()),
            !changed ==> final(self).heights() == old(self).heights(),
            !changed ==> final(self).all_settled_before(0, final(self).h() + 1),
            old(self).all_settled_before(0, old(self).h() + 1) ==> !changed,
    {
        let w = self.width as i32;
        let h = self.height as i32;
        let ghost start = *self;
        let mut changed = false;
        let mut cy: i32 = 0;
        while cy <= h
            invariant
                self.wf(),
                self.w() == start.w() == w,
                self.h() == start.h() == h,
                w > 0 || h > 0,
                self.tiles() == start.tiles(),
                self.no_higher_than(&start),
                0 <= cy <= h + 1,
                start.all_settled_before(0, h + 1) ==> !changed,
                changed ==> sum_heights(self.heights()) < sum_heights(start.heights()),
                !changed ==> self.heights() == start.heights(),
                !changed ==> self.all_settled_before(0, cy as int),
            decreases h + 1 - cy,
        {
            let mut cx: i32 = 0;
            while cx <= w
                invariant
                    self.wf(),
                    self.w() == start.w() == w,
                    self.h() == start.h() == h,
                    w > 0 || h > 0,
                    self.tiles() == start.tiles(),
                    self.no_higher_than(&start),
                    0 <= cy <= h,
                    0 <= cx <= w + 1,
                    start.all_settled_before(0, h + 1) ==> !changed,
                    changed ==> sum_heights(self.heights()) < sum_heights(start.heights()),
                    !changed ==> self.heights() == start.heights(),
                    !changed ==> self.all_settled_before(cx as int, cy as int),
                decreases w + 1 - cx,
            {
                let lowest = self.lowest_neighbour(cx, cy);
                let i = self.corner_index(cx, cy);
                let cur = self.corners[i];
                proof {
                    if start.all_settled_before(0, h + 1) {
                        assert(start.settled(cx as int, cy as int));
                        assert(self.corner_at(cx as int, cy as int) == cur);
                    }
                }
                if cur as u16 > lowest as u16 + 1 {
                    let ghost before = self.heights();
                    self.corners.set(i, lowest + 1);
                    proof {
                        lemma_sum_update(before, i as int, (lowest + 1) as u8);
                        assert forall|j: int| 0 <= j < self.heights().len() implies #[trigger] self.heights()[j]
                            <= start.heights()[j] by {
                            if j != i {
                                assert(self.heights()[j] == before[j]);
                            }
                        }
                    }
                    changed = true;
                } else {
                    proof {
                        if !changed {
                            assert forall|x: int, y: int|
                                #![trigger self.corner_at(x, y)]
                                self.is_corner(x, y) && (y < cy || (y == cy && x < cx + 1)) implies self.settled(x, y) by {
                                if !(y < cy || (y == cy && x < cx)) {
                                    assert(x == cx && y == cy);
                                }
                            }
                        }
                    }
                }
                cx = cx + 1;
            }
            proof {
                if !changed {
                    assert forall|x: int, y: int|
                        #![trigger self.corner_at(x, y)]
                        self.is_corner(x, y) && (y < cy + 1 || (y == cy + 1 && x < 0)) implies self.settled(x, y) by {
                        if y == cy {
                            assert(y == cy && x < cx);
                        }
                    }
                }
            }
            cy = cy + 1;
        }
        changed
    }

    /// Lowers corners until no neighbouring pair differs by more than one.
    /// Only ever lowers, so it terminates; used by the generator as the
    /// final guarantee after any shaping it does. A map with no tiles has a
    /// single corner and no neighbours to compare it with, so it is left as
    /// it is.
    pub fn enforce_max_step(&mut self)
        requires
            old(self).wf(),
        ensures
            final(self).wf(),
            final(self).smooth(),
            final(self).w() == old(self).w(),
            final(self).h() == old(self).h(),
            final(self).tiles() == old(self).tiles(),
            final(self).no_higher_than(old(self)),
            old(self).smooth() ==> final(self).heights() == old(self).heights(),
    {
        let ghost start = *self;
        if self.width == 0 && self.height == 0 {
            proof {
                assert forall|i: int| 0 <= i < self.heights().len() implies #[trigger] self.heights()[i]
                    <= start.heights()[i] by {}
            }
            return;
        }
        proof {
            lemma_sum_nonneg(self.heights());
        }
        loop
            invariant
                self.wf(),
                self.w() == start.w(),
                self.h() == start.h(),
                self.w() > 0 || self.h() > 0,
                self.tiles() == start.tiles(),
                self.no_higher_than(&start),
                sum_heights(self.heights()) >= 0,
                start.smooth() ==> self.heights() == start.heights(),
            ensures
                self.wf(),
                self.smooth(),
                self.w() == start.w(),
                self.h() == start.h(),
                self.tiles() == start.tiles(),
                self.no_higher_than(&start),
                start.smooth() ==> self.heights() == start.heights(),
            decreases sum_heights(self.heights()),
        {
            proof {
                if start.smooth() {
                    assert forall|cx: int, cy: int|
                        #![trigger self.corner_at(cx, cy)]
                        self.is_corner(cx, cy) implies !self.bad_right(cx, cy) && !self.bad_down(cx, cy) by {
                        assert(start.corner_at(cx, cy) == self.corner_at(cx, cy));
                        assert(!start.bad_right(cx, cy) && !start.bad_down(cx, cy));
                    }
                    self.lemma_smooth_is_fixed();
                }
            }
            let ghost before = *self;
            let changed = self.lower_pass();
            proof {
                lemma_sum_nonneg(self.heights());
                assert forall|i: int| 0 <= i < self.heights().len() implies #[trigger] self.heights()[i]
                    <= start.heights()[i] by {
                    assert(self.heights()[i] <= before.heights()[i]);
                    assert(before.heights()[i] <= start.heights()[i]);
                }
            }
            if !changed {
                proof {
                    self.lemma_settled_is_smooth();
                }
                break;
            }
        }
    }

    /// A map where every corner is settled is smooth.
    proof fn lemma_settled_is_smooth(&self)
        requires
            self.all_settled_before(0, self.h() + 1),
        ensures
            self.smooth(),
    {
        assert forall|cx: int, cy: int|
            #![trigger self.corner_at(cx, cy)]
            self.is_corner(cx, cy) implies !self.bad_right(cx, cy) && !self.bad_down(cx, cy) by {
            assert(self.settled(cx, cy));
            if cx < self.w() {
                assert(self.settled(cx + 1, cy));
            }
            if cy < self.h() {
                assert(self.settled(cx, cy + 1));
            }
        }
    }

    /// A smooth map is already settled everywhere, so a pass changes nothing.
    proof fn lemma_smooth_is_fixed(&self)
        requires
            self.smooth(),
        ensures
            self.all_settled_before(0, self.h() + 1),
    {
        assert forall|x: int, y: int|
            #![trigger self.corner_at(x, y)]
            self.is_corner(x, y) && (y < self.h() + 1 || (y == self.h() + 1 && x < 0)) implies self.settled(x, y) by {
            if x > 0 {
                assert(!self.bad_right(x - 1, y));
            }
            if y > 0 {
                assert(!self.bad_down(x, y - 1));
            }
        }
    }
}

/// Tiles of one terrain code.
pub open spec fn of_code(k: int) -> spec_fn(Terrain) -> bool {
    |t: Terrain| terrain_code(t) == k
}

/// The codes of a run of tiles, one byte each.
pub open spec fn codes(s: Seq<Terrain>) -> Seq<u8> {
    s.map_values(|t: Terrain| terrain_code(t))
}

impl TileMap {
    /// Terrain counts per code.
    pub fn terrain_histogram(&self) -> (r: [usize; 8])
        requires
            self.wf(),
        ensures
            forall|k: int| 0 <= k < 8 ==> #[trigger] r@[k] == self.tiles().filter(of_code(k)).len(),
    {
        let mut out: [usize; 8] = [0, 0, 0, 0, 0, 0, 0, 0];
        let mut i: usize = 0;
        proof {
            assert(self.w() * self.h() <= (self.w() + 1) * (self.h() + 1)) by (nonlinear_arith)
                requires 0 <= self.w(), 0 <= self.h();
            assert forall|k: int| 0 <= k < 8 implies #[trigger] out@[k] == self.tiles().take(0).filter(of_code(k)).len() by {
                assert(self.tiles().take(0) =~= Seq::<Terrain>::empty());
                reveal_with_fuel(Seq::<_>::filter, 1);
            }
        }
        while i < self.terrain.len()
            invariant
                i <= self.tiles().len(),
                self.tiles().len() <= usize::MAX,
                forall|k: int| 0 <= k < 8 ==> #[trigger] out@[k] == self.tiles().take(i as int).filter(of_code(k)).len(),
                forall|k: int| 0 <= k < 8 ==> out@[k] <= i,
            decreases self.tiles().len() - i,
        {
            let c = self.terrain[i].code() as usize;
            let ghost prev = out@;
            out[c] = out[c] + 1;
            proof {
                assert(self.tiles().take(i + 1).drop_last() =~= self.tiles().take(i as int));
                assert forall|k: int| 0 <= k < 8 implies #[trigger] out@[k] == self.tiles().take(i + 1).filter(of_code(k)).len() by {
                    reveal_with_fuel(Seq::<_>::filter, 1);
                    assert(self.tiles().take(i + 1).last() == self.tiles()[i as int]);
                    assert(prev[k] == self.tiles().take(i as int).filter(of_code(k)).len());
                }
            }
            i = i + 1;
        }
        assert(self.tiles().take(i as int) =~= self.tiles());
        out
    }
}

/// The bytes of a map: its width and height, each tile's code, and every
/// corner height.
pub open spec fn map_bytes(w: u16, h: u16, tiles: Seq<Terrain>, heights: Seq<u8>) -> Seq<u8> {
    le16(w) + le16(h) + codes(tiles) + heights
}

impl HashState for TileMap {
    closed spec fn state_bytes(&self) -> Seq<u8> {
        map_bytes(self.width, self.height, self.terrain@, self.corners@)
    }

    fn hash_state(&self, h: &mut StateHasher) {
        let ghost h0 = h@;
        h.write_u16(self.width);
        h.write_u16(self.height);
        let ghost h1 = h@;
        proof {
            lemma_fnv_append(h0, le16(self.width), le16(self.height));
        }
        let mut i: usize = 0;
        while i < self.terrain.len()
            invariant
                i <= self.terrain@.len(),
                h1 == fnv(h0, le16(self.width) + le16(self.height)),
                h@ == fnv(h1, codes(self.terrain@.take(i as int))),
            decreases self.terrain.len() - i,
        {
            let c = self.terrain[i].code();
            let ghost hb = h@;
            h.write_u8(c);
            proof {
                assert(codes(self.terrain@.take(i + 1)) =~= codes(self.terrain@.take(i as int)) + seq![c]);
                lemma_fnv_append(h1, codes(self.terrain@.take(i as int)), seq![c]);
            }
            i = i + 1;
        }
        let ghost h2 = h@;
        h.write_bytes(self.corners.as_slice());
        proof {
            assert(self.terrain@.take(i as int) =~= self.terrain@);
            lemma_fnv_append(h0, le16(self.width) + le16(self.height), codes(self.terrain@));
            lemma_fnv_append(h0, le16(self.width) + le16(self.height) + codes(self.terrain@), self.corners@);
        }
    }
}
} // verus!
