//! Flow fields: shared headings toward a destination, keyed by what is
//! being walked to, and the sector grid and cost queue they are built on.

use vstd::prelude::*;
use crate::nav::{NavGrid, Tile};

verus! {

/// What a field leads to: a destination tile `(x, y, 0)`, or the anchor and
/// footprint `(x, y, fp)` of the thing being walked to.
pub type FieldKey = (i32, i32, u8);

/// Side of a sector, in tiles.
pub const SECTOR: i32 = 16;

/// The map cut into square sectors of [`SECTOR`] tiles.
#[derive(Default)]
pub struct Sectors {
    cols: i32,
    rows: i32,
}

/// Sectors needed to cover `width` tiles: the width divided by the sector
/// side, rounded up.
pub open spec fn sector_cols(width: int) -> int {
    (width + SECTOR - 1) / (SECTOR as int)
}

impl Sectors {
    /// Sector columns (or rows) for a grid `width` tiles across.
    pub fn cols_for(width: i32) -> (r: i32)
        requires
            0 <= width <= i32::MAX - SECTOR,
        ensures
            r == sector_cols(width as int),
    {
        (width + SECTOR - 1) / SECTOR
    }

    /// Sector columns the sectors were laid out with.
    pub closed spec fn cols_spec(&self) -> int {
        self.cols as int
    }

    /// Sector rows the sectors were laid out with.
    pub closed spec fn rows_spec(&self) -> int {
        self.rows as int
    }

    /// Lays the sectors out over `grid`.
    pub fn fit(&mut self, grid: &NavGrid)
        requires
            grid.wf(),
        ensures
            final(self).cols_spec() == sector_cols(grid.gw()),
            final(self).rows_spec() == sector_cols(grid.gh()),
    {
        let cols = Self::cols_for(grid.width());
        let rows = Self::cols_for(grid.height());
        if self.cols != cols || self.rows != rows {
            self.cols = cols;
            self.rows = rows;
        }
    }

    /// How many sectors the grid has.
    pub fn count(&self) -> (r: usize)
        requires
            0 <= self.cols_spec(),
            0 <= self.rows_spec(),
            self.cols_spec() * self.rows_spec() <= usize::MAX,
        ensures
            r == self.cols_spec() * self.rows_spec(),
    {
        proof {
            assert(0 <= self.cols * self.rows) by (nonlinear_arith)
                requires
                    0 <= self.cols,
                    0 <= self.rows,
            ;
        }
        proof {
            assert(self.cols as i64 * self.rows as i64 <= 0x4000_0000_0000_0000) by (nonlinear_arith)
                requires
                    0 <= self.cols <= i32::MAX,
                    0 <= self.rows <= i32::MAX,
            ;
        }
        let n: i64 = self.cols as i64 * self.rows as i64;
        n as usize
    }

    /// The sector containing tile `t`: row-major over the sector grid.
    pub fn of(&self, t: (i32, i32)) -> (r: usize)
        requires
            0 <= t.0,
            0 <= t.1,
            0 <= self.cols_spec() <= 65536,
            (t.1 / SECTOR) * self.cols_spec() + t.0 / SECTOR <= usize::MAX,
        ensures
            r == (t.1 / SECTOR) * self.cols_spec() + t.0 / SECTOR,
    {
        let row: i64 = (t.1 / SECTOR) as i64;
        let col: i64 = (t.0 / SECTOR) as i64;
        proof {
            assert(0 <= row * self.cols <= 134217727 * 65536) by (nonlinear_arith)
                requires
                    0 <= row <= 134217727,
                    0 <= self.cols <= 65536,
            ;
        }
        (row * self.cols as i64 + col) as usize
    }
}

/// The number of items held in a run of buckets.
pub open spec fn bucket_total(bs: Seq<Seq<u32>>) -> nat
    decreases bs.len(),
{
    if bs.len() == 0 {
        0
    } else {
        bucket_total(bs.drop_last()) + bs.last().len()
    }
}

/// A monotone priority queue for integer costs: one bucket per cost, popped
/// in order, the last item pushed at a cost first.
#[derive(Default)]
pub struct Buckets {
    buckets: Vec<Vec<u32>>,
    cur: usize,
    live: usize,
}

impl Buckets {
    /// The items waiting at cost `c`, oldest first.
    pub closed spec fn at(&self, c: int) -> Seq<u32> {
        if 0 <= c < self.buckets@.len() {
            self.buckets@[c]@
        } else {
            Seq::empty()
        }
    }

    /// How many items are waiting.
    pub closed spec fn size(&self) -> nat {
        self.live as nat
    }

    /// The count matches the buckets, and every bucket below the cursor is
    /// empty.
    pub closed spec fn wf(&self) -> bool {
        &&& self.live == bucket_total(self.buckets@.map_values(|b: Vec<u32>| b@))
        &&& self.cur <= self.buckets@.len()
        &&& self.buckets@.len() <= u32::MAX
        &&& forall|b: int| 0 <= b < self.cur ==> #[trigger] self.buckets@[b]@.len() == 0
    }

    /// Nothing waits at any cost.
    pub open spec fn is_clear(&self) -> bool {
        self.size() == 0 && forall|c: int| #[trigger] self.at(c).len() == 0
    }

    proof fn lemma_total_zero(bs: Seq<Seq<u32>>)
        requires
            bucket_total(bs) == 0,
        ensures
            forall|b: int| 0 <= b < bs.len() ==> #[trigger] bs[b].len() == 0,
        decreases bs.len(),
    {
        if bs.len() > 0 {
            Self::lemma_total_zero(bs.drop_last());
            assert forall|b: int| 0 <= b < bs.len() implies #[trigger] bs[b].len() == 0 by {
                if b < bs.len() - 1 {
                    assert(bs.drop_last()[b] == bs[b]);
                }
            }
        }
    }

    proof fn lemma_total_update(bs: Seq<Seq<u32>>, i: int, v: Seq<u32>)
        requires
            0 <= i < bs.len(),
        ensures
            bucket_total(bs.update(i, v)) == bucket_total(bs) - bs[i].len() + v.len(),
        decreases bs.len(),
    {
        if i < bs.len() - 1 {
            Self::lemma_total_update(bs.drop_last(), i, v);
            assert(bs.update(i, v).drop_last() =~= bs.drop_last().update(i, v));
        } else {
            assert(bs.update(i, v).drop_last() =~= bs.drop_last());
        }
    }

    proof fn lemma_total_push_empty(bs: Seq<Seq<u32>>)
        ensures
            bucket_total(bs.push(Seq::empty())) == bucket_total(bs),
    {
        assert(bs.push(Seq::empty()).drop_last() =~= bs);
    }

    proof fn lemma_total_positive(bs: Seq<Seq<u32>>, i: int)
        requires
            0 <= i < bs.len(),
        ensures
            bucket_total(bs) >= bs[i].len(),
        decreases bs.len(),
    {
        if i < bs.len() - 1 {
            Self::lemma_total_positive(bs.drop_last(), i);
            assert(bs.drop_last()[i] == bs[i]);
        }
    }

    /// An empty queue.
    pub fn new() -> (r: Buckets)
        ensures
            r.wf(),
            r.is_clear(),
    {
        let r = Buckets { buckets: Vec::new(), cur: 0, live: 0 };
        proof {
            assert(r.buckets@.map_values(|b: Vec<u32>| b@) =~= Seq::<Seq<u32>>::empty());
        }
        r
    }

    /// Empties every bucket, keeping them for reuse.
    pub fn clear(&mut self)
        requires
            old(self).wf(),
        ensures
            final(self).wf(),
            final(self).is_clear(),
    {
        let mut k: usize = 0;
        while k < self.buckets.len()
            invariant
                k <= self.buckets@.len(),
                self.buckets@.len() <= u32::MAX,
                forall|b: int| 0 <= b < k ==> #[trigger] self.buckets@[b]@.len() == 0,
            decreases self.buckets.len() - k,
        {
            self.buckets[k].clear();
            k = k + 1;
        }
        self.cur = 0;
        self.live = 0;
        proof {
            let vs = self.buckets@.map_values(|b: Vec<u32>| b@);
            assert forall|b: int| 0 <= b < vs.len() implies #[trigger] vs[b] == Seq::<u32>::empty() by {
                assert(self.buckets@[b]@.len() == 0);
            }
            assert(vs =~= Seq::new(vs.len(), |b: int| Seq::<u32>::empty()));
            self.lemma_total_empties(vs);
        }
    }

    proof fn lemma_total_empties(&self, vs: Seq<Seq<u32>>)
        requires
            forall|b: int| 0 <= b < vs.len() ==> (#[trigger] vs[b]).len() == 0,
        ensures
            bucket_total(vs) == 0,
        decreases vs.len(),
    {
        if vs.len() > 0 {
            self.lemma_total_empties(vs.drop_last());
        }
    }

    /// Queues `item` at `cost`.
    pub fn push(&mut self, cost: u32, item: u32)
        requires
            old(self).wf(),
            cost < u32::MAX,
            old(self).size() < usize::MAX,
        ensures
            final(self).wf(),
            final(self).size() == old(self).size() + 1,
            forall|c: int| #[trigger] final(self).at(c) == if c == cost { old(self).at(c).push(item) } else { old(self).at(c) },
    {
        let c = cost as usize;
        let ghost old_self = *self;
        while self.buckets.len() <= c
            invariant
                c == cost,
                cost < u32::MAX,
                c < usize::MAX,
                self.wf(),
                self.live == old_self.live,
                self.buckets@.len() >= old_self.buckets@.len(),
                forall|x: int| #[trigger] self.at(x) == old_self.at(x),
            decreases c + 1 - self.buckets.len(),
        {
            let ghost bs0 = self.buckets@;
            let ghost s0 = *self;
            self.buckets.push(Vec::new());
            proof {
                assert(self.buckets@[bs0.len() as int]@ =~= Seq::<u32>::empty());
                assert(self.buckets@.map_values(|b: Vec<u32>| b@) =~= bs0.map_values(|b: Vec<u32>| b@).push(Seq::empty()));
                Self::lemma_total_push_empty(bs0.map_values(|b: Vec<u32>| b@));
                assert forall|x: int| #[trigger] self.at(x) == old_self.at(x) by {
                    assert(s0.at(x) == old_self.at(x));
                    if 0 <= x < bs0.len() {
                        assert(self.buckets@[x] == bs0[x]);
                    }
                }
                assert forall|b: int| 0 <= b < self.cur implies #[trigger] self.buckets@[b]@.len() == 0 by {
                    assert(self.buckets@[b] == bs0[b]);
                }
            }
        }
        let ghost bs1 = self.buckets@;
        let ghost mid = *self;
        let ghost v1 = bs1.map_values(|b: Vec<u32>| b@);
        self.buckets[c].push(item);
        proof {
            let v2 = self.buckets@.map_values(|b: Vec<u32>| b@);
            assert(v2 =~= v1.update(c as int, v1[c as int].push(item)));
            Self::lemma_total_update(v1, c as int, v1[c as int].push(item));
        }
        self.live = self.live + 1;
        if c < self.cur {
            self.cur = c;
        }
        proof {
            assert forall|x: int| #[trigger] self.at(x) == if x == cost { old_self.at(x).push(item) } else { old_self.at(x) } by {
                assert(mid.at(x) == old_self.at(x));
                if 0 <= x < bs1.len() && x != c {
                    assert(self.buckets@[x] == bs1[x]);
                }
            }
            assert forall|b: int| 0 <= b < self.cur implies #[trigger] self.buckets@[b]@.len() == 0 by {
                assert(self.buckets@[b] == bs1[b]);
            }
        }
    }

    /// Removes and returns the cheapest waiting item with its cost: of the
    /// items at the lowest cost, the last one pushed. `None` when nothing
    /// waits.
    pub fn pop(&mut self) -> (r: Option<(u32, u32)>)
        requires
            old(self).wf(),
        ensures
            final(self).wf(),
            r is None <==> old(self).size() == 0,
            r is None ==> final(self).is_clear() && forall|c: int| #[trigger] final(self).at(c) == old(self).at(c),
            r matches Some(p) ==> {
                &&& old(self).at(p.0 as int).len() > 0
                &&& p.1 == old(self).at(p.0 as int).last()
                &&& forall|c: int| 0 <= c < p.0 ==> #[trigger] old(self).at(c).len() == 0
                &&& forall|c: int| #[trigger] final(self).at(c) == if c == p.0 { old(self).at(c).drop_last() } else { old(self).at(c) }
                &&& final(self).size() == old(self).size() - 1
            },
    {
        let ghost old_self = *self;
        if self.live == 0 {
            proof {
                Self::lemma_total_zero(self.buckets@.map_values(|b: Vec<u32>| b@));
                assert forall|c: int| #[trigger] self.at(c).len() == 0 by {
                    if 0 <= c < self.buckets@.len() {
                        assert(self.buckets@.map_values(|b: Vec<u32>| b@)[c] == self.buckets@[c]@);
                    }
                }
            }
            return None;
        }
        while self.cur < self.buckets.len()
            invariant
                old_self == *old(self),
                self.wf(),
                self.live == old_self.live,
                self.live > 0,
                self.buckets@ == old_self.buckets@,
                forall|b: int| 0 <= b < self.cur ==> #[trigger] self.buckets@[b]@.len() == 0,
            decreases self.buckets.len() - self.cur,
        {
            let cur = self.cur;
            if self.buckets[cur].len() > 0 {
                let ghost v1 = self.buckets@.map_values(|b: Vec<u32>| b@);
                let item = self.buckets[cur].pop().unwrap();
                proof {
                    let v2 = self.buckets@.map_values(|b: Vec<u32>| b@);
                    assert(v2 =~= v1.update(cur as int, v1[cur as int].drop_last()));
                    Self::lemma_total_update(v1, cur as int, v1[cur as int].drop_last());
                }
                self.live = self.live - 1;
                proof {
                    assert forall|x: int| #[trigger] self.at(x) == if x == cur { old_self.at(x).drop_last() } else { old_self.at(x) } by {
                        if 0 <= x < old_self.buckets@.len() && x != cur {
                            assert(self.buckets@[x] == old_self.buckets@[x]);
                        }
                    }
                    assert forall|b: int| 0 <= b < self.cur implies #[trigger] self.buckets@[b]@.len() == 0 by {
                        assert(self.buckets@[b] == old_self.buckets@[b]);
                    }
                    assert forall|c: int| 0 <= c < cur implies #[trigger] old_self.at(c).len() == 0 by {
                        assert(old_self.buckets@[c]@.len() == 0);
                    }
                }
                assert(cur < u32::MAX);
                assert(old_self.size() > 0);
                return Some((cur as u32, item));
            }
            self.cur = cur + 1;
        }
        proof {
            let vs = self.buckets@.map_values(|b: Vec<u32>| b@);
            self.lemma_total_empties(vs);
        }
        self.live = 0;
        None
    }
}

/// `t` lies on the one-tile ring just outside the rectangle
/// `[x0, x1] × [y0, y1]`.
pub open spec fn on_ring(x0: int, y0: int, x1: int, y1: int, t: Tile) -> bool {
    &&& x0 - 1 <= t.0 <= x1 + 1
    &&& y0 - 1 <= t.1 <= y1 + 1
    &&& (t.0 == x0 - 1 || t.0 == x1 + 1 || t.1 == y0 - 1 || t.1 == y1 + 1)
}

/// `a` comes before `b` scanning rows top to bottom, each left to right.
pub open spec fn scan_lt(a: Tile, b: Tile) -> bool {
    a.1 < b.1 || (a.1 == b.1 && a.0 < b.0)
}

/// `r` is every open tile of the ring around `[x0, x1] × [y0, y1]`, in scan
/// order.
pub open spec fn is_ring(g: &NavGrid, x0: int, y0: int, x1: int, y1: int, r: Seq<Tile>) -> bool {
    &&& forall|i: int| 0 <= i < r.len() ==> on_ring(x0, y0, x1, y1, #[trigger] r[i]) && g.tile_open(r[i])
    &&& forall|i: int, j: int| 0 <= i < j < r.len() ==> scan_lt(#[trigger] r[i], #[trigger] r[j])
    &&& forall|t: Tile| on_ring(x0, y0, x1, y1, t) && #[trigger] g.tile_open(t) ==> r.contains(t)
}

/// The tiles a field with `key` leads to. For a plain destination: the tile
/// itself when it is open, else the open tile [`NavGrid::nearest_passable`]
/// finds within ten tiles, else none. For a footprint of side `fp`, whose
/// tiles span `x - fp/2 ..= x - fp/2 + fp - 1` across and likewise down:
/// every open tile of the ring around it, in scan order.
pub fn seeds_for(grid: &NavGrid, key: FieldKey) -> (r: Vec<Tile>)
    requires
        grid.wf(),
        i32::MIN + 46340 <= key.0 <= i32::MAX - 46340,
        i32::MIN + 46340 <= key.1 <= i32::MAX - 46340,
    ensures
        key.2 == 0 && grid.open_at(key.0 as int, key.1 as int) ==> r@ == seq![(key.0, key.1)],
        key.2 == 0 && !grid.open_at(key.0 as int, key.1 as int) ==> {
            &&& r@.len() <= 1
            &&& r@.len() == 0 <==> forall|tx: int, ty: int| crate::nav::cheb(tx - key.0, ty - key.1) <= 10
                ==> !#[trigger] grid.fits(None, tx, ty)
            &&& r@.len() == 1 ==> grid.nearest_pick(key.0 as int, key.1 as int, 10, None, r@[0])
        },
        key.2 != 0 ==> {
            let half = key.2 / 2;
            is_ring(grid, key.0 - half, key.1 - half, key.0 - half + key.2 - 1, key.1 - half + key.2 - 1, r@)
        },
{
    let (x, y, fp) = key;
    if fp == 0 {
        if grid.passable(x, y) {
            return vec![(x, y)];
        }
        return match grid.nearest_passable(x, y, 10, None) {
            Some(t) => vec![t],
            None => Vec::new(),
        };
    }
    let side = fp as i32;
    let half = side / 2;
    let x0 = x - half;
    let y0 = y - half;
    let x1 = x0 + side - 1;
    let y1 = y0 + side - 1;
    let mut out: Vec<Tile> = Vec::new();
    let mut ty = y0 - 1;
    while ty <= y1 + 1
        invariant
            grid.wf(),
            x0 == x - half,
            y0 == y - half,
            x1 == x0 + side - 1,
            y1 == y0 + side - 1,
            1 <= side <= 255,
            0 <= half <= 127,
            i32::MIN + 46340 <= x <= i32::MAX - 46340,
            i32::MIN + 46340 <= y <= i32::MAX - 46340,
            y0 - 1 <= ty <= y1 + 2,
            forall|i: int| 0 <= i < out@.len() ==> on_ring(x0 as int, y0 as int, x1 as int, y1 as int, #[trigger] out@[i])
                && grid.tile_open(out@[i]) && out@[i].1 < ty,
            forall|i: int, j: int| 0 <= i < j < out@.len() ==> scan_lt(#[trigger] out@[i], #[trigger] out@[j]),
            forall|t: Tile| on_ring(x0 as int, y0 as int, x1 as int, y1 as int, t) && #[trigger] grid.tile_open(t) && t.1 < ty
                ==> out@.contains(t),
        decreases y1 + 2 - ty,
    {
        let mut tx = x0 - 1;
        while tx <= x1 + 1
            invariant
                grid.wf(),
                x1 == x0 + side - 1,
                y1 == y0 + side - 1,
                1 <= side <= 255,
                i32::MIN + 46000 <= x0 <= i32::MAX - 46000,
                i32::MIN + 46000 <= y0 <= i32::MAX - 46000,
                y0 - 1 <= ty <= y1 + 1,
                x0 - 1 <= tx <= x1 + 2,
                forall|i: int| 0 <= i < out@.len() ==> on_ring(x0 as int, y0 as int, x1 as int, y1 as int, #[trigger] out@[i])
                    && grid.tile_open(out@[i]) && scan_lt(out@[i], (tx, ty)),
                forall|i: int, j: int| 0 <= i < j < out@.len() ==> scan_lt(#[trigger] out@[i], #[trigger] out@[j]),
                forall|t: Tile| on_ring(x0 as int, y0 as int, x1 as int, y1 as int, t) && #[trigger] grid.tile_open(t)
                    && scan_lt(t, (tx, ty)) ==> out@.contains(t),
            decreases x1 + 2 - tx,
        {
            let edge = tx == x0 - 1 || tx == x1 + 1 || ty == y0 - 1 || ty == y1 + 1;
            if edge && grid.passable(tx, ty) {
                let ghost o0 = out@;
                out.push((tx, ty));
                proof {
                    assert(out@[o0.len() as int] == (tx, ty));
                    assert forall|t: Tile| on_ring(x0 as int, y0 as int, x1 as int, y1 as int, t) && #[trigger] grid.tile_open(t)
                        && scan_lt(t, ((tx + 1) as i32, ty)) implies out@.contains(t) by {
                        if t == (tx, ty) {
                            assert(out@[o0.len() as int] == t);
                        } else {
                            assert(o0.contains(t));
                            let k = choose|k: int| 0 <= k < o0.len() && o0[k] == t;
                            assert(out@[k] == t);
                        }
                    }
                }
            }
            tx = tx + 1;
        }
        ty = ty + 1;
    }
    proof {
        let r = out@;
        assert forall|t: Tile| on_ring(x0 as int, y0 as int, x1 as int, y1 as int, t) && #[trigger] grid.tile_open(t)
            implies r.contains(t) by {
            assert(t.1 < ty);
        }
    }
    out
}

} // verus!
