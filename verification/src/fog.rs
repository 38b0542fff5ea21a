//! Fog of war: what each player has seen and can see.
//!
//! One [`Fog`] per player. `visibility` counts the player's units and
//! buildings that can see each tile right now and is recomputed every tick
//! from their positions, so it is derived state and stays out of the hash;
//! `explored` and the remembered buildings are history and are hashed. A
//! remembered building is kept at its anchor tile until the tile is seen
//! again.

use vstd::prelude::*;
use crate::hash::{HashState, StateHasher, fnv, le16, le32, le64, le_i32, seq_bytes, lemma_fnv_append};
use crate::kinds::{info, kind_info};
use crate::nav::{footprint_tiles, footprint_fits, in_footprint, footprint_tile, fp_side};

verus! {

/// The furthest anything sees, in tiles. Bounds the stamp table.
pub const MAX_SIGHT: i32 = 16;

/// What a player knows of a tile.
#[derive(Clone, Copy, PartialEq, Eq, Structural, Debug)]
pub enum Visibility {
    /// Never seen: nothing known.
    Unexplored,
    /// Seen once: terrain and last-known buildings, no units.
    Explored,
    /// In sight now.
    Visible,
}

/// A building or node as it was last seen, at its anchor tile.
#[derive(Clone, Copy, PartialEq, Eq, Structural, Debug)]
pub struct Memory {
    /// What stood there.
    pub kind: u16,
    /// Whose it was.
    pub owner: u8,
}

/// One player's knowledge of the map.
#[derive(Clone, PartialEq, Eq, Debug)]
pub struct Fog {
    width: i32,
    height: i32,
    /// Units and buildings of the player seeing each tile now. Derived
    /// every tick; not hashed.
    visibility: Vec<u16>,
    /// One bit per tile: seen at least once.
    explored: Vec<u64>,
    /// Static things last seen, by anchor tile index, ascending, kept until
    /// the tile is seen again.
    remembered: Vec<(u32, Memory)>,
    /// One bit per tile: something is remembered there. Checked before the
    /// list, so stamping a sight disc costs a bit test per tile.
    marked: Vec<u64>,
}

/// Bit `i` of a bitset held in 64-bit words.
pub open spec fn bit(words: Seq<u64>, i: int) -> bool {
    (words[i / 64] >> ((i % 64) as u64)) & 1u64 == 1u64
}

proof fn lemma_set_bit(w: u64, b: u64, c: u64)
    requires
        b < 64,
        c < 64,
    ensures
        ((w | (1u64 << b)) >> c) & 1u64 == 1u64 <==> (c == b || (w >> c) & 1u64 == 1u64),
{
    assert(((w | (1u64 << b)) >> c) & 1u64 == 1u64 <==> (c == b || (w >> c) & 1u64 == 1u64)) by (bit_vector)
        requires b < 64, c < 64;
}

proof fn lemma_clear_bit(w: u64, b: u64, c: u64)
    requires
        b < 64,
        c < 64,
    ensures
        ((w & !(1u64 << b)) >> c) & 1u64 == 1u64 <==> (c != b && (w >> c) & 1u64 == 1u64),
{
    assert(((w & !(1u64 << b)) >> c) & 1u64 == 1u64 <==> (c != b && (w >> c) & 1u64 == 1u64)) by (bit_vector)
        requires b < 64, c < 64;
}

proof fn lemma_test_bit(w: u64, b: u64)
    requires
        b < 64,
    ensures
        (w & (1u64 << b) != 0) <==> ((w >> b) & 1u64 == 1u64),
{
    assert((w & (1u64 << b) != 0) <==> ((w >> b) & 1u64 == 1u64)) by (bit_vector)
        requires b < 64;
}

proof fn lemma_zero_bits(c: u64)
    requires
        c < 64,
    ensures
        (0u64 >> c) & 1u64 != 1u64,
{
    assert((0u64 >> c) & 1u64 != 1u64) by (bit_vector)
        requires c < 64;
}

/// Two tiles share a word exactly when their indices divided by 64 agree.
proof fn lemma_same_word(i: int, j: int)
    requires
        0 <= i,
        0 <= j,
        i / 64 == j / 64,
        i % 64 == j % 64,
    ensures
        i == j,
{
}

/// Tile indices ascend strictly along the list.
pub open spec fn keys_sorted(m: Seq<(u32, Memory)>) -> bool {
    forall|a: int, b: int| 0 <= a < b < m.len() ==> (#[trigger] m[a]).0 < (#[trigger] m[b]).0
}

/// Something is remembered at tile index `i`.
pub open spec fn has_key(m: Seq<(u32, Memory)>, i: int) -> bool {
    exists|q: int| 0 <= q < m.len() && #[trigger] m[q].0 == i
}

/// What is remembered at tile index `i`.
pub open spec fn lookup(m: Seq<(u32, Memory)>, i: int) -> Option<Memory> {
    if has_key(m, i) {
        Some(m[choose|q: int| 0 <= q < m.len() && #[trigger] m[q].0 == i].1)
    } else {
        None
    }
}

proof fn lemma_lookup_at(m: Seq<(u32, Memory)>, q: int)
    requires
        keys_sorted(m),
        0 <= q < m.len(),
    ensures
        has_key(m, m[q].0 as int),
        lookup(m, m[q].0 as int) == Some(m[q].1),
{
    let i = m[q].0 as int;
    assert(m[q].0 == i);
    let j = choose|j: int| 0 <= j < m.len() && #[trigger] m[j].0 == i;
    if j < q {
        assert(m[j].0 < m[q].0);
    } else if j > q {
        assert(m[q].0 < m[j].0);
    }
}

proof fn lemma_remove_entry(m: Seq<(u32, Memory)>, k: int)
    requires
        keys_sorted(m),
        0 <= k < m.len(),
    ensures
        keys_sorted(m.remove(k)),
        forall|j: int| #[trigger] has_key(m.remove(k), j) == (has_key(m, j) && j != m[k].0),
        forall|j: int| #[trigger] lookup(m.remove(k), j) == if j == m[k].0 { None } else { lookup(m, j) },
{
    let r = m.remove(k);
    assert forall|a: int, b: int| 0 <= a < b < r.len() implies (#[trigger] r[a]).0 < (#[trigger] r[b]).0 by {
        let a0 = if a < k { a } else { a + 1 };
        let b0 = if b < k { b } else { b + 1 };
        assert(r[a] == m[a0] && r[b] == m[b0]);
    }
    assert forall|j: int| #[trigger] has_key(r, j) == (has_key(m, j) && j != m[k].0) by {
        if has_key(r, j) {
            let q = choose|q: int| 0 <= q < r.len() && #[trigger] r[q].0 == j;
            let q0 = if q < k { q } else { q + 1 };
            assert(r[q] == m[q0]);
            assert(m[q0].0 == j);
            if q0 < k {
                assert(m[q0].0 < m[k].0);
            } else {
                assert(m[k].0 < m[q0].0);
            }
        }
        if has_key(m, j) && j != m[k].0 {
            let q = choose|q: int| 0 <= q < m.len() && #[trigger] m[q].0 == j;
            let q1 = if q < k { q } else { q - 1 };
            assert(r[q1] == m[q]);
            assert(r[q1].0 == j);
        }
    }
    assert forall|j: int| #[trigger] lookup(r, j) == if j == m[k].0 { None } else { lookup(m, j) } by {
        if has_key(r, j) {
            let q = choose|q: int| 0 <= q < r.len() && #[trigger] r[q].0 == j;
            let q0 = if q < k { q } else { q + 1 };
            assert(r[q] == m[q0]);
            lemma_lookup_at(r, q);
            lemma_lookup_at(m, q0);
        }
    }
}

/// `m` with `(key, v)` put at position `at`: replacing an entry with that
/// key there, or inserted before the first larger key.
pub open spec fn put_at(m: Seq<(u32, Memory)>, at: int, key: u32, v: Memory) -> Seq<(u32, Memory)> {
    if at < m.len() && m[at].0 == key { m.update(at, (key, v)) } else { m.insert(at, (key, v)) }
}

proof fn lemma_put_entry(m: Seq<(u32, Memory)>, at: int, key: u32, v: Memory)
    requires
        keys_sorted(m),
        0 <= at <= m.len(),
        forall|q: int| 0 <= q < at ==> (#[trigger] m[q]).0 < key,
        at < m.len() ==> m[at].0 >= key,
    ensures
        keys_sorted(put_at(m, at, key, v)),
        forall|j: int| #[trigger] has_key(put_at(m, at, key, v), j) == (has_key(m, j) || j == key),
        forall|j: int| #[trigger] lookup(put_at(m, at, key, v), j) == if j == key { Some(v) } else { lookup(m, j) },
{
    let r = put_at(m, at, key, v);
    let replaced = at < m.len() && m[at].0 == key;
    assert forall|q: int| at < q < m.len() implies (#[trigger] m[q]).0 > key by {
        assert(m[at].0 < m[q].0);
    }
    assert forall|a: int, b: int| 0 <= a < b < r.len() implies (#[trigger] r[a]).0 < (#[trigger] r[b]).0 by {
        if !replaced {
            let a0 = if a < at { a } else { a - 1 };
            let b0 = if b < at { b } else { b - 1 };
            if a != at && b != at {
                assert(r[a] == m[a0] && r[b] == m[b0]);
            } else if a == at {
                assert(r[b] == m[b0]);
                if b0 == at {
                    assert(m[at].0 != key);
                }
            } else {
                assert(r[a] == m[a0]);
            }
        }
    }
    assert forall|j: int| #[trigger] has_key(r, j) == (has_key(m, j) || j == key) by {
        if has_key(r, j) {
            let q = choose|q: int| 0 <= q < r.len() && #[trigger] r[q].0 == j;
            if q != at {
                let q0 = if replaced || q < at { q } else { q - 1 };
                assert(r[q] == m[q0]);
            }
        }
        if has_key(m, j) {
            let q = choose|q: int| 0 <= q < m.len() && #[trigger] m[q].0 == j;
            let q1 = if replaced || q < at { q } else { q + 1 };
            if !(replaced && q == at) {
                assert(r[q1] == m[q]);
            }
            assert(r[q1].0 == j);
        }
        if j == key {
            assert(r[at].0 == j);
        }
    }
    assert forall|j: int| #[trigger] lookup(r, j) == if j == key { Some(v) } else { lookup(m, j) } by {
        assert(r[at] == (key, v));
        lemma_lookup_at(r, at);
        if has_key(r, j) && j != key {
            let q = choose|q: int| 0 <= q < r.len() && #[trigger] r[q].0 == j;
            lemma_lookup_at(r, q);
            let q0 = if replaced || q < at { q } else { q - 1 };
            assert(r[q] == m[q0]);
            lemma_lookup_at(m, q0);
        }
    }
}

/// Words needed for `n` bits.
pub open spec fn words_for(n: int) -> int {
    (n + 63) / 64
}

/// A tile's footprint for `kind` anchored at `(x, y)` has a tile in sight.
pub open spec fn sight_of(f: &Fog, kind: u16, x: int, y: int) -> bool {
    exists|tx: int, ty: int| in_footprint(x, y, kind_info(kind).footprint as int, tx, ty) && #[trigger] f.sees(tx, ty)
}

/// The remembered things out of sight, with their anchor tiles, in tile
/// order.
pub open spec fn memories_of(f: &Fog, m: Seq<(u32, Memory)>) -> Seq<((i32, i32), Memory)>
    decreases m.len(),
{
    if m.len() == 0 {
        Seq::empty()
    } else {
        let (i, mem) = m.last();
        let x = i as int % f.w();
        let y = i as int / f.w();
        memories_of(f, m.drop_last()) + if sight_of(f, mem.kind, x, y) { Seq::empty() } else { seq![((x as i32, y as i32), mem)] }
    }
}

/// How many of the first `k` counts are positive.
pub open spec fn positive_count(s: Seq<u16>, k: int) -> nat
    decreases k,
{
    if k <= 0 { 0 } else { positive_count(s, k - 1) + if s[k - 1] > 0 { 1nat } else { 0nat } }
}

/// How many of the first `k` bits are set.
pub open spec fn bit_count(words: Seq<u64>, k: int) -> nat
    decreases k,
{
    if k <= 0 { 0 } else { bit_count(words, k - 1) + if bit(words, k - 1) { 1nat } else { 0nat } }
}

impl Fog {
    /// Width in tiles.
    pub closed spec fn w(&self) -> int {
        self.width as int
    }

    /// Height in tiles.
    pub closed spec fn h(&self) -> int {
        self.height as int
    }

    /// Observers per tile.
    pub closed spec fn observers(&self) -> Seq<u16> {
        self.visibility@
    }

    /// The explored bitset.
    pub closed spec fn explored_bits(&self) -> Seq<u64> {
        self.explored@
    }

    /// The remembered things, by ascending tile index.
    pub closed spec fn memo(&self) -> Seq<(u32, Memory)> {
        self.remembered@
    }

    /// The marked bitset.
    pub closed spec fn marked_bits(&self) -> Seq<u64> {
        self.marked@
    }

    /// Tiles on the map: zero when a dimension is not positive.
    pub open spec fn tiles(&self) -> int {
        (if self.w() < 0 { 0 } else { self.w() }) * (if self.h() < 0 { 0 } else { self.h() })
    }

    /// The tile exists.
    pub open spec fn inside(&self, x: int, y: int) -> bool {
        0 <= x < self.w() && 0 <= y < self.h()
    }

    /// Row-major index of a tile.
    pub open spec fn index(&self, x: int, y: int) -> int {
        y * self.w() + x
    }

    /// The player sees the tile now.
    pub open spec fn sees(&self, x: int, y: int) -> bool {
        self.inside(x, y) && self.observers()[self.index(x, y)] > 0
    }

    /// The player has seen the tile at some time.
    pub open spec fn seen(&self, x: int, y: int) -> bool {
        self.inside(x, y) && bit(self.explored_bits(), self.index(x, y))
    }

    /// The memory anchored at tile index `i`, if any.
    pub open spec fn memory_at(&self, i: int) -> Option<Memory> {
        lookup(self.memo(), i)
    }

    /// Sizes agree with the dimensions; the list is ascending with one entry
    /// per marked tile and none elsewhere; no bit is set past the last tile.
    pub open spec fn wf(&self) -> bool {
        let n = self.tiles();
        &&& n <= i32::MAX
        &&& self.observers().len() == n
        &&& self.explored_bits().len() == words_for(n)
        &&& self.marked_bits().len() == words_for(n)
        &&& keys_sorted(self.memo())
        &&& forall|k: int| 0 <= k < self.memo().len() ==> (#[trigger] self.memo()[k]).0 < n
        &&& forall|i: int| 0 <= i < n ==> (#[trigger] bit(self.marked_bits(), i) <==> has_key(self.memo(), i))
        &&& forall|i: int| n <= i < 64 * words_for(n) ==> !#[trigger] bit(self.explored_bits(), i)
    }

    /// Nothing known of a `width` by `height` map.
    pub fn new(width: i32, height: i32) -> (r: Fog)
        requires
            (if width < 0 { 0 } else { width as int }) * (if height < 0 { 0 } else { height as int }) <= i32::MAX,
        ensures
            r.wf(),
            r.w() == width,
            r.h() == height,
            forall|i: int| 0 <= i < r.tiles() ==> r.observers()[i] == 0 && !bit(r.explored_bits(), i),
            r.memo().len() == 0,
    {
        let w = if width < 0 { 0 } else { width };
        let h = if height < 0 { 0 } else { height };
        proof {
            assert(0 <= w * h) by (nonlinear_arith)
                requires 0 <= w, 0 <= h;
        }
        let n = (w * h) as usize;
        let words = n / 64 + if n % 64 == 0 { 0 } else { 1 };
        let visibility = crate::nav::filled(0u16, n);
        let explored = crate::nav::filled(0u64, words);
        let marked = crate::nav::filled(0u64, words);
        let r = Fog { width, height, visibility, explored, remembered: Vec::new(), marked };
        proof {
            assert(words == words_for(n as int));
            assert(r.tiles() == n);
            assert(r.observers().len() == n);
            assert(r.explored_bits().len() == words_for(n as int));
            assert(r.marked_bits().len() == words_for(n as int));
            assert(keys_sorted(r.memo()));
            assert(n <= 64 * words_for(n as int));
            assert forall|i: int| 0 <= i < n implies (#[trigger] bit(r.marked_bits(), i) <==> has_key(r.memo(), i)) by {
                lemma_zero_bits((i % 64) as u64);
            }
            assert forall|i: int| 0 <= i < 64 * words_for(n as int) implies !#[trigger] bit(r.explored_bits(), i)
                && !bit(r.marked_bits(), i) by {
                lemma_zero_bits((i % 64) as u64);
            }
        }
        r
    }

    /// Map width in tiles.
    pub fn width(&self) -> (r: i32)
        ensures
            r == self.w(),
    {
        self.width
    }

    /// Map height in tiles.
    pub fn height(&self) -> (r: i32)
        ensures
            r == self.h(),
    {
        self.height
    }

    fn idx(&self, x: i32, y: i32) -> (r: Option<usize>)
        requires
            self.wf(),
        ensures
            r is Some <==> self.inside(x as int, y as int),
            r matches Some(i) ==> i == self.index(x as int, y as int) && i < self.tiles(),
    {
        if x >= 0 && y >= 0 && x < self.width && y < self.height {
            proof {
                crate::nav::lemma_index_in_grid(x as int, y as int, self.w(), self.h());
            }
            Some((y * self.width + x) as usize)
        } else {
            None
        }
    }

    fn bit_at(words: &Vec<u64>, i: usize) -> (r: bool)
        requires
            i / 64 < words@.len(),
        ensures
            r == bit(words@, i as int),
    {
        let b = (i % 64) as u64;
        proof {
            lemma_test_bit(words@[i as int / 64], b);
        }
        words[i / 64] & (1u64 << b) != 0
    }

    /// True if the player sees the tile now.
    pub fn visible(&self, x: i32, y: i32) -> (r: bool)
        requires
            self.wf(),
        ensures
            r == self.sees(x as int, y as int),
    {
        match self.idx(x, y) {
            Some(i) => self.visibility[i] > 0,
            None => false,
        }
    }

    /// True if the player has ever seen the tile.
    pub fn explored(&self, x: i32, y: i32) -> (r: bool)
        requires
            self.wf(),
        ensures
            r == self.seen(x as int, y as int),
    {
        match self.idx(x, y) {
            Some(i) => Self::bit_at(&self.explored, i),
            None => false,
        }
    }

    /// What the player knows of the tile.
    pub fn state(&self, x: i32, y: i32) -> (r: Visibility)
        requires
            self.wf(),
        ensures
            r == if self.sees(x as int, y as int) {
                Visibility::Visible
            } else if self.seen(x as int, y as int) {
                Visibility::Explored
            } else {
                Visibility::Unexplored
            },
    {
        if self.visible(x, y) {
            Visibility::Visible
        } else if self.explored(x, y) {
            Visibility::Explored
        } else {
            Visibility::Unexplored
        }
    }

    /// True if any tile of a `kind` anchored at `(x, y)` is in sight.
    pub fn in_sight(&self, kind: u16, x: i32, y: i32) -> (r: bool)
        requires
            self.wf(),
            footprint_fits(x as int, y as int, kind_info(kind).footprint as int),
        ensures
            r == sight_of(self, kind, x as int, y as int),
    {
        let fp = info(kind).footprint as i32;
        let tiles = footprint_tiles(x, y, fp);
        let mut k: usize = 0;
        while k < tiles.len()
            invariant
                self.wf(),
                fp == kind_info(kind).footprint,
                footprint_fits(x as int, y as int, fp as int),
                k <= tiles@.len(),
                tiles@.len() == fp_side(fp as int) * fp_side(fp as int),
                forall|j: int| 0 <= j < tiles@.len() ==> (#[trigger] tiles@[j]).0 == footprint_tile(x as int, y as int, fp as int, j).0
                    && tiles@[j].1 == footprint_tile(x as int, y as int, fp as int, j).1,
                forall|tx: int, ty: int| in_footprint(x as int, y as int, fp as int, tx, ty)
                    && crate::nav::footprint_ordinal(x as int, y as int, fp as int, tx, ty) < k ==> !#[trigger] self.sees(tx, ty),
            decreases tiles.len() - k,
        {
            let t = tiles[k];
            proof {
                crate::nav::lemma_footprint_tile(x as int, y as int, fp as int, k as int);
            }
            if self.visible(t.0, t.1) {
                return true;
            }
            proof {
                assert forall|tx: int, ty: int| in_footprint(x as int, y as int, fp as int, tx, ty)
                    && crate::nav::footprint_ordinal(x as int, y as int, fp as int, tx, ty) < k + 1 implies !#[trigger] self.sees(tx, ty) by {
                    if crate::nav::footprint_ordinal(x as int, y as int, fp as int, tx, ty) == k {
                        crate::nav::lemma_ordinal_range(x as int, y as int, fp as int, tx, ty);
                    }
                }
            }
            k = k + 1;
        }
        proof {
            assert forall|tx: int, ty: int| in_footprint(x as int, y as int, fp as int, tx, ty) implies !#[trigger] self.sees(tx, ty) by {
                crate::nav::lemma_ordinal_range(x as int, y as int, fp as int, tx, ty);
            }
        }
        false
    }

    /// Position in the list of the memory at tile index `i`, if any.
    fn find(&self, i: u32) -> (r: Option<usize>)
        ensures
            r matches Some(k) ==> k < self.memo().len() && self.memo()[k as int].0 == i,
            r is None ==> forall|k: int| 0 <= k < self.memo().len() ==> (#[trigger] self.memo()[k]).0 != i,
    {
        let mut k: usize = 0;
        while k < self.remembered.len()
            invariant
                k <= self.memo().len(),
                forall|j: int| 0 <= j < k ==> (#[trigger] self.memo()[j]).0 != i,
            decreases self.remembered.len() - k,
        {
            if self.remembered[k].0 == i {
                return Some(k);
            }
            k = k + 1;
        }
        None
    }

    /// The building or node last seen anchored on the tile, if no part of
    /// it is in sight: what is in sight is not a memory.
    pub fn remembered(&self, x: i32, y: i32) -> (r: Option<Memory>)
        requires
            self.wf(),
            footprint_fits(x as int, y as int, 255),
        ensures
            r == if self.inside(x as int, y as int) {
                match self.memory_at(self.index(x as int, y as int)) {
                    Some(m) => if sight_of(self, m.kind, x as int, y as int) { None } else { Some(m) },
                    None => None,
                }
            } else {
                None
            },
    {
        let i = match self.idx(x, y) {
            Some(i) => i,
            None => {
                return None;
            },
        };
        match self.find(i as u32) {
            Some(k) => {
                let m = self.remembered[k].1;
                proof {
                    lemma_lookup_at(self.memo(), k as int);
                }
                if self.in_sight(m.kind, x, y) {
                    None
                } else {
                    Some(m)
                }
            },
            None => {
                proof {
                    let i = self.index(x as int, y as int);
                    if has_key(self.memo(), i) {
                        let q = choose|q: int| 0 <= q < self.memo().len() && #[trigger] self.memo()[q].0 == i;
                        assert(self.memo()[q].0 != i as u32);
                    }
                }
                None
            },
        }
    }

    /// Every remembered thing out of sight, with its anchor tile, in tile
    /// order.
    pub fn memories(&self) -> (r: Vec<((i32, i32), Memory)>)
        requires
            self.wf(),
            self.w() <= 46340,
            self.h() <= 46340,
        ensures
            r@ == memories_of(self, self.memo()),
    {
        let mut out: Vec<((i32, i32), Memory)> = Vec::new();
        let mut k: usize = 0;
        while k < self.remembered.len()
            invariant
                self.wf(),
                self.w() <= 46340,
                self.h() <= 46340,
                k <= self.memo().len(),
                out@ == memories_of(self, self.memo().take(k as int)),
            decreases self.remembered.len() - k,
        {
            let (i, m) = self.remembered[k];
            proof {
                assert(self.memo().take(k + 1).drop_last() =~= self.memo().take(k as int));
                assert(self.w() > 0) by (nonlinear_arith)
                    requires self.tiles() > i, i >= 0, self.tiles() == (if self.w() < 0 { 0 } else { self.w() }) * (if self.h() < 0 { 0 } else { self.h() });
                crate::nav::lemma_split_index(i as int, self.w(), if self.h() < 0 { 0 } else { self.h() });
            }
            let x = i as i32 % self.width;
            let y = i as i32 / self.width;
            if !self.in_sight(m.kind, x, y) {
                out.push(((x, y), m));
            }
            proof {
                assert(out@ =~= memories_of(self, self.memo().take(k + 1)));
            }
            k = k + 1;
        }
        proof {
            assert(self.memo().take(k as int) =~= self.memo());
        }
        out
    }

    /// Tiles in sight now.
    pub fn visible_count(&self) -> (r: usize)
        requires
            self.wf(),
        ensures
            r == positive_count(self.observers(), self.tiles()),
    {
        let mut c: usize = 0;
        let mut i: usize = 0;
        while i < self.visibility.len()
            invariant
                i <= self.observers().len(),
                c == positive_count(self.observers(), i as int),
                c <= i,
            decreases self.visibility.len() - i,
        {
            if self.visibility[i] > 0 {
                c = c + 1;
            }
            i = i + 1;
        }
        c
    }

    /// Tiles ever seen.
    pub fn explored_count(&self) -> (r: usize)
        requires
            self.wf(),
        ensures
            r == bit_count(self.explored_bits(), self.tiles()),
    {
        let n = self.visibility.len();
        let mut c: usize = 0;
        let mut i: usize = 0;
        while i < n
            invariant
                self.wf(),
                n == self.tiles(),
                i <= n,
                c == bit_count(self.explored_bits(), i as int),
                c <= i,
            decreases n - i,
        {
            proof {
                assert(i / 64 < words_for(n as int));
            }
            if Self::bit_at(&self.explored, i) {
                c = c + 1;
            }
            i = i + 1;
        }
        c
    }

    /// Nobody sees anything until the next stamp.
    pub fn clear_visible(&mut self)
        requires
            old(self).wf(),
        ensures
            final(self).wf(),
            final(self).w() == old(self).w() && final(self).h() == old(self).h(),
            forall|i: int| 0 <= i < final(self).tiles() ==> #[trigger] final(self).observers()[i] == 0,
            final(self).explored_bits() == old(self).explored_bits(),
            final(self).memo() == old(self).memo(),
    {
        let n = self.visibility.len();
        self.visibility = crate::nav::filled(0u16, n);
    }

    /// One more observer of the tile: it is seen now, so it is explored,
    /// and what was remembered there is superseded by what is there. A tile
    /// off the map is ignored.
    pub fn see(&mut self, x: i32, y: i32)
        requires
            old(self).wf(),
        ensures
            final(self).wf(),
            final(self).w() == old(self).w() && final(self).h() == old(self).h(),
            !old(self).inside(x as int, y as int) ==> *final(self) == *old(self),
            old(self).inside(x as int, y as int) ==> {
                let i = old(self).index(x as int, y as int);
                &&& final(self).observers() == old(self).observers().update(i, old(self).observers()[i].saturating_add(1))
                &&& forall|j: int| 0 <= j < old(self).tiles() ==> #[trigger] bit(final(self).explored_bits(), j)
                    == (j == i || bit(old(self).explored_bits(), j))
                &&& forall|j: int| #[trigger] final(self).memory_at(j) == if j == i { None } else { old(self).memory_at(j) }
            },
    {
        let i = match self.idx(x, y) {
            Some(i) => i,
            None => {
                return;
            },
        };
        let ghost f0 = *self;
        let v = self.visibility[i].saturating_add(1);
        self.visibility.set(i, v);
        let word = i / 64;
        let b = (i % 64) as u64;
        let ew = self.explored[word] | (1u64 << b);
        self.explored.set(word, ew);
        proof {
            self.lemma_set_word(f0.explored_bits(), self.explored_bits(), i as int, f0.tiles());
        }
        let mw = self.marked[word];
        proof {
            lemma_test_bit(mw, b);
        }
        if mw & (1u64 << b) != 0 {
            self.marked.set(word, mw & !(1u64 << b));
            let k = match self.find(i as u32) {
                Some(k) => k,
                None => {
                    proof {
                        assert(bit(f0.marked_bits(), i as int));
                        let q = choose|q: int| 0 <= q < f0.memo().len() && #[trigger] f0.memo()[q].0 == i as int;
                        assert(f0.memo()[q].0 != i as u32);
                    }
                    return;
                },
            };
            self.remembered.remove(k);
            proof {
                assert(self.memo() =~= f0.memo().remove(k as int));
                lemma_remove_entry(f0.memo(), k as int);
                self.lemma_clear_word(f0.marked_bits(), self.marked_bits(), i as int, f0.tiles());
                assert forall|q: int| 0 <= q < self.memo().len() implies (#[trigger] self.memo()[q]).0 < f0.tiles() by {
                    let j = self.memo()[q].0 as int;
                    assert(self.memo()[q].0 == j);
                    assert(has_key(self.memo(), j));
                    assert(has_key(f0.memo(), j));
                    let p = choose|p: int| 0 <= p < f0.memo().len() && #[trigger] f0.memo()[p].0 == j;
                    assert(f0.memo()[p].0 < f0.tiles());
                }
            }
        } else {
            proof {
                assert(!bit(f0.marked_bits(), i as int));
                assert(!has_key(f0.memo(), i as int));
                assert forall|j: int| #[trigger] self.memory_at(j) == if j == i { None } else { f0.memory_at(j) } by {
                }
            }
        }
    }

    proof fn lemma_set_word(&self, w0: Seq<u64>, w1: Seq<u64>, i: int, n: int)
        requires
            0 <= i < n,
            w0.len() == words_for(n),
            w1 == w0.update(i / 64, w0[i / 64] | (1u64 << ((i % 64) as u64))),
        ensures
            forall|j: int| 0 <= j < 64 * words_for(n) ==> #[trigger] bit(w1, j) == (j == i || bit(w0, j)),
    {
        assert forall|j: int| 0 <= j < 64 * words_for(n) implies #[trigger] bit(w1, j) == (j == i || bit(w0, j)) by {
            if j / 64 == i / 64 {
                lemma_set_bit(w0[i / 64], (i % 64) as u64, (j % 64) as u64);
                if j % 64 == i % 64 {
                    lemma_same_word(j, i);
                }
            }
        }
    }

    proof fn lemma_clear_word(&self, w0: Seq<u64>, w1: Seq<u64>, i: int, n: int)
        requires
            0 <= i < n,
            w0.len() == words_for(n),
            w1 == w0.update(i / 64, w0[i / 64] & !(1u64 << ((i % 64) as u64))),
        ensures
            forall|j: int| 0 <= j < 64 * words_for(n) ==> #[trigger] bit(w1, j) == (j != i && bit(w0, j)),
    {
        assert forall|j: int| 0 <= j < 64 * words_for(n) implies #[trigger] bit(w1, j) == (j != i && bit(w0, j)) by {
            if j / 64 == i / 64 {
                lemma_clear_bit(w0[i / 64], (i % 64) as u64, (j % 64) as u64);
                if j % 64 == i % 64 {
                    lemma_same_word(j, i);
                }
            }
        }
    }

    /// Something static stands on a seen tile: remember it, replacing what
    /// was remembered there. A tile off the map is ignored.
    pub fn remember(&mut self, x: i32, y: i32, m: Memory)
        requires
            old(self).wf(),
        ensures
            final(self).wf(),
            final(self).w() == old(self).w() && final(self).h() == old(self).h(),
            final(self).observers() == old(self).observers(),
            final(self).explored_bits() == old(self).explored_bits(),
            !old(self).inside(x as int, y as int) ==> *final(self) == *old(self),
            old(self).inside(x as int, y as int) ==> forall|j: int| #[trigger] final(self).memory_at(j)
                == if j == old(self).index(x as int, y as int) { Some(m) } else { old(self).memory_at(j) },
    {
        let i = match self.idx(x, y) {
            Some(i) => i,
            None => {
                return;
            },
        };
        let ghost f0 = *self;
        let word = i / 64;
        let b = (i % 64) as u64;
        let mw = self.marked[word] | (1u64 << b);
        self.marked.set(word, mw);
        proof {
            self.lemma_set_word(f0.marked_bits(), self.marked_bits(), i as int, f0.tiles());
        }
        let key = i as u32;
        let mut at: usize = 0;
        while at < self.remembered.len() && self.remembered[at].0 < key
            invariant
                self.memo() == f0.memo(),
                at <= self.memo().len(),
                forall|q: int| 0 <= q < at ==> (#[trigger] self.memo()[q]).0 < key,
            decreases self.remembered.len() - at,
        {
            at = at + 1;
        }
        if at < self.remembered.len() && self.remembered[at].0 == key {
            self.remembered.set(at, (key, m));
        } else {
            self.remembered.insert(at, (key, m));
        }
        proof {
            assert(self.memo() =~= put_at(f0.memo(), at as int, key, m));
            lemma_put_entry(f0.memo(), at as int, key, m);
            assert forall|q: int| 0 <= q < self.memo().len() implies (#[trigger] self.memo()[q]).0 < f0.tiles() by {
                if self.memo()[q].0 != key {
                    let p = choose|p: int| 0 <= p < f0.memo().len() && self.memo()[q] == #[trigger] f0.memo()[p];
                    assert(f0.memo()[p].0 < f0.tiles());
                }
            }
        }
    }
}

/// The bytes of the remembered list: its length, then per entry the tile
/// index, kind and owner.
pub open spec fn memo_bytes(m: Seq<(u32, Memory)>) -> Seq<u8>
    decreases m.len(),
{
    if m.len() == 0 {
        Seq::empty()
    } else {
        memo_bytes(m.drop_last()) + le32(m.last().0) + le16(m.last().1.kind) + seq![m.last().1.owner]
    }
}

fn hash_memory(h: &mut StateHasher, i: u32, m: Memory)
    ensures
        final(h)@ == fnv(old(h)@, le32(i) + le16(m.kind) + seq![m.owner]),
{
    let ghost h0 = h@;
    h.write_u32(i);
    h.write_u16(m.kind);
    proof {
        lemma_fnv_append(h0, le32(i), le16(m.kind));
    }
    h.write_u8(m.owner);
    proof {
        lemma_fnv_append(h0, le32(i) + le16(m.kind), seq![m.owner]);
    }
}

proof fn lemma_memo_step(m: Seq<(u32, Memory)>, k: int)
    requires
        0 <= k < m.len(),
    ensures
        memo_bytes(m.take(k + 1)) == memo_bytes(m.take(k)) + (le32(m[k].0) + le16(m[k].1.kind) + seq![m[k].1.owner]),
{
    let t = m.take(k + 1);
    assert(t.drop_last() =~= m.take(k));
    assert(t.last() == m[k]);
    assert(memo_bytes(m.take(k)) + le32(m[k].0) + le16(m[k].1.kind) + seq![m[k].1.owner] =~= memo_bytes(m.take(k)) + (le32(
        m[k].0,
    ) + le16(m[k].1.kind) + seq![m[k].1.owner]));
}

impl HashState for Fog {
    /// The width, height, explored bits and memories; what is in sight now
    /// is derived and left out.
    open spec fn state_bytes(&self) -> Seq<u8> {
        le_i32(self.w() as i32) + le_i32(self.h() as i32) + seq_bytes(self.explored_bits()) + le64(self.memo().len() as u64)
            + memo_bytes(self.memo())
    }

    fn hash_state(&self, h: &mut StateHasher) {
        let ghost h0 = h@;
        h.write_i32(self.width);
        h.write_i32(self.height);
        h.write(&self.explored);
        h.write_u64(self.remembered.len() as u64);
        proof {
            lemma_fnv_append(h0, le_i32(self.width), le_i32(self.height));
            lemma_fnv_append(h0, le_i32(self.width) + le_i32(self.height), seq_bytes(self.explored_bits()));
            lemma_fnv_append(h0, le_i32(self.width) + le_i32(self.height) + seq_bytes(self.explored_bits()), le64(
                self.memo().len() as u64,
            ));
        }
        let ghost h1 = h@;
        let mut k: usize = 0;
        while k < self.remembered.len()
            invariant
                k <= self.memo().len(),
                h@ == fnv(h1, memo_bytes(self.memo().take(k as int))),
            decreases self.remembered.len() - k,
        {
            let (i, m) = self.remembered[k];
            hash_memory(h, i, m);
            proof {
                lemma_memo_step(self.memo(), k as int);
                lemma_fnv_append(h1, memo_bytes(self.memo().take(k as int)), le32(i) + le16(m.kind) + seq![m.owner]);
            }
            k = k + 1;
        }
        proof {
            assert(self.memo().take(k as int) =~= self.memo());
            lemma_fnv_append(h0, le_i32(self.width) + le_i32(self.height) + seq_bytes(self.explored_bits()) + le64(
                self.memo().len() as u64,
            ), memo_bytes(self.memo()));
        }
    }
}

/// `(dx, dy)` is in the sight disc of radius `r`.
pub open spec fn in_disc(r: int, dx: int, dy: int) -> bool {
    -r <= dx <= r && -r <= dy <= r && dx * dx + dy * dy <= r * r + r
}

/// The tiles within `radius` of a point, as offsets: a disc, in row order.
/// The radius is clamped to `0..=MAX_SIGHT`; an offset is in when its
/// squared length is at most `r² + r`.
pub fn stamp(radius: i32) -> (out: Vec<(i32, i32)>)
    ensures
        ({
            let r = if radius < 0 { 0 } else if radius > MAX_SIGHT { MAX_SIGHT as int } else { radius as int };
            &&& forall|k: int| 0 <= k < out@.len() ==> in_disc(r, (#[trigger] out@[k]).0 as int, out@[k].1 as int)
            &&& forall|dx: int, dy: int| #[trigger] in_disc(r, dx, dy) ==> out@.contains((dx as i32, dy as i32))
            &&& forall|a: int, b: int| 0 <= a < b < out@.len() ==> crate::nav::scan_before((#[trigger] out@[a]).1 as int,
                out@[a].0 as int, (#[trigger] out@[b]).1 as int, out@[b].0 as int)
        }),
{
    let r = if radius < 0 { 0 } else if radius > MAX_SIGHT { MAX_SIGHT } else { radius };
    let mut out: Vec<(i32, i32)> = Vec::new();
    let mut dy: i32 = -r;
    while dy <= r
        invariant
            0 <= r <= 16,
            -r <= dy <= r + 1,
            forall|k: int| 0 <= k < out@.len() ==> in_disc(r as int, (#[trigger] out@[k]).0 as int, out@[k].1 as int)
                && out@[k].1 < dy,
            forall|dx: int, ey: int| #[trigger] in_disc(r as int, dx, ey) && ey < dy ==> out@.contains((dx as i32, ey as i32)),
            forall|a: int, b: int| 0 <= a < b < out@.len() ==> crate::nav::scan_before((#[trigger] out@[a]).1 as int,
                out@[a].0 as int, (#[trigger] out@[b]).1 as int, out@[b].0 as int),
        decreases r + 1 - dy,
    {
        let mut dx: i32 = -r;
        while dx <= r
            invariant
                0 <= r <= 16,
                -r <= dy <= r,
                -r <= dx <= r + 1,
                forall|k: int| 0 <= k < out@.len() ==> in_disc(r as int, (#[trigger] out@[k]).0 as int, out@[k].1 as int)
                    && crate::nav::scan_before(out@[k].1 as int, out@[k].0 as int, dy as int, dx as int),
                forall|ex: int, ey: int| #[trigger] in_disc(r as int, ex, ey) && crate::nav::scan_before(ey, ex, dy as int, dx as int)
                    ==> out@.contains((ex as i32, ey as i32)),
                forall|a: int, b: int| 0 <= a < b < out@.len() ==> crate::nav::scan_before((#[trigger] out@[a]).1 as int,
                    out@[a].0 as int, (#[trigger] out@[b]).1 as int, out@[b].0 as int),
            decreases r + 1 - dx,
        {
            proof {
                assert(0 <= dx * dx <= 256 && 0 <= dy * dy <= 256 && 0 <= r * r <= 256) by (nonlinear_arith)
                    requires -16 <= dx <= 16, -16 <= dy <= 16, 0 <= r <= 16;
            }
            if dx * dx + dy * dy <= r * r + r {
                let ghost o0 = out@;
                out.push((dx, dy));
                proof {
                    assert forall|ex: int, ey: int| #[trigger] in_disc(r as int, ex, ey) && crate::nav::scan_before(ey, ex, dy as int, dx + 1)
                        implies out@.contains((ex as i32, ey as i32)) by {
                        if ey == dy && ex == dx {
                            assert(out@[out@.len() - 1] == (ex as i32, ey as i32));
                        } else {
                            let q = choose|q: int| 0 <= q < o0.len() && o0[q] == (ex as i32, ey as i32);
                            assert(out@[q] == o0[q]);
                        }
                    }
                }
            }
            dx = dx + 1;
        }
        proof {
            assert forall|ex: int, ey: int| #[trigger] in_disc(r as int, ex, ey) && ey < dy + 1
                implies out@.contains((ex as i32, ey as i32)) by {
                assert(crate::nav::scan_before(ey, ex, dy as int, dx as int));
            }
        }
        dy = dy + 1;
    }
    out
}

} // verus!
