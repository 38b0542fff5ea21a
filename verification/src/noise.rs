//! Integer value noise for map generation.
//!
//! A lattice of random fixed-point values, bilinearly interpolated with a
//! smoothstep on the fractional part. No gradients, no floats — the same seed
//! is the same landscape on every machine.

use vstd::prelude::*;
use crate::fx::{Fx, sat, mul_raw, round_div};
use crate::rng::{Rng, xoshiro_next, out32};

verus! {

/// The generator words after `k` draws from `s`.
pub open spec fn words_after(s: Seq<u64>, k: nat) -> Seq<u64>
    decreases k,
{
    if k == 0 {
        s
    } else {
        xoshiro_next(words_after(s, (k - 1) as nat))
    }
}

/// The `k`-th lattice value drawn from words `s`: a unit draw.
pub open spec fn unit_draw(s: Seq<u64>, k: nat) -> int {
    out32(words_after(s, k)) as int / 65536
}

/// Raw `3t² − 2t³` in Q16.16, with each product rounded as [`Fx`] does.
pub open spec fn smoothstep_raw(t: int) -> int {
    mul_raw(mul_raw(t, t), sat(3 * 65536 - mul_raw(131072, t)))
}

/// Raw `a + (b - a) * t`, as [`Fx::lerp`] computes it.
pub open spec fn lerp_raw(a: int, b: int, t: int) -> int {
    sat(a + mul_raw(sat(b - a), t))
}

/// One octave of value noise over a tile grid.
pub struct ValueNoise {
    cols: usize,
    rows: usize,
    cell: i32,
    lattice: Vec<Fx>,
}

impl ValueNoise {
    /// The lattice is `cols × rows`, both at least one, with a positive cell.
    pub closed spec fn wf(&self) -> bool {
        &&& self.cols >= 1
        &&& self.rows >= 1
        &&& self.cell >= 1
        &&& self.lattice@.len() == self.cols * self.rows
        &&& self.cols * self.rows <= usize::MAX
    }

    /// Lattice columns.
    pub closed spec fn spec_cols(&self) -> int {
        self.cols as int
    }

    /// Lattice rows.
    pub closed spec fn spec_rows(&self) -> int {
        self.rows as int
    }

    /// Lattice spacing in tiles.
    pub closed spec fn spec_cell(&self) -> int {
        self.cell as int
    }

    /// The lattice value at a clamped lattice point, raw.
    pub closed spec fn node(&self, cx: int, cy: int) -> int {
        let x = if cx < self.cols - 1 { cx } else { self.cols - 1 };
        let y = if cy < self.rows - 1 { cy } else { self.rows - 1 };
        self.lattice@[y * self.cols + x].0 as int
    }

    /// Raw noise value at a tile, as [`ValueNoise::sample`] computes it.
    pub open spec fn sample_spec(&self, x0: int, y0: int) -> int {
        let x = if x0 < 0 { 0 } else { x0 };
        let y = if y0 < 0 { 0 } else { y0 };
        let c = self.spec_cell();
        let cx = x / c;
        let cy = y / c;
        let tx = smoothstep_raw(sat(round_div((x % c) * 65536, c)));
        let ty = smoothstep_raw(sat(round_div((y % c) * 65536, c)));
        let top = lerp_raw(self.node(cx, cy), self.node(cx + 1, cy), tx);
        let bottom = lerp_raw(self.node(cx, cy + 1), self.node(cx + 1, cy + 1), tx);
        lerp_raw(top, bottom, ty)
    }

    /// Noise covering `width × height` tiles with lattice spacing `cell`
    /// (at least 1): a lattice of `(width / cell + 2) × (height / cell + 2)`
    /// unit draws, row by row.
    pub fn new(rng: &mut Rng, width: i32, height: i32, cell: i32) -> (r: ValueNoise)
        requires
            0 <= width,
            0 <= height,
            old(rng).words().len() == 4,
            old(rng).room(
                (width as int / (if cell < 1 { 1 } else { cell as int }) + 2) * (height as int / (if cell
                    < 1 { 1 } else { cell as int }) + 2),
            ),
            (width as int / (if cell < 1 { 1 } else { cell as int }) + 2) * (height as int / (if cell < 1 {
                1
            } else {
                cell as int
            }) + 2) <= usize::MAX,
        ensures
            r.wf(),
            r.spec_cell() == if cell < 1 { 1 } else { cell as int },
            r.spec_cols() == width as int / r.spec_cell() + 2,
            r.spec_rows() == height as int / r.spec_cell() + 2,
            forall|cx: int, cy: int|
                0 <= cx < r.spec_cols() && 0 <= cy < r.spec_rows() ==> #[trigger] r.node(cx, cy)
                    == unit_draw(old(rng).words(), (cy * r.spec_cols() + cx) as nat),
            final(rng).words() == words_after(old(rng).words(), (r.spec_cols() * r.spec_rows()) as nat),
            final(rng).count() == old(rng).count() + r.spec_cols() * r.spec_rows(),
    {
        let cell = if cell < 1 { 1 } else { cell };
        let cols = (width as i64 / cell as i64 + 2) as usize;
        let rows = (height as i64 / cell as i64 + 2) as usize;
        let n = cols * rows;
        let mut lattice: Vec<Fx> = Vec::new();
        let ghost s0 = rng.words();
        let ghost c0 = rng.count();
        let mut k: usize = 0;
        while k < n
            invariant
                k <= n,
                n == cols * rows,
                lattice@.len() == k,
                rng.words() == words_after(s0, k as nat),
                rng.words().len() == 4,
                rng.count() == c0 + k,
                c0 + n <= u64::MAX,
                forall|j: int| 0 <= j < k ==> #[trigger] lattice@[j].0 == unit_draw(s0, j as nat),
            decreases n - k,
        {
            let v = rng.unit_fx();
            lattice.push(v);
            k = k + 1;
        }
        let r = ValueNoise { cols, rows, cell, lattice };
        assert forall|cx: int, cy: int|
            0 <= cx < r.spec_cols() && 0 <= cy < r.spec_rows() implies #[trigger] r.node(cx, cy)
                == unit_draw(s0, (cy * r.spec_cols() + cx) as nat) by {
            assert(0 <= cy * (cols as int) + cx < (cols as int) * (rows as int)) by (nonlinear_arith)
                requires 0 <= cx < cols, 0 <= cy < rows;
        }
        r
    }

    pub fn at(&self, cx: usize, cy: usize) -> (r: Fx)
        requires
            self.wf(),
        ensures
            r.0 as int == self.node(cx as int, cy as int),
    {
        let x = if cx < self.cols - 1 { cx } else { self.cols - 1 };
        let y = if cy < self.rows - 1 { cy } else { self.rows - 1 };
        proof {
            assert(0 <= y * (self.cols as int) + x < (self.cols as int) * (self.rows as int)) by (nonlinear_arith)
                requires 0 <= x < self.cols, 0 <= y < self.rows;
        }
        self.lattice[y * self.cols + x]
    }

    /// Value at a tile position. Positions outside the covered area clamp to
    /// the edge lattice.
    pub fn sample(&self, x: i32, y: i32) -> (r: Fx)
        requires
            self.wf(),
        ensures
            r.0 as int == self.sample_spec(x as int, y as int),
    {
        let x = if x < 0 { 0 } else { x };
        let y = if y < 0 { 0 } else { y };
        let cx = (x / self.cell) as usize;
        let cy = (y / self.cell) as usize;
        let tx = smoothstep(Fx::from_ratio(x % self.cell, self.cell));
        let ty = smoothstep(Fx::from_ratio(y % self.cell, self.cell));
        let top = Fx::lerp(self.at(cx, cy), self.at(cx + 1, cy), tx);
        let bottom = Fx::lerp(self.at(cx, cy + 1), self.at(cx + 1, cy + 1), tx);
        Fx::lerp(top, bottom, ty)
    }
}

/// `3t² − 2t³`, the classic ease.
pub fn smoothstep(t: Fx) -> (r: Fx)
    ensures
        r.0 as int == smoothstep_raw(t.0 as int),
{
    t * t * (Fx::from_int(3) - Fx::TWO() * t)
}

/// Two octaves of value noise summed: broad shape plus detail.
pub struct Fbm {
    coarse: ValueNoise,
    fine: ValueNoise,
}

impl Fbm {
    /// Both octaves are well formed.
    pub closed spec fn wf(&self) -> bool {
        self.coarse.wf() && self.fine.wf()
    }

    /// The coarse octave.
    pub closed spec fn spec_coarse(&self) -> ValueNoise {
        self.coarse
    }

    /// The fine octave.
    pub closed spec fn spec_fine(&self) -> ValueNoise {
        self.fine
    }

    /// Coarse lattice of `cell` tiles, fine lattice of `cell / 3` (at least 2),
    /// the coarse one drawn first.
    pub fn new(rng: &mut Rng, width: i32, height: i32, cell: i32) -> (r: Fbm)
        requires
            0 <= width <= 0x7fff,
            0 <= height <= 0x7fff,
            old(rng).words().len() == 4,
            old(rng).room(2 * (width + 2) * (height + 2)),
        ensures
            r.wf(),
            r.spec_coarse().spec_cell() == if cell < 1 { 1 } else { cell as int },
            r.spec_fine().spec_cell() == if cell / 3 < 2 { 2 } else { cell as int / 3 },
            r.spec_coarse().spec_cols() == width as int / r.spec_coarse().spec_cell() + 2,
            r.spec_coarse().spec_rows() == height as int / r.spec_coarse().spec_cell() + 2,
            r.spec_fine().spec_cols() == width as int / r.spec_fine().spec_cell() + 2,
            r.spec_fine().spec_rows() == height as int / r.spec_fine().spec_cell() + 2,
            forall|cx: int, cy: int|
                0 <= cx < r.spec_coarse().spec_cols() && 0 <= cy < r.spec_coarse().spec_rows() ==> #[trigger] r.spec_coarse().node(
                    cx,
                    cy,
                ) == unit_draw(old(rng).words(), (cy * r.spec_coarse().spec_cols() + cx) as nat),
            forall|cx: int, cy: int|
                0 <= cx < r.spec_fine().spec_cols() && 0 <= cy < r.spec_fine().spec_rows() ==> #[trigger] r.spec_fine().node(cx, cy)
                    == unit_draw(
                    words_after(old(rng).words(), (r.spec_coarse().spec_cols() * r.spec_coarse().spec_rows()) as nat),
                    (cy * r.spec_fine().spec_cols() + cx) as nat,
                ),
            final(rng).words() == words_after(
                words_after(old(rng).words(), (r.spec_coarse().spec_cols() * r.spec_coarse().spec_rows()) as nat),
                (r.spec_fine().spec_cols() * r.spec_fine().spec_rows()) as nat,
            ),
            final(rng).count() == old(rng).count() + r.spec_coarse().spec_cols() * r.spec_coarse().spec_rows()
                + r.spec_fine().spec_cols() * r.spec_fine().spec_rows(),
            final(rng).words().len() == 4,
            old(rng).count() <= final(rng).count() <= old(rng).count() + 2 * (width + 2) * (height + 2),
    {
        let c = if cell < 1 { 1 } else { cell };
        let f = if cell / 3 < 2 { 2 } else { cell / 3 };
        proof {
            lemma_lattice_size(width as int, height as int, c as int);
            lemma_lattice_size(width as int, height as int, f as int);
            assert(2 * (width + 2) * (height + 2) == 2 * ((width + 2) * (height + 2))) by (nonlinear_arith);
        }
        let coarse = ValueNoise::new(rng, width, height, cell);
        assert(coarse.spec_cols() * coarse.spec_rows() <= (width + 2) * (height + 2));
        let fine = ValueNoise::new(rng, width, height, f);
        assert(fine.spec_cols() * fine.spec_rows() <= (width + 2) * (height + 2));
        Fbm { coarse, fine }
    }

    /// Three parts coarse to one part fine.
    pub fn sample(&self, x: i32, y: i32) -> (r: Fx)
        requires
            self.wf(),
        ensures
            r.0 as int == sat(
                round_div(
                    sat(sat(self.spec_coarse().sample_spec(x as int, y as int) * 3)
                        + self.spec_fine().sample_spec(x as int, y as int)),
                    4,
                ),
            ),
    {
        (self.coarse.sample(x, y) * 3 + self.fine.sample(x, y)) / 4
    }
}

proof fn lemma_lattice_size(w: int, h: int, c: int)
    requires
        0 <= w <= 0x7fff,
        0 <= h <= 0x7fff,
        c >= 1,
    ensures
        (w / c + 2) * (h / c + 2) <= (w + 2) * (h + 2),
        (w + 2) * (h + 2) <= usize::MAX,
{
    assert(w / c <= w) by (nonlinear_arith)
        requires 0 <= w, c >= 1;
    assert(h / c <= h) by (nonlinear_arith)
        requires 0 <= h, c >= 1;
    assert((w / c + 2) * (h / c + 2) <= (w + 2) * (h + 2)) by (nonlinear_arith)
        requires 0 <= w / c <= w, 0 <= h / c <= h;
    assert((w + 2) * (h + 2) <= 0x8001 * 0x8001) by (nonlinear_arith)
        requires 0 <= w <= 0x7fff, 0 <= h <= 0x7fff;
}

} // verus!
