//! Group shapes: where each unit of a group stands when the group is sent
//! somewhere together.
//!
//! A shape is a list of offsets in quarter tiles, across and back from the
//! group's front centre, so half-tile staggers stay in integers. The
//! simulation rotates them to face the way the group walks and hands each
//! unit the slot nearest its own side, so a line does not cross itself
//! forming up.

use vstd::prelude::*;
use crate::fx::{Fx, sat, round_div, mul_raw};
use crate::orders::Formation;
use crate::vec2::{Vec2Fx, vlen, vscale, len_raw, vadd, vsub};

verus! {

/// Quarter tiles between neighbours in a rank.
pub const ACROSS: i32 = 4;
/// Quarter tiles between ranks.
pub const BACK: i32 = 4;
/// The gap between a flank's two wings, in quarter tiles.
pub const WING_GAP: i32 = 12;

/// The largest group a shape is laid out for.
pub const MAX_GROUP: usize = 300_000_000;

/// Integer square root, rounded up, and at least one.
pub open spec fn is_sqrt_ceil(n: int, r: int) -> bool {
    &&& r >= 1
    &&& r * r >= n
    &&& r == 1 || (r - 1) * (r - 1) < n
}

/// The value, or one if it is smaller.
pub open spec fn at_least_one(v: int) -> int {
    if v < 1 { 1 } else { v }
}

/// Integer square root, rounded up; at least one.
fn sqrt_ceil(n: usize) -> (r: usize)
    requires
        n <= 2 * MAX_GROUP,
    ensures
        is_sqrt_ceil(n as int, r as int),
        r <= 24_495,
{
    let mut r: usize = 0;
    while r * r < n
        invariant
            r <= 24_495,
            r * r <= 600_005_025,
            r == 0 || (r - 1) * (r - 1) < n,
            n <= 2 * MAX_GROUP,
        decreases 24_496 - r,
    {
        proof {
            assert(r < 24_495) by (nonlinear_arith)
                requires r * r < n, n <= 600_000_000, r <= 24_495;
            assert((r + 1) * (r + 1) <= 600_005_025) by (nonlinear_arith)
                requires r < 24_495;
        }
        r = r + 1;
    }
    if r < 1 { 1 } else { r }
}

/// Slot `k` of `n` laid out in ranks `width` wide, front rank first, each
/// rank centred; `stagger` shifts odd ranks by half a step and spaces ranks
/// half as far again; `shift` moves the whole block across.
pub open spec fn rank_slot(n: int, width: int, stagger: bool, shift: int, k: int) -> (int, int) {
    let row = k / width;
    let c = k % width;
    let in_row = if n - row * width < width { n - row * width } else { width };
    let left = -(in_row - 1) * ACROSS / 2;
    let half = if stagger && row % 2 == 1 { ACROSS / 2 } else { 0 };
    let back: int = if stagger { BACK * 3 / 2 } else { BACK as int };
    (shift + left + c * ACROSS + half, row * back)
}

/// Two slots of one block of ranks are never the same slot.
proof fn lemma_rank_slots_distinct(n: int, width: int, stagger: bool, shift: int, a: int, b: int)
    requires
        1 <= width,
        0 <= a < b < n,
    ensures
        rank_slot(n, width, stagger, shift, a) != rank_slot(n, width, stagger, shift, b),
{
    let ra = a / width;
    let rb = b / width;
    let ca = a % width;
    let cb = b % width;
    vstd::arithmetic::div_mod::lemma_fundamental_div_mod(a, width);
    vstd::arithmetic::div_mod::lemma_fundamental_div_mod(b, width);
    let back: int = if stagger { BACK * 3 / 2 } else { BACK as int };
    if ra != rb {
        assert(ra * back != rb * back) by (nonlinear_arith)
            requires ra != rb, back > 0;
    } else {
        assert(width * ra == width * rb);
        assert(ca != cb);
    }
}

/// Every slot of a block of unstaggered ranks lies within `(width - 1)`
/// half steps of the block's centre line.
proof fn lemma_rank_slot_across(n: int, width: int, shift: int, k: int)
    requires
        1 <= width,
        0 <= k < n,
    ensures
        shift - (width - 1) * 2 <= rank_slot(n, width, false, shift, k).0 <= shift + (width - 1) * 2,
{
    let row = k / width;
    let c = k % width;
    vstd::arithmetic::div_mod::lemma_fundamental_div_mod(k, width);
    let in_row = if n - row * width < width { n - row * width } else { width };
    assert(c < in_row);
    assert(-(in_row - 1) * ACROSS / 2 == -(in_row - 1) * 2);
}

/// The spacing between ranks.
pub open spec fn rank_gap(stagger: bool) -> int {
    if stagger { BACK * 3 / 2 } else { BACK as int }
}

/// Consecutive slots of a block of ranks: the later one is never in front
/// of the earlier; in the same rank it stands one step (`ACROSS` quarter
/// tiles) to the right, and otherwise it opens the next rank, one rank gap
/// further back. The first slot is in the front rank, at depth zero.
pub proof fn lemma_rank_order(n: int, width: int, stagger: bool, shift: int, k: int)
    requires
        1 <= width,
        0 <= k,
        k + 1 < n,
    ensures
        rank_slot(n, width, stagger, shift, 0).1 == 0,
        rank_slot(n, width, stagger, shift, k).1 <= rank_slot(n, width, stagger, shift, k + 1).1,
        rank_slot(n, width, stagger, shift, k).1 == rank_slot(n, width, stagger, shift, k + 1).1
            ==> rank_slot(n, width, stagger, shift, k + 1).0 == rank_slot(n, width, stagger, shift, k).0 + ACROSS,
        rank_slot(n, width, stagger, shift, k).1 != rank_slot(n, width, stagger, shift, k + 1).1
            ==> rank_slot(n, width, stagger, shift, k + 1).1 == rank_slot(n, width, stagger, shift, k).1 + rank_gap(stagger),
{
    let row = k / width;
    let c = k % width;
    vstd::arithmetic::div_mod::lemma_fundamental_div_mod(k, width);
    assert(0int / width == 0) by (nonlinear_arith) requires width >= 1;
    let back = rank_gap(stagger);
    assert(back > 0);
    if c + 1 < width {
        assert(k + 1 == row * width + (c + 1)) by (nonlinear_arith)
            requires k == width * row + c;
        vstd::arithmetic::div_mod::lemma_fundamental_div_mod_converse(k + 1, width, row, c + 1);
    } else {
        assert(k + 1 == (row + 1) * width + 0) by (nonlinear_arith)
            requires k == width * row + c, c + 1 == width;
        vstd::arithmetic::div_mod::lemma_fundamental_div_mod_converse(k + 1, width, row + 1, 0);
        assert((row + 1) * back == row * back + back) by (nonlinear_arith);
    }
}

/// Each rank of an unstaggered block, and the front rank of any block, is
/// centred on `shift`: its first and last slots lie equally far to either
/// side. A staggered rank behind the front is either centred or half a step
/// to the right.
pub proof fn lemma_rank_centred(n: int, width: int, stagger: bool, shift: int, a: int, b: int)
    requires
        1 <= width,
        0 <= a <= b < n,
        a == 0 || rank_slot(n, width, stagger, shift, a - 1).1 != rank_slot(n, width, stagger, shift, a).1,
        b == n - 1 || rank_slot(n, width, stagger, shift, b + 1).1 != rank_slot(n, width, stagger, shift, b).1,
        rank_slot(n, width, stagger, shift, a).1 == rank_slot(n, width, stagger, shift, b).1,
    ensures
        !stagger || rank_slot(n, width, stagger, shift, a).1 == 0 ==> rank_slot(n, width, stagger, shift, a).0
            + rank_slot(n, width, stagger, shift, b).0 == 2 * shift,
        rank_slot(n, width, stagger, shift, a).0 + rank_slot(n, width, stagger, shift, b).0 == 2 * shift
            || rank_slot(n, width, stagger, shift, a).0 + rank_slot(n, width, stagger, shift, b).0 == 2 * shift + ACROSS,
{
    let back = rank_gap(stagger);
    vstd::arithmetic::div_mod::lemma_fundamental_div_mod(a, width);
    vstd::arithmetic::div_mod::lemma_fundamental_div_mod(b, width);
    let ra = a / width;
    let rb = b / width;
    assert(ra == rb) by {
        if ra != rb {
            assert(ra * back != rb * back) by (nonlinear_arith)
                requires ra != rb, back > 0;
        }
    }
    let row = ra;
    let in_row = if n - row * width < width { n - row * width } else { width };
    // `a` opens its rank.
    if a % width != 0 {
        lemma_rank_order(n, width, stagger, shift, a - 1);
        assert(a - 1 == row * width + (a % width - 1)) by (nonlinear_arith)
            requires a == width * row + a % width;
        vstd::arithmetic::div_mod::lemma_fundamental_div_mod_converse(a - 1, width, row, a % width - 1);
        assert(false);
    }
    // `b` closes its rank.
    if b % width != in_row - 1 {
        assert(width * row == row * width) by (nonlinear_arith);
        assert(b % width < in_row - 1);
        assert(b + 1 == row * width + (b % width + 1)) by (nonlinear_arith)
            requires b == width * row + b % width;
        vstd::arithmetic::div_mod::lemma_fundamental_div_mod_converse(b + 1, width, row, b % width + 1);
        assert(b + 1 < n);
        assert(false);
    }
    assert(-(in_row - 1) * ACROSS / 2 == -(in_row - 1) * 2);
    if rank_slot(n, width, stagger, shift, a).1 == 0 {
        assert(row * back == 0);
        assert(row == 0) by (nonlinear_arith) requires row * back == 0, back > 0;
    }
}

/// Consecutive slots `s[k]`, `s[k + 1]` stand in ranks `gap` apart: the
/// front rank at depth zero, the later slot never in front of the earlier;
/// within one rank it stands one step (`ACROSS` quarter tiles) to the
/// right, and otherwise it opens the next rank, `gap` further back.
#[verifier::opaque]
pub open spec fn in_ranks(s: Seq<(i32, i32)>, gap: int) -> bool {
    &&& s.len() > 0 ==> s[0].1 == 0
    &&& forall|k: int| #![trigger s[k], s[k + 1]] 0 <= k && k + 1 < s.len() ==> s[k].1 <= s[k + 1].1
        && (s[k].1 == s[k + 1].1 ==> s[k + 1].0 == s[k].0 + ACROSS)
        && (s[k].1 != s[k + 1].1 ==> s[k + 1].1 == s[k].1 + gap)
}

/// Slot `a` opens a rank of `s` and slot `b` closes the same rank.
pub open spec fn rank_ends(s: Seq<(i32, i32)>, a: int, b: int) -> bool {
    &&& 0 <= a <= b < s.len()
    &&& (a == 0 || s[a - 1].1 != s[a].1)
    &&& (b == s.len() - 1 || s[b + 1].1 != s[b].1)
    &&& s[a].1 == s[b].1
}

/// The ranks of `s` are centred on `mid`: the first and last slots of a
/// rank lie equally far either side of it; with `all` false that holds of
/// the front rank, and each other rank is centred or half a step right.
#[verifier::opaque]
pub open spec fn centred(s: Seq<(i32, i32)>, mid: int, all: bool) -> bool {
    forall|a: int, b: int| #![trigger s[a], s[b]] rank_ends(s, a, b) ==> {
        ||| s[a].0 + s[b].0 == 2 * mid
        ||| !all && s[a].1 != 0 && s[a].0 + s[b].0 == 2 * mid + ACROSS
    }
}

/// Slots laid out as [`rank_slot`] gives them stand in centred ranks.
proof fn lemma_rank_laws(s: Seq<(i32, i32)>, n: int, width: int, stagger: bool, shift: int)
    requires
        1 <= width,
        s.len() == n,
        forall|k: int| 0 <= k < n ==> (#[trigger] s[k]).0 == rank_slot(n, width, stagger, shift, k).0
            && s[k].1 == rank_slot(n, width, stagger, shift, k).1,
    ensures
        in_ranks(s, rank_gap(stagger)),
        centred(s, shift, !stagger),
{
    reveal(in_ranks);
    reveal(centred);
    if n > 1 {
        lemma_rank_order(n, width, stagger, shift, 0);
    } else if n == 1 {
        assert(0int / width == 0) by (nonlinear_arith) requires width >= 1;
    }
    assert forall|k: int| #![trigger s[k], s[k + 1]] 0 <= k && k + 1 < s.len() implies s[k].1 <= s[k + 1].1
        && (s[k].1 == s[k + 1].1 ==> s[k + 1].0 == s[k].0 + ACROSS)
        && (s[k].1 != s[k + 1].1 ==> s[k + 1].1 == s[k].1 + rank_gap(stagger)) by {
        lemma_rank_order(n, width, stagger, shift, k);
    }
    assert forall|a: int, b: int| #![trigger s[a], s[b]] rank_ends(s, a, b) implies {
        ||| s[a].0 + s[b].0 == 2 * shift
        ||| !!stagger && s[a].1 != 0 && s[a].0 + s[b].0 == 2 * shift + ACROSS
    } by {
        if a > 0 {
            assert(s[a - 1].1 == rank_slot(n, width, stagger, shift, a - 1).1);
        }
        if b < n - 1 {
            assert(s[b + 1].1 == rank_slot(n, width, stagger, shift, b + 1).1);
        }
        lemma_rank_centred(n, width, stagger, shift, a, b);
    }
}

/// `n` slots in ranks `width` wide (at least one), front rank first, each
/// rank centred.
#[verifier::spinoff_prover]
#[verifier::rlimit(60)]
fn ranks(n: usize, width: usize, stagger: bool, shift: i32) -> (r: Vec<(i32, i32)>)
    requires
        n <= MAX_GROUP,
        width <= 24_495,
        -100_000 <= shift <= 100_000,
    ensures
        r@.len() == n,
        forall|k: int| 0 <= k < n ==> (#[trigger] r@[k]).0 == rank_slot(n as int, if width < 1 { 1 } else { width as int }, stagger, shift as int, k).0
            && r@[k].1 == rank_slot(n as int, if width < 1 { 1 } else { width as int }, stagger, shift as int, k).1,
        in_ranks(r@, rank_gap(stagger)),
        centred(r@, shift as int, !stagger),
{
    let width = if width < 1 { 1 } else { width };
    let mut out: Vec<(i32, i32)> = Vec::new();
    let mut row: i32 = 0;
    while out.len() < n
        invariant
            n <= MAX_GROUP,
            1 <= width <= 24_495,
            -100_000 <= shift <= 100_000,
            out@.len() <= n,
            out@.len() < n ==> out@.len() == row * width,
            0 <= row <= n,
            forall|k: int| 0 <= k < out@.len() ==> (#[trigger] out@[k]).0 == rank_slot(n as int, width as int, stagger, shift as int, k).0
                && out@[k].1 == rank_slot(n as int, width as int, stagger, shift as int, k).1,
        decreases n - out@.len(),
    {
        let in_row = if n - out.len() < width { n - out.len() } else { width };
        let left = -(in_row as i32 - 1) * ACROSS / 2;
        let half = if stagger && row % 2 == 1 { ACROSS / 2 } else { 0 };
        let back = if stagger { BACK * 3 / 2 } else { BACK };
        proof {
            assert(row <= n) by (nonlinear_arith)
                requires out@.len() == row * width, width >= 1, out@.len() <= n, row >= 0;
            assert(row * back <= 1_800_000_000) by (nonlinear_arith)
                requires row <= 300_000_000, 0 <= back <= 6;
        }
        let base = out.len();
        let mut c: usize = 0;
        while c < in_row
            invariant
                n <= MAX_GROUP,
                1 <= width <= 24_495,
                -100_000 <= shift <= 100_000,
                base == row * width,
                base < n,
                0 <= row <= n,
                in_row == (if n - row * width < width { n - row * width } else { width as int }),
                left == -(in_row - 1) * ACROSS / 2,
                half == (if stagger && row % 2 == 1 { ACROSS / 2 } else { 0 }),
                back == (if stagger { BACK * 3 / 2 } else { BACK as int }),
                row * back <= 1_800_000_000,
                c <= in_row,
                out@.len() == base + c,
                forall|k: int| 0 <= k < out@.len() ==> (#[trigger] out@[k]).0 == rank_slot(n as int, width as int, stagger, shift as int, k).0
                    && out@[k].1 == rank_slot(n as int, width as int, stagger, shift as int, k).1,
            decreases in_row - c,
        {
            proof {
                let k = base + c;
                vstd::arithmetic::div_mod::lemma_fundamental_div_mod_converse(k as int, width as int, row as int, c as int);
            }
            out.push((shift + left + c as i32 * ACROSS + half, row * back));
            c = c + 1;
        }
        proof {
            if out@.len() < n {
                assert(in_row == width);
                assert(out@.len() == (row + 1) * width) by (nonlinear_arith)
                    requires out@.len() == row * width + in_row, in_row == width;
                assert(row + 1 <= n) by (nonlinear_arith)
                    requires out@.len() == (row + 1) * width, width >= 1, out@.len() < n;
            }
        }
        if out.len() < n {
            row = row + 1;
        }
    }
    proof {
        lemma_rank_laws(out@, n as int, width as int, stagger, shift as int);
    }
    out
}

/// The slots of `formation` for `n` units, in quarter tiles `(across,
/// back)`, front rank first and left to right within a rank. No formation
/// gives no slots: the caller spreads the group over the ground instead.
/// A line and a staggered block are `√(2n)` wide (at most 12), a box `√n`;
/// a flank is two boxes side by side with a gap between.
#[verifier::spinoff_prover]
#[verifier::rlimit(40)]
pub fn offsets(formation: Formation, n: usize) -> (r: Vec<(i32, i32)>)
    requires
        n <= MAX_GROUP,
    ensures
        formation == Formation::Spread ==> r@.len() == 0,
        formation != Formation::Spread ==> r@.len() == n,
        forall|a: int, b: int| 0 <= a < b < r@.len() ==> r@[a] != r@[b],
        formation == Formation::Line || formation == Formation::Staggered ==> exists|w: int| {
            &&& #[trigger] is_sqrt_ceil(2 * n, w)
            &&& forall|k: int| 0 <= k < n ==> (#[trigger] r@[k]).0 == rank_slot(n as int, if w < 12 { w } else { 12 },
                formation == Formation::Staggered, 0, k).0 && r@[k].1 == rank_slot(n as int, if w < 12 { w } else { 12 },
                formation == Formation::Staggered, 0, k).1
        },
        formation == Formation::Box ==> exists|w: int| {
            &&& #[trigger] is_sqrt_ceil(n as int, w)
            &&& forall|k: int| 0 <= k < n ==> (#[trigger] r@[k]).0 == rank_slot(n as int, w, false, 0, k).0
                && r@[k].1 == rank_slot(n as int, w, false, 0, k).1
        },
        formation == Formation::Line || formation == Formation::Box ==> in_ranks(r@, BACK as int) && centred(r@, 0, true),
        formation == Formation::Staggered ==> in_ranks(r@, BACK * 3 / 2) && centred(r@, 0, false),
        formation == Formation::Flank ==> in_ranks(r@.take((n + 1) / 2), BACK as int) && in_ranks(r@.skip((n + 1) / 2), BACK as int),
        formation == Formation::Flank ==> forall|a: int, b: int| 0 <= a < (n + 1) / 2 <= b < n ==> (#[trigger] r@[a]).0 < (#[trigger] r@[b]).0,
        formation == Formation::Flank ==> exists|w: int| {
            let left_n = (n + 1) / 2;
            let shift = (w - 1) * ACROSS / 2 + WING_GAP / 2;
            &&& #[trigger] is_sqrt_ceil(at_least_one((n + 1) / 2), w)
            &&& forall|k: int| 0 <= k < left_n ==> (#[trigger] r@[k]).0 == rank_slot(left_n as int, w, false, -shift, k).0
                && r@[k].1 == rank_slot(left_n as int, w, false, -shift, k).1
            &&& forall|k: int| left_n <= k < n ==> (#[trigger] r@[k]).0 == rank_slot(n - left_n, w, false, shift, k - left_n).0
                && r@[k].1 == rank_slot(n - left_n, w, false, shift, k - left_n).1
        },
{
    match formation {
        Formation::Spread => Vec::new(),
        Formation::Line | Formation::Staggered => {
            let s = sqrt_ceil(n * 2);
            let w = if s < 12 { s } else { 12 };
            let r = ranks(n, w, formation == Formation::Staggered, 0);
            proof {
                assert(is_sqrt_ceil(2 * n, s as int));
                assert forall|a: int, b: int| 0 <= a < b < r@.len() implies r@[a] != r@[b] by {
                    lemma_rank_slots_distinct(n as int, w as int, formation == Formation::Staggered, 0, a, b);
                }
            }
            r
        },
        Formation::Box => {
            let w = sqrt_ceil(n);
            let r = ranks(n, w, false, 0);
            proof {
                assert(is_sqrt_ceil(n as int, w as int));
                assert forall|a: int, b: int| 0 <= a < b < r@.len() implies r@[a] != r@[b] by {
                    lemma_rank_slots_distinct(n as int, w as int, false, 0, a, b);
                }
            }
            r
        },
        Formation::Flank => {
            let left_n = n - n / 2;
            let right_n = n - left_n;
            let w = sqrt_ceil(if left_n < 1 { 1 } else { left_n });
            let half_wing = (w as i32 - 1) * ACROSS / 2;
            let shift = half_wing + WING_GAP / 2;
            let mut out = ranks(left_n, w, false, -shift);
            let right = ranks(right_n, w, false, shift);
            let ghost lo = out@;
            let mut k: usize = 0;
            while k < right.len()
                invariant
                    k <= right@.len(),
                    out@.len() == lo.len() + k,
                    forall|j: int| 0 <= j < lo.len() ==> #[trigger] out@[j] == lo[j],
                    forall|j: int| 0 <= j < k ==> #[trigger] out@[lo.len() + j] == right@[j],
                decreases right.len() - k,
            {
                out.push(right[k]);
                k = k + 1;
            }
            proof {
                assert(left_n == (n + 1) / 2);
                assert(is_sqrt_ceil(at_least_one(left_n as int), w as int));
                assert forall|j: int| left_n <= j < n implies (#[trigger] out@[j]).0 == rank_slot(n - left_n, w as int, false, shift as int, j - left_n).0
                    && out@[j].1 == rank_slot(n - left_n, w as int, false, shift as int, j - left_n).1 by {
                    assert(out@[lo.len() + (j - left_n)] == right@[j - left_n]);
                }
                assert(shift == (w - 1) * 2 + 6);
                assert(out@.take(left_n as int) =~= lo);
                assert(out@.skip(left_n as int) =~= right@);
                assert forall|a: int, b: int| 0 <= a < (n + 1) / 2 <= b < n implies (#[trigger] out@[a]).0 < (#[trigger] out@[b]).0 by {
                    lemma_rank_slot_across(left_n as int, w as int, -shift, a);
                    lemma_rank_slot_across(right_n as int, w as int, shift as int, b - left_n);
                    assert(out@[a] == lo[a]);
                    assert(out@[b] == right@[b - left_n]);
                }
                assert forall|a: int, b: int| 0 <= a < b < out@.len() implies out@[a] != out@[b] by {
                    if b < left_n {
                        lemma_rank_slots_distinct(left_n as int, w as int, false, -shift, a, b);
                        assert(out@[a] == lo[a] && out@[b] == lo[b]);
                    } else if a >= left_n {
                        lemma_rank_slots_distinct(right_n as int, w as int, false, shift as int, a - left_n, b - left_n);
                        assert(out@[a] == right@[a - left_n]);
                        assert(out@[b] == right@[b - left_n]);
                    } else {
                        lemma_rank_slot_across(left_n as int, w as int, -shift, a);
                        lemma_rank_slot_across(right_n as int, w as int, shift as int, b - left_n);
                        assert(out@[a] == lo[a]);
                        assert(out@[b] == right@[b - left_n]);
                    }
                }
            }
            out
        },
    }
}

/// The way a group faces when sent along `dir`: its direction scaled to
/// unit length, or straight down the map when it has none.
pub open spec fn facing(dir: Vec2Fx) -> Vec2Fx {
    if len_raw(dir.x.0 as int, dir.y.0 as int) == 0 {
        Vec2Fx { x: Fx(0), y: Fx(65536) }
    } else {
        vscale(dir, 65536, vlen(dir))
    }
}

/// The group's right hand as it walks `ahead`.
pub open spec fn across_of(ahead: Vec2Fx) -> Vec2Fx {
    Vec2Fx { x: Fx(sat(-ahead.y.0) as i32), y: ahead.x }
}

/// A quarter-tile count as a value.
pub open spec fn quarters(v: int) -> Fx {
    Fx(sat(round_div(v * 65536, 4)) as i32)
}

/// Where the slot `(a, b)` stands: `a` quarters across to the right of
/// `front`, `b` quarters behind it.
pub open spec fn slot_point(front: Vec2Fx, ahead: Vec2Fx, a: int, b: int) -> Vec2Fx {
    vsub(vadd(front, times(across_of(ahead), quarters(a))), times(ahead, quarters(b)))
}

/// A vector with both components multiplied by a value, saturated.
pub open spec fn times(v: Vec2Fx, s: Fx) -> Vec2Fx {
    Vec2Fx { x: Fx(mul_raw(v.x.0 as int, s.0 as int) as i32), y: Fx(mul_raw(v.y.0 as int, s.0 as int) as i32) }
}

fn face(dir: Vec2Fx) -> (r: Vec2Fx)
    ensures
        r == facing(dir),
{
    if dir.length().is_zero() {
        Vec2Fx::new(Fx::ZERO(), Fx::ONE())
    } else {
        dir.normalized_or_zero()
    }
}

/// The slots in the world: `offsets` rotated to face `dir` (which need not
/// be unit length) and placed with the front centre at `front`.
pub fn place(front: Vec2Fx, dir: Vec2Fx, offsets: &[(i32, i32)]) -> (r: Vec<Vec2Fx>)
    ensures
        r@.len() == offsets@.len(),
        forall|k: int| 0 <= k < r@.len() ==> #[trigger] r@[k] == slot_point(front, facing(dir), offsets@[k].0 as int,
            offsets@[k].1 as int),
{
    let ahead = face(dir);
    let across = Vec2Fx::new(core::ops::Neg::neg(ahead.y), ahead.x);
    let mut out: Vec<Vec2Fx> = Vec::new();
    let mut k: usize = 0;
    while k < offsets.len()
        invariant
            ahead == facing(dir),
            across == across_of(ahead),
            k <= offsets@.len(),
            out@.len() == k,
            forall|j: int| 0 <= j < k ==> #[trigger] out@[j] == slot_point(front, facing(dir), offsets@[j].0 as int,
                offsets@[j].1 as int),
        decreases offsets.len() - k,
    {
        let (oa, ob) = offsets[k];
        let a = Fx::from_ratio(oa, 4);
        let b = Fx::from_ratio(ob, 4);
        out.push(front + across * a - ahead * b);
        k = k + 1;
    }
    out
}

/// The order key of a unit: front-most first (largest distance along the
/// walk), then left to right (distance across), then by index.
pub open spec fn unit_before(a_along: int, a_across: int, a: int, b_along: int, b_across: int, b: int) -> bool {
    a_along > b_along || (a_along == b_along && (a_across < b_across || (a_across == b_across && a < b)))
}

/// Each position's distance along `axis`, as raw values.
pub open spec fn keys_along(positions: Seq<Vec2Fx>, axis: Vec2Fx) -> Seq<i32> {
    Seq::new(positions.len(), |u: int| sat((positions[u].x.0 * axis.x.0 + positions[u].y.0 * axis.y.0 + 32768) / 65536) as i32)
}

/// How many units come before unit `u` in that order, counting the
/// first `m` units.
pub open spec fn rank_of(along: Seq<i32>, across: Seq<i32>, u: int, m: int) -> nat
    decreases m,
{
    if m <= 0 {
        0
    } else {
        rank_of(along, across, u, m - 1) + if unit_before(along[m - 1] as int, across[m - 1] as int, m - 1,
            along[u] as int, across[u] as int, u) { 1nat } else { 0nat }
    }
}

/// Which unit takes which slot. Units are ordered front-most first, then
/// left to right across the axis, ties by index; the `k`-th unit in that
/// order takes slot `k` (the last slot once they run out). Returns, for
/// each unit index, the slot index it takes.
pub fn assign(positions: &[Vec2Fx], dir: Vec2Fx, n_slots: usize) -> (r: Vec<usize>)
    ensures
        r@.len() == positions@.len(),
        forall|u: int| 0 <= u < positions@.len() ==> #[trigger] r@[u] as int == if rank_of(keys_along(positions@, facing(dir)),
            keys_along(positions@, across_of(facing(dir))), u, positions@.len() as int) < n_slots {
            rank_of(keys_along(positions@, facing(dir)), keys_along(positions@, across_of(facing(dir))), u,
                positions@.len() as int) as int
        } else if n_slots > 0 {
            n_slots - 1
        } else {
            0
        },
{
    let ahead = face(dir);
    let across = Vec2Fx::new(core::ops::Neg::neg(ahead.y), ahead.x);
    let n = positions.len();
    let mut along_v: Vec<i32> = Vec::new();
    let mut across_v: Vec<i32> = Vec::new();
    let mut k: usize = 0;
    while k < n
        invariant
            n == positions@.len(),
            ahead == facing(dir),
            across == across_of(ahead),
            k <= n,
            along_v@.len() == k,
            across_v@.len() == k,
            forall|u: int| 0 <= u < k ==> (#[trigger] along_v@[u]) as int == sat(
                (positions@[u].x.0 * ahead.x.0 + positions@[u].y.0 * ahead.y.0 + 32768) / 65536),
            forall|u: int| 0 <= u < k ==> (#[trigger] across_v@[u]) as int == sat((positions@[u].x.0 * across.x.0
                + positions@[u].y.0 * across.y.0 + 32768) / 65536),
        decreases n - k,
    {
        let p = positions[k];
        along_v.push(p.dot(ahead).raw());
        across_v.push(p.dot(across).raw());
        k = k + 1;
    }
    proof {
        assert forall|j: int| 0 <= j < n implies #[trigger] along_v@[j] == keys_along(positions@, facing(dir))[j] by {
        }
        assert forall|j: int| 0 <= j < n implies #[trigger] across_v@[j] == keys_along(positions@, across_of(facing(dir)))[j] by {
        }
        assert(along_v@ =~= keys_along(positions@, facing(dir)));
        assert(across_v@ =~= keys_along(positions@, across_of(facing(dir))));
    }
    let mut slot_of: Vec<usize> = Vec::new();
    let mut u: usize = 0;
    while u < n
        invariant
            along_v@ == keys_along(positions@, facing(dir)),
            across_v@ == keys_along(positions@, across_of(facing(dir))),
            n == positions@.len(),
            along_v@.len() == n,
            across_v@.len() == n,
            u <= n,
            slot_of@.len() == u,
            forall|j: int| 0 <= j < u ==> #[trigger] slot_of@[j] as int == if rank_of(along_v@, across_v@, j, n as int)
                < n_slots { rank_of(along_v@, across_v@, j, n as int) as int } else if n_slots > 0 { n_slots - 1 } else { 0 },
        decreases n - u,
    {
        let mut rank: usize = 0;
        let mut v: usize = 0;
        while v < n
            invariant
                n == positions@.len(),
                along_v@.len() == n,
                across_v@.len() == n,
                u < n,
                v <= n,
                rank == rank_of(along_v@, across_v@, u as int, v as int),
                rank <= v,
            decreases n - v,
        {
            let (a1, b1, a2, b2) = (along_v[v], across_v[v], along_v[u], across_v[u]);
            if a1 > a2 || (a1 == a2 && (b1 < b2 || (b1 == b2 && v < u))) {
                rank = rank + 1;
            }
            v = v + 1;
        }
        let last = if n_slots > 0 { n_slots - 1 } else { 0 };
        slot_of.push(if rank < last { rank } else { last });
        proof {
            if rank < n_slots && !(rank < last) {
                assert(rank == n_slots - 1);
            }
        }
        u = u + 1;
    }
    slot_of
}

} // verus!
