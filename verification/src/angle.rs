//! Angles as 16-bit binary angular measurement (BAM).
//!
//! A full turn is 65536 units, so wrap-around is free integer overflow and
//! there is no π to approximate. Zero points along +x and angles increase
//! toward +y. Sine and cosine come from a quarter-wave table with linear
//! interpolation — no `libm`, so no platform drift.

use vstd::prelude::*;
use core::ops::{Add, AddAssign, Neg, Sub, SubAssign};
use crate::fx::Fx;

verus! {

/// Steps in the quarter-wave table.
pub const QUARTER_STEPS: u32 = 64;

/// `round(65536 · sin(i · 90° / 64))` for `i` in `0..=64`.
pub const SIN_QUARTER: [i32; 65] = [
    0, 1608, 3216, 4821, 6424, 8022, 9616, 11204,
    12785, 14359, 15924, 17479, 19024, 20557, 22078, 23586,
    25080, 26558, 28020, 29466, 30893, 32303, 33692, 35062,
    36410, 37736, 39040, 40320, 41576, 42806, 44011, 45190,
    46341, 47464, 48559, 49624, 50660, 51665, 52639, 53581,
    54491, 55368, 56212, 57022, 57798, 58538, 59244, 59914,
    60547, 61145, 61705, 62228, 62714, 63162, 63572, 63944,
    64277, 64571, 64827, 65043, 65220, 65358, 65457, 65516,
    65536
];

/// BAM units in a quarter turn.
pub const QUARTER_BAM: u32 = 16384;

/// The table entry `i`.
pub open spec fn table(i: int) -> int {
    SIN_QUARTER@[i] as int
}

/// Sine over the first quarter turn, `q` in `0..=16384`, as raw Q16.16:
/// the table, linearly interpolated between its 256-BAM steps.
pub open spec fn quarter_sin_spec(q: int) -> int {
    let idx = q / 256;
    if idx >= 64 {
        table(64)
    } else {
        table(idx) + ((table(idx + 1) - table(idx)) * (q % 256)) / 256
    }
}

/// Raw Q16.16 sine of a BAM angle.
pub open spec fn sin_raw(a: int) -> int {
    let quadrant = a / 16384;
    let q = a % 16384;
    if quadrant == 0 {
        quarter_sin_spec(q)
    } else if quadrant == 1 {
        quarter_sin_spec(16384 - q)
    } else if quadrant == 2 {
        -quarter_sin_spec(q)
    } else {
        -quarter_sin_spec(16384 - q)
    }
}

/// An angle in 1/65536ths of a turn.
#[derive(Clone, Copy, PartialEq, Eq, Structural, Hash, Default, Debug)]
pub struct Angle(pub u16);

impl Angle {
    /// 0 turns, along +x.
    #[allow(non_snake_case)]
    pub fn ZERO() -> (r: Angle)
        ensures
            r.0 == 0,
    {
        Angle(0)
    }

    /// A quarter turn (90°).
    #[allow(non_snake_case)]
    pub fn QUARTER() -> (r: Angle)
        ensures
            r.0 == 16384,
    {
        Angle(16384)
    }

    /// A half turn (180°).
    #[allow(non_snake_case)]
    pub fn HALF() -> (r: Angle)
        ensures
            r.0 == 32768,
    {
        Angle(32768)
    }

    /// Three quarters of a turn (270°).
    #[allow(non_snake_case)]
    pub fn THREE_QUARTER() -> (r: Angle)
        ensures
            r.0 == 49152,
    {
        Angle(49152)
    }

    /// From whole degrees; any integer is accepted and wrapped.
    pub fn from_degrees(deg: i32) -> (r: Angle)
        ensures
            r.0 as int == (deg as int % 360) * 65536 / 360,
    {
        let m = deg % 360;
        let d: i64 = if m < 0 { (m + 360) as i64 } else { m as i64 };
        proof {
            assert(d == deg as int % 360);
        }
        Angle((d * 65536 / 360) as u16)
    }

    /// The angle in whole degrees, `0..360`.
    pub fn to_degrees(self) -> (r: u32)
        ensures
            r as int == self.0 as int * 360 / 65536,
            r < 360,
    {
        (self.0 as u32 * 360) / 65536
    }

    /// Sine, in `[-1, 1]`.
    pub fn sin(self) -> (r: Fx)
        ensures
            r.0 as int == sin_raw(self.0 as int),
    {
        let a = self.0 as u32;
        let quadrant = a / 16384;
        let q = a % 16384;
        if quadrant == 0 {
            Fx::from_raw(quarter_sin(q))
        } else if quadrant == 1 {
            Fx::from_raw(quarter_sin(16384 - q))
        } else if quadrant == 2 {
            Fx::from_raw(-quarter_sin(q))
        } else {
            Fx::from_raw(-quarter_sin(16384 - q))
        }
    }

    /// Cosine, in `[-1, 1]`: the sine a quarter turn on.
    pub fn cos(self) -> (r: Fx)
        ensures
            r.0 as int == sin_raw((self.0 as int + 16384) % 65536),
    {
        (self + Angle::QUARTER()).sin()
    }

    /// Quantises to one of 8 facings: 0 = +x, 1 = +x+y diagonal, … 7.
    /// Each facing owns the 45° sector centred on it.
    pub fn facing8(self) -> (r: u8)
        ensures
            r as int == ((self.0 as int + 4096) / 8192) % 8,
    {
        (((self.0 as u32 + 4096) / 8192) % 8) as u8
    }
}

/// Sine over the first quarter turn, `q` in `0..=QUARTER`, as raw Q16.16.
fn quarter_sin(q: u32) -> (r: i32)
    requires
        q <= 16384,
    ensures
        r as int == quarter_sin_spec(q as int),
        0 <= r <= 65536,
{
    proof {
        lemma_table_facts();
    }
    let idx = (q / 256) as usize;
    if idx >= 64 {
        return SIN_QUARTER[64];
    }
    let frac = (q % 256) as i32;
    let a = SIN_QUARTER[idx];
    let b = SIN_QUARTER[idx + 1];
    proof {
        assert(0 <= (b - a) * frac <= 65536 * 255) by (nonlinear_arith)
            requires 0 <= b - a <= 65536, 0 <= frac <= 255;
        assert(a + ((b - a) * frac) / 256 <= b) by (nonlinear_arith)
            requires 0 <= b - a, 0 <= frac <= 255;
    }
    a + ((b - a) * frac) / 256
}

/// The table runs from 0 to 1.0 and never decreases.
pub proof fn lemma_table_facts()
    ensures
        table(0) == 0,
        table(64) == 65536,
        forall|i: int| 0 <= i < 64 ==> 0 <= #[trigger] table(i) <= table(i + 1) <= 65536,
{
    assert(SIN_QUARTER@.len() == 65);
    assert(table(0) == 0);
    assert(table(1) == 1608);
}

/// Odd symmetry: the sine of the opposite angle is exactly the opposite
/// of the sine, for every angle.
pub proof fn lemma_sin_odd(a: u16)
    ensures
        sin_raw((65536 - a as int) % 65536) == -sin_raw(a as int),
{
    let n = (65536 - a as int) % 65536;
    if a == 0 {
        assert(n == 0);
    } else {
        assert(n == 65536 - a as int);
    }
}

/// Every sine lies in `[-1, 1]`.
pub proof fn lemma_sin_range(a: u16)
    ensures
        -65536 <= sin_raw(a as int) <= 65536,
{
    lemma_table_facts();
    let q = a as int % 16384;
    lemma_quarter_range(q);
    lemma_quarter_range(16384 - q);
}

proof fn lemma_quarter_range(q: int)
    requires
        0 <= q <= 16384,
    ensures
        0 <= quarter_sin_spec(q) <= 65536,
{
    lemma_table_facts();
    let idx = q / 256;
    if idx < 64 {
        let a = table(idx);
        let b = table(idx + 1);
        let f = q % 256;
        assert(0 <= (b - a) * f <= (b - a) * 255) by (nonlinear_arith)
            requires 0 <= b - a, 0 <= f <= 255;
        assert(((b - a) * f) / 256 <= b - a) by (nonlinear_arith)
            requires 0 <= (b - a) * f <= (b - a) * 255, 0 <= b - a;
    }
}

impl Add for Angle {
    type Output = Angle;

    fn add(self, rhs: Angle) -> Angle {
        Angle(((self.0 as u32 + rhs.0 as u32) % 65536) as u16)
    }
}

impl vstd::std_specs::ops::AddSpecImpl for Angle {
    open spec fn obeys_add_spec() -> bool {
        true
    }

    open spec fn add_req(self, rhs: Angle) -> bool {
        true
    }

    open spec fn add_spec(self, rhs: Angle) -> Angle {
        Angle(((self.0 as int + rhs.0 as int) % 65536) as u16)
    }
}

impl Sub for Angle {
    type Output = Angle;

    fn sub(self, rhs: Angle) -> Angle {
        Angle(((self.0 as u32 + 65536 - rhs.0 as u32) % 65536) as u16)
    }
}

impl vstd::std_specs::ops::SubSpecImpl for Angle {
    open spec fn obeys_sub_spec() -> bool {
        true
    }

    open spec fn sub_req(self, rhs: Angle) -> bool {
        true
    }

    open spec fn sub_spec(self, rhs: Angle) -> Angle {
        Angle(((self.0 as int - rhs.0 as int + 65536) % 65536) as u16)
    }
}

impl Neg for Angle {
    type Output = Angle;

    fn neg(self) -> Angle {
        Angle(((65536 - self.0 as u32) % 65536) as u16)
    }
}

impl vstd::std_specs::ops::NegSpecImpl for Angle {
    open spec fn obeys_neg_spec() -> bool {
        true
    }

    open spec fn neg_req(self) -> bool {
        true
    }

    open spec fn neg_spec(self) -> Angle {
        Angle(((65536 - self.0 as int) % 65536) as u16)
    }
}

impl AddAssign for Angle {
    fn add_assign(&mut self, rhs: Angle)
        ensures
            final(self).0 as int == (old(self).0 as int + rhs.0 as int) % 65536,
    {
        *self = *self + rhs;
    }
}

impl SubAssign for Angle {
    fn sub_assign(&mut self, rhs: Angle)
        ensures
            final(self).0 as int == (old(self).0 as int - rhs.0 as int + 65536) % 65536,
    {
        *self = *self - rhs;
    }
}

} // verus!
