//! Two-component fixed-point vector, for positions and displacements in tiles.
//!
//! Squared lengths are computed in 64-bit raw form (Q32.32) because a map is
//! up to 240 tiles across and 240² does not fit in Q16.16. Use
//! [`Vec2Fx::length_sq_raw`] for comparisons and [`Vec2Fx::length`] when you
//! actually need the distance.

use vstd::prelude::*;
use core::ops::{Add, AddAssign, Div, Mul, Neg, Sub, SubAssign};
use crate::angle::{Angle, sin_raw};
use crate::fx::{Fx, fx_text, isqrt_u64, sat, mul_raw, round_div, div_raw, is_isqrt, isqrt, from_int_raw, abs_int};

verus! {

/// Squared length of a raw vector, exactly.
pub open spec fn len_sq(x: int, y: int) -> int {
    x * x + y * y
}

/// Raw length of a raw vector: the floor square root of its squared
/// length, saturated at `i32::MAX`.
pub open spec fn len_raw(x: int, y: int) -> int {
    let r = isqrt(len_sq(x, y));
    if r > i32::MAX { i32::MAX as int } else { r }
}

/// Componentwise saturating difference `b - a`.
pub open spec fn vsub(b: Vec2Fx, a: Vec2Fx) -> Vec2Fx {
    Vec2Fx { x: Fx(sat(b.x.0 - a.x.0) as i32), y: Fx(sat(b.y.0 - a.y.0) as i32) }
}

/// Componentwise saturating sum.
pub open spec fn vadd(a: Vec2Fx, b: Vec2Fx) -> Vec2Fx {
    Vec2Fx { x: Fx(sat(a.x.0 + b.x.0) as i32), y: Fx(sat(a.y.0 + b.y.0) as i32) }
}

/// Length of a vector, raw.
pub open spec fn vlen(v: Vec2Fx) -> int {
    len_raw(v.x.0 as int, v.y.0 as int)
}

/// `v * num / den` per component, rounded to nearest and saturated.
pub open spec fn vscale(v: Vec2Fx, num: int, den: int) -> Vec2Fx {
    Vec2Fx {
        x: Fx(sat(round_div(v.x.0 * num, den)) as i32),
        y: Fx(sat(round_div(v.y.0 * num, den)) as i32),
    }
}

/// Where [`Vec2Fx::move_toward`] lands.
pub open spec fn move_toward_spec(p: Vec2Fx, target: Vec2Fx, max_step: int) -> Vec2Fx {
    let d = vsub(target, p);
    let len = vlen(d);
    if len <= max_step {
        target
    } else {
        vadd(p, vscale(d, max_step, len))
    }
}

/// The octant-reduced angle of a raw vector in BAM, before wrapping:
/// `atan(t) ≈ t·(8192 + 2810·(1 − t))` on `t ∈ [0, 1]`, then mirrored into
/// the vector's octant.
pub open spec fn angle_raw(x: int, y: int) -> int {
    let ax = abs_int(x);
    let ay = abs_int(y);
    let swap = !(ay <= ax);
    let num = if swap { ax } else { ay };
    let den = if swap { ay } else { ax };
    let t = (num * 65536) / den;
    let a0 = (t * (8192 * 65536 + 2810 * (65536 - t))) / 0x1_0000_0000;
    let a1 = if swap { 16384 - a0 } else { a0 };
    let a2 = if x >= 0 && y >= 0 {
        a1
    } else if x < 0 && y >= 0 {
        32768 - a1
    } else if x < 0 && y < 0 {
        32768 + a1
    } else {
        65536 - a1
    };
    a2 % 65536
}

/// A 2D vector of [`Fx`].
#[derive(Clone, Copy, PartialEq, Eq, Structural, Hash, Default, Debug)]
pub struct Vec2Fx {
    /// x component.
    pub x: Fx,
    /// y component.
    pub y: Fx,
}

/// A vector as its type wraps it: `Vec2Fx { x: Fx(1.0000), y: Fx(0.5000) }`.
pub open spec fn vec_debug_text(v: Vec2Fx) -> Seq<char> {
    "Vec2Fx { x: Fx("@ + fx_text(v.x.0) + "), y: Fx("@ + fx_text(v.y.0) + ") }"@
}

impl Vec2Fx {
    /// The vector with its field names: `Vec2Fx { x: Fx(1.0000), y: Fx(0.5000) }`.
    pub fn to_debug_string(&self) -> (r: String)
        ensures
            r@ == vec_debug_text(*self),
    {
        let mut s = String::new();
        s.append("Vec2Fx { x: Fx(");
        let x = self.x.to_string();
        s.append(x.as_str());
        s.append("), y: Fx(");
        let y = self.y.to_string();
        s.append(y.as_str());
        s.append(") }");
        proof {
            assert(s@ =~= vec_debug_text(*self));
        }
        s
    }

    /// (0, 0)
    #[allow(non_snake_case)]
    pub fn ZERO() -> (r: Vec2Fx)
        ensures
            r.x.0 == 0 && r.y.0 == 0,
    {
        Vec2Fx { x: Fx(0), y: Fx(0) }
    }

    /// Constructs from components.
    pub fn new(x: Fx, y: Fx) -> (r: Vec2Fx)
        ensures
            r.x == x && r.y == y,
    {
        Vec2Fx { x, y }
    }

    /// Constructs from integer components.
    pub fn from_int(x: i32, y: i32) -> (r: Vec2Fx)
        ensures
            r.x.0 == from_int_raw(x as int),
            r.y.0 == from_int_raw(y as int),
    {
        Vec2Fx { x: Fx::from_int(x), y: Fx::from_int(y) }
    }

    /// Unit vector at `angle`, scaled by `len`.
    pub fn from_angle(angle: Angle, len: Fx) -> (r: Vec2Fx)
        ensures
            r.x.0 == mul_raw(sin_raw((angle.0 as int + 16384) % 65536), len.0 as int),
            r.y.0 == mul_raw(sin_raw(angle.0 as int), len.0 as int),
    {
        Vec2Fx { x: angle.cos() * len, y: angle.sin() * len }
    }

    /// Dot product, rounded to nearest and saturated. The intermediate is
    /// 128-bit, so the sum of two extreme products cannot wrap.
    pub fn dot(self, o: Vec2Fx) -> (r: Fx)
        ensures
            r.0 == sat(
                (self.x.0 * o.x.0 + self.y.0 * o.y.0 + 32768) / 65536,
            ),
    {
        proof {
            lemma_prod_bound(self.x.0 as int, o.x.0 as int);
            lemma_prod_bound(self.y.0 as int, o.y.0 as int);
        }
        let sum: i128 = (self.x.0 as i128) * (o.x.0 as i128) + (self.y.0 as i128) * (o.y.0 as i128);
        let s: i128 = sum + 32768;
        let q: i128 = floor_div_65536(s);
        let c: i32 = if q > i32::MAX as i128 {
            i32::MAX
        } else if q < i32::MIN as i128 {
            i32::MIN
        } else {
            q as i32
        };
        Fx(c)
    }

    /// Squared length as raw Q32.32. Exact; use for comparisons.
    pub fn length_sq_raw(self) -> (r: u64)
        ensures
            r as int == len_sq(self.x.0 as int, self.y.0 as int),
    {
        let x: u64 = abs_u64(self.x.0);
        let y: u64 = abs_u64(self.y.0);
        proof {
            assert(x * x <= 0x4000_0000_0000_0000) by (nonlinear_arith)
                requires x <= 0x8000_0000;
            assert(y * y <= 0x4000_0000_0000_0000) by (nonlinear_arith)
                requires y <= 0x8000_0000;
            assert(x * x == self.x.0 * self.x.0) by (nonlinear_arith)
                requires x == abs_int(self.x.0 as int);
            assert(y * y == self.y.0 * self.y.0) by (nonlinear_arith)
                requires y == abs_int(self.y.0 as int);
        }
        x * x + y * y
    }

    /// Length. Saturates at `Fx::MAX` (only reachable for absurd inputs).
    pub fn length(self) -> (r: Fx)
        ensures
            r.0 == len_raw(self.x.0 as int, self.y.0 as int),
    {
        let r = isqrt_u64(self.length_sq_raw());
        if r > i32::MAX as u64 {
            Fx(i32::MAX)
        } else {
            Fx(r as i32)
        }
    }

    /// Squared distance as raw Q32.32.
    pub fn distance_sq_raw(self, o: Vec2Fx) -> (r: u64)
        ensures
            r as int == len_sq(vsub(o, self).x.0 as int, vsub(o, self).y.0 as int),
    {
        (o - self).length_sq_raw()
    }

    /// Distance to `o`.
    pub fn distance(self, o: Vec2Fx) -> (r: Fx)
        ensures
            r.0 == vlen(vsub(o, self)),
    {
        (o - self).length()
    }

    /// `|dx| + |dy|`.
    pub fn manhattan(self, o: Vec2Fx) -> (r: Fx)
        ensures
            r.0 == sat(
                sat(abs_int(sat(o.x.0 - self.x.0))) + sat(abs_int(sat(o.y.0 - self.y.0))),
            ),
    {
        (o.x - self.x).abs() + (o.y - self.y).abs()
    }

    /// `self * num / den` per component with a 64-bit intermediate.
    pub fn scale_ratio(self, num: Fx, den: Fx) -> (r: Vec2Fx)
        requires
            den.0 != 0,
        ensures
            r == vscale(self, num.0 as int, den.0 as int),
    {
        Vec2Fx { x: self.x.mul_div(num, den), y: self.y.mul_div(num, den) }
    }

    /// Unit-length copy, or zero if this is the zero vector.
    pub fn normalized_or_zero(self) -> (r: Vec2Fx)
        ensures
            vlen(self) == 0 ==> r.x.0 == 0 && r.y.0 == 0,
            vlen(self) != 0 ==> r == vscale(self, 65536, vlen(self)),
    {
        let len = self.length();
        if len.is_zero() {
            Vec2Fx::ZERO()
        } else {
            self.scale_ratio(Fx::ONE(), len)
        }
    }

    /// Steps toward `target` by at most `max_step`, landing exactly on it when
    /// within reach. This is the primitive every movement system uses.
    ///
    /// A negative step toward the point it already stands on would divide
    /// by a zero distance; that call is ruled out.
    pub fn move_toward(self, target: Vec2Fx, max_step: Fx) -> (r: Vec2Fx)
        requires
            max_step.0 >= 0 || vlen(vsub(target, self)) != 0,
        ensures
            r == move_toward_spec(self, target, max_step.0 as int),
    {
        let d = target - self;
        let len = d.length();
        if len.0 <= max_step.0 {
            target
        } else {
            self + d.scale_ratio(max_step, len)
        }
    }

    /// Angle of this vector; zero vector yields `Angle::ZERO`.
    ///
    /// Computed by octant reduction and a rational approximation of atan on
    /// `[0, 1]`, accurate to about 0.3°.
    pub fn angle(self) -> (r: Angle)
        ensures
            self.x.0 == 0 && self.y.0 == 0 ==> r.0 == 0,
            !(self.x.0 == 0 && self.y.0 == 0) ==> r.0 as int == angle_raw(
                self.x.0 as int,
                self.y.0 as int,
            ),
    {
        let x = self.x.0 as i64;
        let y = self.y.0 as i64;
        if x == 0 && y == 0 {
            return Angle(0);
        }
        let ax: i64 = if x < 0 { -x } else { x };
        let ay: i64 = if y < 0 { -y } else { y };
        let swap = !(ay <= ax);
        let num: i64 = if swap { ax } else { ay };
        let den: i64 = if swap { ay } else { ax };
        proof {
            assert(num * 65536 <= den * 65536) by (nonlinear_arith)
                requires num <= den;
            assert((num * 65536) / (den as int) <= 65536) by (nonlinear_arith)
                requires 0 <= num <= den, den > 0;
        }
        let t: i64 = (num * 65536) / den;
        let one_minus_t: i64 = 65536 - t;
        proof {
            assert(t * (8192 * 65536 + 2810 * one_minus_t) <= 65536 * (8192 * 65536 + 2810 * 65536))
                by (nonlinear_arith)
                requires 0 <= t <= 65536, 0 <= one_minus_t <= 65536;
            assert(0 <= t * (8192 * 65536 + 2810 * one_minus_t)) by (nonlinear_arith)
                requires 0 <= t <= 65536, 0 <= one_minus_t <= 65536;
            assert((t * (8192 * 65536 + 2810 * one_minus_t)) / 0x1_0000_0000 <= 16384 + 2810)
                by (nonlinear_arith)
                requires
                    0 <= t * (8192 * 65536 + 2810 * one_minus_t) <= 65536 * (8192 * 65536 + 2810 * 65536);
        }
        let a: i64 = (t * (8192 * 65536 + 2810 * one_minus_t)) / 0x1_0000_0000;
        let a: i64 = if swap { 16384 - a } else { a };
        let a: i64 = if x >= 0 && y >= 0 {
            a
        } else if x < 0 && y >= 0 {
            32768 - a
        } else if x < 0 && y < 0 {
            32768 + a
        } else {
            65536 - a
        };
        let w: i64 = a % 65536;
        proof {
            assert(0 <= w < 65536);
        }
        Angle(w as u16)
    }
}

proof fn lemma_prod_bound(a: int, b: int)
    requires
        i32::MIN <= a <= i32::MAX,
        i32::MIN <= b <= i32::MAX,
    ensures
        -0x4000_0000_0000_0000 <= a * b <= 0x4000_0000_0000_0000,
{
    assert(-0x4000_0000_0000_0000 <= a * b <= 0x4000_0000_0000_0000) by (nonlinear_arith)
        requires
            -0x8000_0000 <= a <= 0x7fff_ffff,
            -0x8000_0000 <= b <= 0x7fff_ffff,
    ;
}

/// `|v|` as an unsigned value.
fn abs_u64(v: i32) -> (r: u64)
    ensures
        r as int == abs_int(v as int),
        r <= 0x8000_0000,
{
    if v < 0 {
        (-(v as i64)) as u64
    } else {
        v as u64
    }
}

/// Floor division by 65536.
fn floor_div_65536(s: i128) -> (r: i128)
    requires
        -0x8000_0000_0000_8000 <= s <= 0x8000_0000_0000_8000,
    ensures
        r as int == s as int / 65536,
{
    if s >= 0 {
        s / 65536
    } else {
        let m: i128 = -s;
        let q: i128 = (m + 65535) / 65536;
        proof {
            let mi = m as int;
            let si = s as int;
            assert(si / 65536 == -((mi + 65535) / 65536)) by (nonlinear_arith)
                requires mi == -si, mi > 0;
        }
        -q
    }
}

impl Add for Vec2Fx {
    type Output = Vec2Fx;

    fn add(self, o: Vec2Fx) -> Vec2Fx {
        Vec2Fx { x: self.x + o.x, y: self.y + o.y }
    }
}

impl vstd::std_specs::ops::AddSpecImpl for Vec2Fx {
    open spec fn obeys_add_spec() -> bool {
        true
    }

    open spec fn add_req(self, rhs: Vec2Fx) -> bool {
        true
    }

    open spec fn add_spec(self, rhs: Vec2Fx) -> Vec2Fx {
        vadd(self, rhs)
    }
}

impl Sub for Vec2Fx {
    type Output = Vec2Fx;

    fn sub(self, o: Vec2Fx) -> Vec2Fx {
        Vec2Fx { x: self.x - o.x, y: self.y - o.y }
    }
}

impl vstd::std_specs::ops::SubSpecImpl for Vec2Fx {
    open spec fn obeys_sub_spec() -> bool {
        true
    }

    open spec fn sub_req(self, rhs: Vec2Fx) -> bool {
        true
    }

    open spec fn sub_spec(self, rhs: Vec2Fx) -> Vec2Fx {
        vsub(self, rhs)
    }
}

impl Neg for Vec2Fx {
    type Output = Vec2Fx;

    fn neg(self) -> Vec2Fx {
        Vec2Fx { x: Neg::neg(self.x), y: Neg::neg(self.y) }
    }
}

impl vstd::std_specs::ops::NegSpecImpl for Vec2Fx {
    open spec fn obeys_neg_spec() -> bool {
        true
    }

    open spec fn neg_req(self) -> bool {
        true
    }

    open spec fn neg_spec(self) -> Vec2Fx {
        Vec2Fx { x: Fx(sat(-self.x.0) as i32), y: Fx(sat(-self.y.0) as i32) }
    }
}

impl Mul<Fx> for Vec2Fx {
    type Output = Vec2Fx;

    fn mul(self, s: Fx) -> Vec2Fx {
        Vec2Fx { x: self.x * s, y: self.y * s }
    }
}

impl vstd::std_specs::ops::MulSpecImpl<Fx> for Vec2Fx {
    open spec fn obeys_mul_spec() -> bool {
        true
    }

    open spec fn mul_req(self, rhs: Fx) -> bool {
        true
    }

    open spec fn mul_spec(self, rhs: Fx) -> Vec2Fx {
        Vec2Fx {
            x: Fx(mul_raw(self.x.0 as int, rhs.0 as int) as i32),
            y: Fx(mul_raw(self.y.0 as int, rhs.0 as int) as i32),
        }
    }
}

impl Mul<i32> for Vec2Fx {
    type Output = Vec2Fx;

    fn mul(self, s: i32) -> Vec2Fx {
        Vec2Fx { x: self.x * s, y: self.y * s }
    }
}

impl vstd::std_specs::ops::MulSpecImpl<i32> for Vec2Fx {
    open spec fn obeys_mul_spec() -> bool {
        true
    }

    open spec fn mul_req(self, rhs: i32) -> bool {
        true
    }

    open spec fn mul_spec(self, rhs: i32) -> Vec2Fx {
        Vec2Fx { x: Fx(sat(self.x.0 * rhs) as i32), y: Fx(sat(self.y.0 * rhs) as i32) }
    }
}

impl Div<Fx> for Vec2Fx {
    type Output = Vec2Fx;

    fn div(self, s: Fx) -> Vec2Fx {
        Vec2Fx { x: self.x / s, y: self.y / s }
    }
}

impl vstd::std_specs::ops::DivSpecImpl<Fx> for Vec2Fx {
    open spec fn obeys_div_spec() -> bool {
        true
    }

    open spec fn div_req(self, rhs: Fx) -> bool {
        rhs.0 != 0
    }

    open spec fn div_spec(self, rhs: Fx) -> Vec2Fx {
        Vec2Fx {
            x: Fx(div_raw(self.x.0 as int, rhs.0 as int) as i32),
            y: Fx(div_raw(self.y.0 as int, rhs.0 as int) as i32),
        }
    }
}

impl AddAssign for Vec2Fx {
    fn add_assign(&mut self, o: Vec2Fx)
        ensures
            *final(self) == vadd(*old(self), o),
    {
        *self = *self + o;
    }
}

impl SubAssign for Vec2Fx {
    fn sub_assign(&mut self, o: Vec2Fx)
        ensures
            *final(self) == vsub(*old(self), o),
    {
        *self = *self - o;
    }
}

} // verus!
