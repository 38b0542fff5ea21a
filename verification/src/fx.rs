//! `Fx`: a signed Q16.16 fixed-point number.
//!
//! 16 integer bits, 16 fractional bits, stored in an `i32`. Range is
//! ±32767.99998, resolution 1/65536. The arithmetic is plain integer maths,
//! so it is identical on every CPU.
//!
//! Arithmetic **saturates** on overflow rather than wrapping or panicking.
//! Every operation is specified over the mathematical integers: the raw
//! value of a result is the exact integer result, rounded as documented and
//! clamped into the `i32` range.

use vstd::prelude::*;
use core::ops::{Add, AddAssign, Div, Mul, MulAssign, Neg, Sub, SubAssign};

verus! {

/// Raw representation of 1.0.
pub const ONE_RAW_I32: i32 = 65536;

/// Clamps an integer into the `i32` range.
pub open spec fn sat(v: int) -> int {
    if v > i32::MAX {
        i32::MAX as int
    } else if v < i32::MIN {
        i32::MIN as int
    } else {
        v
    }
}

/// Absolute value of an integer.
pub open spec fn abs_int(v: int) -> int {
    if v < 0 { -v } else { v }
}

/// `p / d` rounded to nearest, halves away from zero.
pub open spec fn round_div(p: int, d: int) -> int {
    let q = (abs_int(p) + abs_int(d) / 2) / abs_int(d);
    if (p < 0) != (d < 0) { -q } else { q }
}

/// Largest integer whose square is at most `n`.
pub open spec fn is_isqrt(n: int, r: int) -> bool {
    0 <= r && r * r <= n && n < (r + 1) * (r + 1)
}

/// The floor of the square root of a non-negative integer.
pub open spec fn isqrt(n: int) -> int {
    choose|r: int| is_isqrt(n, r)
}

/// At most one integer is the floor of a square root.
pub proof fn lemma_isqrt_unique(n: int, r1: int, r2: int)
    requires
        is_isqrt(n, r1),
        is_isqrt(n, r2),
    ensures
        r1 == r2,
{
    if r1 < r2 {
        assert((r1 + 1) * (r1 + 1) <= r2 * r2) by (nonlinear_arith)
            requires 0 <= r1 < r2;
    } else if r2 < r1 {
        assert((r2 + 1) * (r2 + 1) <= r1 * r1) by (nonlinear_arith)
            requires 0 <= r2 < r1;
    }
}

/// A witness of the floor square root is the floor square root.
pub proof fn lemma_isqrt_is(n: int, r: int)
    requires
        is_isqrt(n, r),
    ensures
        isqrt(n) == r,
{
    let c = isqrt(n);
    assert(is_isqrt(n, c));
    lemma_isqrt_unique(n, r, c);
}

/// Raw value of `a * b` in Q16.16: the exact product rounded to nearest
/// (halves toward +∞) and saturated.
pub open spec fn mul_raw(a: int, b: int) -> int {
    sat((a * b + 32768) / 65536)
}

/// Raw value of `a / b` in Q16.16, rounded to nearest and saturated.
pub open spec fn div_raw(a: int, b: int) -> int {
    sat(round_div(a * 65536, b))
}

/// Raw value of an integer converted to Q16.16, saturating outside ±32767.
pub open spec fn from_int_raw(v: int) -> int {
    if v > 32767 {
        i32::MAX as int
    } else if v < -32768 {
        i32::MIN as int
    } else {
        v * 65536
    }
}

/// [`from_int_raw`] as an `i32`.
pub open spec fn from_int_i32(v: i32) -> i32 {
    from_int_raw(v as int) as i32
}

/// Signed Q16.16 fixed-point number; the field is the raw bit pattern.
#[derive(Clone, Copy, PartialEq, Eq, Structural, Ord, Hash, Default, Debug)]
pub struct Fx(pub i32);

impl Fx {
    /// Number of fractional bits.
    pub const FRAC_BITS: u32 = 16;
    /// Raw representation of 1.0.
    pub const ONE_RAW: i32 = 65536;
    /// 0.0
    #[allow(non_snake_case)]
    pub fn ZERO() -> (r: Fx)
        ensures
            r.0 == 0,
    {
        Fx(0)
    }

    /// 1.0
    #[allow(non_snake_case)]
    pub fn ONE() -> (r: Fx)
        ensures
            r.0 == 65536,
    {
        Fx(65536)
    }

    /// 0.5
    #[allow(non_snake_case)]
    pub fn HALF() -> (r: Fx)
        ensures
            r.0 == 32768,
    {
        Fx(32768)
    }

    /// 2.0
    #[allow(non_snake_case)]
    pub fn TWO() -> (r: Fx)
        ensures
            r.0 == 131072,
    {
        Fx(131072)
    }

    /// Largest representable value, ≈ 32767.99998.
    #[allow(non_snake_case)]
    pub fn MAX() -> (r: Fx)
        ensures
            r.0 == 2147483647,
    {
        Fx(2147483647)
    }

    /// Smallest representable value, -32768.0.
    #[allow(non_snake_case)]
    pub fn MIN() -> (r: Fx)
        ensures
            r.0 == -2147483648,
    {
        Fx(-2147483648)
    }

    /// Smallest positive value, 1/65536.
    #[allow(non_snake_case)]
    pub fn EPSILON() -> (r: Fx)
        ensures
            r.0 == 1,
    {
        Fx(1)
    }

    /// Wraps a raw Q16.16 bit pattern.
    pub fn from_raw(raw: i32) -> (r: Fx)
        ensures
            r.0 == raw,
    {
        Fx(raw)
    }

    /// The raw Q16.16 bit pattern.
    pub fn raw(self) -> (r: i32)
        ensures
            r == self.0,
    {
        self.0
    }

    /// Converts an integer, saturating outside ±32767.
    pub fn from_int(v: i32) -> (r: Fx)
        ensures
            r.0 == from_int_raw(v as int),
    {
        if v > 32767 {
            Fx(i32::MAX)
        } else if v < -32768 {
            Fx(i32::MIN)
        } else {
            Fx(v * 65536)
        }
    }

    /// `num / den` as a fixed-point value, e.g. `Fx::from_ratio(45, 100)` is 0.45.
    /// Saturates on overflow.
    pub fn from_ratio(num: i32, den: i32) -> (r: Fx)
        requires
            den != 0,
        ensures
            r.0 == sat(round_div(num * 65536, den as int)),
    {
        saturate(div_round(num as i64 * 65536, den as i64))
    }

    /// Largest integer ≤ self.
    pub fn floor(self) -> (r: i32)
        ensures
            r as int == self.0 as int / 65536,
    {
        proof { lemma_shr16_i32(self.0); }
        self.0 >> 16u32
    }

    /// Smallest integer ≥ self.
    pub fn ceil(self) -> (r: i32)
        ensures
            r as int == if self.0 as int % 65536 == 0 {
                self.0 as int / 65536
            } else {
                self.0 as int / 65536 + 1
            },
    {
        let f = self.floor();
        proof { lemma_low16_i32(self.0); }
        if self.0 & 65535i32 == 0 {
            f
        } else {
            f + 1
        }
    }

    /// Nearest integer, halves rounding up (toward +∞).
    pub fn round(self) -> (r: i32)
        ensures
            r as int == sat(self.0 + 32768) / 65536,
    {
        let s = Fx(sat_i64(self.0 as i64 + 32768));
        s.floor()
    }

    /// Integer part, rounding toward zero.
    pub fn trunc(self) -> (r: i32)
        ensures
            r as int == if self.0 >= 0 {
                self.0 as int / 65536
            } else {
                -((-(self.0 as int)) / 65536)
            },
    {
        if self.0 >= 0 {
            self.floor()
        } else {
            let m: i64 = -(self.0 as i64);
            proof { lemma_shr16_i64(m); }
            let q: i64 = m >> 16u64;
            -(q as i32)
        }
    }

    /// Fractional part in `[0, 1)`, such that `self == floor + frac`.
    pub fn frac(self) -> (r: Fx)
        ensures
            r.0 as int == self.0 as int % 65536,
            0 <= r.0 < 65536,
    {
        proof { lemma_low16_i32(self.0); }
        Fx(self.0 & 65535i32)
    }

    /// Absolute value. `Fx::MIN.abs()` saturates to `Fx::MAX`.
    pub fn abs(self) -> (r: Fx)
        ensures
            r.0 == sat(abs_int(self.0 as int)),
    {
        if self.0 == i32::MIN {
            Fx(i32::MAX)
        } else if self.0 < 0 {
            Fx(-self.0)
        } else {
            self
        }
    }

    /// -1, 0 or 1.
    pub fn signum(self) -> (r: Fx)
        ensures
            r.0 == if self.0 > 0 {
                65536
            } else if self.0 < 0 {
                -65536
            } else {
                0
            },
    {
        if self.0 > 0 {
            Fx::from_int(1)
        } else if self.0 < 0 {
            Fx::from_int(-1)
        } else {
            Fx::from_int(0)
        }
    }

    /// True if exactly zero.
    pub fn is_zero(self) -> (r: bool)
        ensures
            r == (self.0 == 0),
    {
        self.0 == 0
    }

    /// True if strictly negative.
    pub fn is_negative(self) -> (r: bool)
        ensures
            r == (self.0 < 0),
    {
        self.0 < 0
    }

    /// True if strictly positive.
    pub fn is_positive(self) -> (r: bool)
        ensures
            r == (self.0 > 0),
    {
        self.0 > 0
    }

    /// The smaller of two values.
    pub fn min(self, other: Fx) -> (r: Fx)
        ensures
            r.0 == if self.0 <= other.0 { self.0 } else { other.0 },
    {
        if self.0 <= other.0 {
            self
        } else {
            other
        }
    }

    /// The larger of two values.
    pub fn max(self, other: Fx) -> (r: Fx)
        ensures
            r.0 == if self.0 >= other.0 { self.0 } else { other.0 },
    {
        if self.0 >= other.0 {
            self
        } else {
            other
        }
    }

    /// Clamps into `[lo, hi]`.
    pub fn clamp(self, lo: Fx, hi: Fx) -> (r: Fx)
        requires
            lo.0 <= hi.0,
        ensures
            r.0 == if self.0 < lo.0 {
                lo.0
            } else if self.0 > hi.0 {
                hi.0
            } else {
                self.0
            },
    {
        self.max(lo).min(hi)
    }

    /// Saturating multiplication, rounded to nearest.
    pub fn saturating_mul(self, other: Fx) -> (r: Fx)
        ensures
            r.0 == mul_raw(self.0 as int, other.0 as int),
    {
        let prod: i64 = mul_i32(self.0, other.0);
        let s: i64 = prod + 32768;
        proof { lemma_shr16_i64(s); }
        saturate(s >> 16u64)
    }

    /// Division, rounded to nearest. `None` if `other` is zero.
    pub fn checked_div(self, other: Fx) -> (r: Option<Fx>)
        ensures
            other.0 == 0 ==> r is None,
            other.0 != 0 ==> r == Some(Fx(div_raw(self.0 as int, other.0 as int) as i32)),
    {
        if other.0 == 0 {
            None
        } else {
            Some(saturate(div_round(self.0 as i64 * 65536, other.0 as i64)))
        }
    }

    /// `self * num / den` computed in one 64-bit step, so the intermediate
    /// product cannot overflow. Rounded to nearest.
    pub fn mul_div(self, num: Fx, den: Fx) -> (r: Fx)
        requires
            den.0 != 0,
        ensures
            r.0 == sat(round_div(self.0 * num.0, den.0 as int)),
    {
        saturate(div_round(mul_i32(self.0, num.0), den.0 as i64))
    }

    /// Square root. Negative inputs return zero.
    pub fn sqrt(self) -> (r: Fx)
        ensures
            self.0 <= 0 ==> r.0 == 0,
            self.0 > 0 ==> is_isqrt(self.0 * 65536, r.0 as int),
    {
        if self.0 <= 0 {
            return Fx(0);
        }
        let n: u64 = self.0 as u64 * 65536;
        let s = isqrt_u64(n);
        proof {
            // s * s <= n < 2^47, so s < 2^24.
            if s >= 0x100_0000 {
                assert(s * s >= 0x100_0000 * 0x100_0000) by (nonlinear_arith)
                    requires s >= 0x100_0000;
            }
        }
        Fx(s as i32)
    }

    /// Linear interpolation `a + (b - a) * t`, with `t` in `[0, 1]`.
    pub fn lerp(a: Fx, b: Fx, t: Fx) -> (r: Fx)
        ensures
            r.0 == sat(a.0 + mul_raw(sat(b.0 - a.0), t.0 as int)),
    {
        a + (b - a) * t
    }
}

/// The exact product of two `i32`s.
fn mul_i32(a: i32, b: i32) -> (r: i64)
    ensures
        r == a * b,
        -0x4000_0000_0000_0000 <= r <= 0x4000_0000_0000_0000,
{
    proof {
        lemma_mul_i32_bound(a as int, b as int);
    }
    (a as i64) * (b as i64)
}

proof fn lemma_mul_i32_bound(a: int, b: int)
    requires
        i32::MIN <= a <= i32::MAX,
        i32::MIN <= b <= i32::MAX,
    ensures
        -0x4000_0000_0000_0000 <= a * b <= 0x4000_0000_0000_0000,
{
    assert(-0x4000_0000_0000_0000 <= a * b <= 0x4000_0000_0000_0000) by (nonlinear_arith)
        requires
            -0x8000_0000 <= a <= 0x7fff_ffff,
            -0x8000_0000 <= b <= 0x7fff_ffff,
    ;
}

/// Clamps into the `i32` range.
fn sat_i64(v: i64) -> (r: i32)
    ensures
        r == sat(v as int),
{
    if v > i32::MAX as i64 {
        i32::MAX
    } else if v < i32::MIN as i64 {
        i32::MIN
    } else {
        v as i32
    }
}

/// Clamps a 64-bit raw value into the `i32` range.
fn saturate(v: i64) -> (r: Fx)
    ensures
        r.0 == sat(v as int),
{
    Fx(sat_i64(v))
}

/// `p / d` rounded to nearest, halves away from zero. All of `Fx`'s divisions
/// go through this so that rounding is unbiased.
fn div_round(p: i64, d: i64) -> (r: i64)
    requires
        d != 0,
        -0x4000_0000_0000_0000 <= p <= 0x4000_0000_0000_0000,
    ensures
        r == round_div(p as int, d as int),
{
    let ap: u64 = if p < 0 { (-p) as u64 } else { p as u64 };
    let ad: u64 = if d < 0 {
        if d == i64::MIN { 0x8000_0000_0000_0000u64 } else { (-d) as u64 }
    } else {
        d as u64
    };
    let q: u64 = (ap + ad / 2) / ad;
    proof {
        assert(q <= ap + ad / 2) by (nonlinear_arith)
            requires q as int == (ap as int + ad as int / 2) / (ad as int), ad >= 1;
        if ad >= 2 {
            assert(q <= ap) by (nonlinear_arith)
                requires q as int == (ap as int + ad as int / 2) / (ad as int), ad >= 2;
        }
    }
    let qi: i64 = q as i64;
    if (p < 0) != (d < 0) {
        -qi
    } else {
        qi
    }
}

/// Floor of the square root of `n`, by bisection of `[0, 2^32)`.
pub fn isqrt_u64(n: u64) -> (r: u64)
    ensures
        is_isqrt(n as int, r as int),
        r as int == isqrt(n as int),
{
    // Invariant: lo² ≤ n < hi², with hi ≤ 2^32.
    let mut lo: u64 = 0;
    let mut hi: u64 = 0x1_0000_0000;
    proof {
        assert(0x1_0000_0000 * 0x1_0000_0000 == 0x1_0000_0000_0000_0000int);
    }
    while hi - lo > 1
        invariant
            lo < hi <= 0x1_0000_0000,
            lo * lo <= n,
            n < hi * hi,
        decreases hi - lo,
    {
        let mid: u64 = lo + (hi - lo) / 2;
        proof {
            assert(mid * mid <= 0xffff_ffff * 0xffff_ffff) by (nonlinear_arith)
                requires mid <= 0xffff_ffff;
        }
        if mid * mid <= n {
            lo = mid;
        } else {
            hi = mid;
        }
    }
    proof {
        assert(lo + 1 == hi);
        lemma_isqrt_is(n as int, lo as int);
    }
    lo
}

proof fn lemma_shr16_i32(x: i32)
    ensures
        (x >> 16u32) as int == x as int / 65536,
{
    assert((x >> 16u32) as int == x as int / 65536) by (bit_vector);
}

proof fn lemma_shr16_i64(x: i64)
    ensures
        (x >> 16u64) as int == x as int / 65536,
{
    assert((x >> 16u64) as int == x as int / 65536) by (bit_vector);
}

proof fn lemma_low16_i32(x: i32)
    ensures
        (x & 65535i32) as int == x as int % 65536,
{
    assert((x & 65535i32) as int == x as int % 65536) by (bit_vector);
}

impl Add for Fx {
    type Output = Fx;

    fn add(self, rhs: Fx) -> Fx {
        Fx(sat_i64(self.0 as i64 + rhs.0 as i64))
    }
}

impl vstd::std_specs::ops::AddSpecImpl for Fx {
    open spec fn obeys_add_spec() -> bool {
        true
    }

    open spec fn add_req(self, rhs: Fx) -> bool {
        true
    }

    open spec fn add_spec(self, rhs: Fx) -> Fx {
        Fx(sat(self.0 + rhs.0) as i32)
    }
}

impl Sub for Fx {
    type Output = Fx;

    fn sub(self, rhs: Fx) -> Fx {
        Fx(sat_i64(self.0 as i64 - rhs.0 as i64))
    }
}

impl vstd::std_specs::ops::SubSpecImpl for Fx {
    open spec fn obeys_sub_spec() -> bool {
        true
    }

    open spec fn sub_req(self, rhs: Fx) -> bool {
        true
    }

    open spec fn sub_spec(self, rhs: Fx) -> Fx {
        Fx(sat(self.0 - rhs.0) as i32)
    }
}

impl Mul for Fx {
    type Output = Fx;

    fn mul(self, rhs: Fx) -> Fx {
        self.saturating_mul(rhs)
    }
}

impl vstd::std_specs::ops::MulSpecImpl for Fx {
    open spec fn obeys_mul_spec() -> bool {
        true
    }

    open spec fn mul_req(self, rhs: Fx) -> bool {
        true
    }

    open spec fn mul_spec(self, rhs: Fx) -> Fx {
        Fx(mul_raw(self.0 as int, rhs.0 as int) as i32)
    }
}

impl Div for Fx {
    type Output = Fx;

    /// Division by zero is a bug, not a state: its precondition rules it out.
    fn div(self, rhs: Fx) -> Fx {
        saturate(div_round(self.0 as i64 * 65536, rhs.0 as i64))
    }
}

impl vstd::std_specs::ops::DivSpecImpl for Fx {
    open spec fn obeys_div_spec() -> bool {
        true
    }

    open spec fn div_req(self, rhs: Fx) -> bool {
        rhs.0 != 0
    }

    open spec fn div_spec(self, rhs: Fx) -> Fx {
        Fx(div_raw(self.0 as int, rhs.0 as int) as i32)
    }
}

impl Neg for Fx {
    type Output = Fx;

    fn neg(self) -> Fx {
        Fx(sat_i64(-(self.0 as i64)))
    }
}

impl vstd::std_specs::ops::NegSpecImpl for Fx {
    open spec fn obeys_neg_spec() -> bool {
        true
    }

    open spec fn neg_req(self) -> bool {
        true
    }

    open spec fn neg_spec(self) -> Fx {
        Fx(sat(-self.0) as i32)
    }
}

/// Exact scaling by an integer; cheaper than converting the integer first.
impl Mul<i32> for Fx {
    type Output = Fx;

    fn mul(self, rhs: i32) -> Fx {
        saturate(mul_i32(self.0, rhs))
    }
}

impl vstd::std_specs::ops::MulSpecImpl<i32> for Fx {
    open spec fn obeys_mul_spec() -> bool {
        true
    }

    open spec fn mul_req(self, rhs: i32) -> bool {
        true
    }

    open spec fn mul_spec(self, rhs: i32) -> Fx {
        Fx(sat(self.0 * rhs) as i32)
    }
}

/// Division by an integer, rounded to nearest.
impl Div<i32> for Fx {
    type Output = Fx;

    fn div(self, rhs: i32) -> Fx {
        saturate(div_round(self.0 as i64, rhs as i64))
    }
}

impl vstd::std_specs::ops::DivSpecImpl<i32> for Fx {
    open spec fn obeys_div_spec() -> bool {
        true
    }

    open spec fn div_req(self, rhs: i32) -> bool {
        rhs != 0
    }

    open spec fn div_spec(self, rhs: i32) -> Fx {
        Fx(sat(round_div(self.0 as int, rhs as int)) as i32)
    }
}

impl AddAssign for Fx {
    fn add_assign(&mut self, rhs: Fx)
        ensures
            final(self).0 == sat(old(self).0 + rhs.0),
    {
        *self = *self + rhs;
    }
}

impl SubAssign for Fx {
    fn sub_assign(&mut self, rhs: Fx)
        ensures
            final(self).0 == sat(old(self).0 - rhs.0),
    {
        *self = *self - rhs;
    }
}

impl MulAssign for Fx {
    fn mul_assign(&mut self, rhs: Fx)
        ensures
            final(self).0 == mul_raw(old(self).0 as int, rhs.0 as int),
    {
        *self = self.saturating_mul(rhs);
    }
}

/// The character of a decimal digit.
pub open spec fn digit_char(d: int) -> char {
    if d == 0 { '0' } else if d == 1 { '1' } else if d == 2 { '2' } else if d == 3 { '3' } else if d == 4 { '4' }
    else if d == 5 { '5' } else if d == 6 { '6' } else if d == 7 { '7' } else if d == 8 { '8' } else { '9' }
}

/// A natural number in decimal, without leading zeros.
pub open spec fn dec_digits(n: nat) -> Seq<char>
    decreases n,
{
    if n < 10 { seq![digit_char(n as int)] } else { dec_digits(n / 10) + seq![digit_char((n % 10) as int)] }
}

/// A raw value as text: sign, integer part, a point, then four decimal
/// places of the fraction rounded toward zero.
pub open spec fn fx_text(v: i32) -> Seq<char> {
    let mag: nat = abs_int(v as int) as nat;
    let whole: nat = mag / 65536;
    let frac: int = (((mag % 65536) * 10000) / 65536) as int;
    (if v < 0 { seq!['-'] } else { Seq::empty() }) + dec_digits(whole) + seq!['.', digit_char(frac / 1000),
        digit_char(frac / 100 % 10), digit_char(frac / 10 % 10), digit_char(frac % 10)]
}

fn digit_str(d: u64) -> (r: &'static str)
    requires
        d < 10,
    ensures
        r@ == seq![digit_char(d as int)],
{
    proof {
        reveal_strlit("0");
        reveal_strlit("1");
        reveal_strlit("2");
        reveal_strlit("3");
        reveal_strlit("4");
        reveal_strlit("5");
        reveal_strlit("6");
        reveal_strlit("7");
        reveal_strlit("8");
        reveal_strlit("9");
    }
    if d == 0 { "0" } else if d == 1 { "1" } else if d == 2 { "2" } else if d == 3 { "3" } else if d == 4 { "4" }
    else if d == 5 { "5" } else if d == 6 { "6" } else if d == 7 { "7" } else if d == 8 { "8" } else { "9" }
}

/// Appends `n` in decimal.
pub(crate) fn push_decimal(s: &mut String, n: u64)
    ensures
        final(s)@ == old(s)@ + dec_digits(n as nat),
    decreases n,
{
    if n >= 10 {
        push_decimal(s, n / 10);
    }
    s.append(digit_str(n % 10));
    proof {
        if n >= 10 {
            assert(old(s)@ + dec_digits((n / 10) as nat) + seq![digit_char((n % 10) as int)] =~= old(s)@ + dec_digits(n as nat));
        } else {
            assert(n % 10 == n);
        }
    }
}

impl Fx {
    /// Decimal with four places, computed in integer maths: `-3.5000`.
    pub fn to_string(&self) -> (r: String)
        ensures
            r@ == fx_text(self.0),
    {
        let neg = self.0 < 0;
        let mag: u64 = if neg { (-(self.0 as i64)) as u64 } else { self.0 as u64 };
        let whole = mag >> 16u32;
        let low = mag & 0xffff;
        proof {
            assert(mag >> 16u32 == mag / 65536) by (bit_vector);
            assert(mag & 0xffff == mag % 65536) by (bit_vector);
        }
        let scaled: u64 = low * 10_000;
        let frac = scaled >> 16u32;
        proof {
            assert(scaled >> 16u32 == scaled / 65536) by (bit_vector);
        }
        let mut s = String::new();
        if neg {
            s.append("-");
            proof {
                reveal_strlit("-");
            }
        }
        push_decimal(&mut s, whole);
        s.append(".");
        proof {
            reveal_strlit(".");
        }
        s.append(digit_str(frac / 1000));
        s.append(digit_str(frac / 100 % 10));
        s.append(digit_str(frac / 10 % 10));
        s.append(digit_str(frac % 10));
        proof {
            assert(s@ =~= fx_text(self.0));
        }
        s
    }

    /// The value as its type wraps it: `Fx(0.5000)`.
    pub fn to_debug_string(&self) -> (r: String)
        ensures
            r@ == seq!['F', 'x', '('] + fx_text(self.0) + seq![')'],
    {
        let mut s = String::from_str("Fx(");
        let t = self.to_string();
        s.append(t.as_str());
        s.append(")");
        proof {
            reveal_strlit("Fx(");
            reveal_strlit(")");
            assert(s@ =~= seq!['F', 'x', '('] + fx_text(self.0) + seq![')']);
        }
        s
    }
}

} // verus!
