//! The simulation's one and only random number generator.
//!
//! `xoshiro256**`, seeded through `splitmix64`. Its state is part of the
//! simulation state and is included in the state hash. Every draw is
//! specified exactly: the generator is a pure function of its seed.

use vstd::prelude::*;
use crate::fx::{Fx, sat, mul_raw};
use crate::hash::{HashState, StateHasher, fnv, le64, lemma_fnv_append};

verus! {

/// The `splitmix64` increment.
pub const GOLDEN: u64 = 0x9E37_79B9_7F4A_7C15;

/// `x` rotated left by `k` bits, `0 < k < 64`.
pub open spec fn rotl(x: u64, k: u64) -> u64 {
    (x << k) | (x >> ((64 - k) as u64))
}

/// The `splitmix64` output for an already advanced state.
pub open spec fn splitmix_mix(z: u64) -> u64 {
    let z1 = (z ^ (z >> 30u64)).wrapping_mul(0xBF58_476D_1CE4_E5B9);
    let z2 = (z1 ^ (z1 >> 27u64)).wrapping_mul(0x94D0_49BB_1331_11EB);
    z2 ^ (z2 >> 31u64)
}

/// The seeding state after `k` `splitmix64` steps from `seed`.
pub open spec fn splitmix_state(seed: u64, k: nat) -> u64
    decreases k,
{
    if k == 0 {
        seed
    } else {
        splitmix_state(seed, (k - 1) as nat).wrapping_add(GOLDEN)
    }
}

/// The `k`-th word `splitmix64` produces from `seed`, `k ≥ 1`.
pub open spec fn splitmix_word(seed: u64, k: nat) -> u64 {
    splitmix_mix(splitmix_state(seed, k))
}

/// The output of one `xoshiro256**` step from state `s`.
pub open spec fn xoshiro_out(s: Seq<u64>) -> u64 {
    rotl(s[1].wrapping_mul(5), 7).wrapping_mul(9)
}

/// The state after one `xoshiro256**` step from `s`.
pub open spec fn xoshiro_next(s: Seq<u64>) -> Seq<u64> {
    let t = s[1] << 17u64;
    let s2 = s[2] ^ s[0];
    let s3 = s[3] ^ s[1];
    let s1 = s[1] ^ s2;
    let s0 = s[0] ^ s3;
    seq![s0, s1, s2 ^ t, rotl(s3, 45)]
}

/// The high 32 bits of one draw.
pub open spec fn out32(s: Seq<u64>) -> u32 {
    (xoshiro_out(s) / 0x1_0000_0000) as u32
}

/// Uniform in `0..n` from one draw by multiply-shift; 0 for `n == 0`.
pub open spec fn below_spec(s: Seq<u64>, n: u32) -> u32 {
    if n == 0 {
        0
    } else {
        ((out32(s) as int * n as int) / 0x1_0000_0000) as u32
    }
}

/// Deterministic PRNG (`xoshiro256**`).
#[derive(Clone, PartialEq, Eq, Debug)]
pub struct Rng {
    s: [u64; 4],
    /// Number of draws so far. Purely diagnostic — it makes "where did the
    /// two runs diverge" answerable from a hash.
    draws: u64,
}

/// `splitmix64` step; used only for seeding.
pub fn splitmix64(state: &mut u64) -> (r: u64)
    ensures
        *final(state) == old(state).wrapping_add(GOLDEN),
        r == splitmix_mix(*final(state)),
{
    *state = state.wrapping_add(GOLDEN);
    let mut z = *state;
    z = (z ^ (z >> 30u64)).wrapping_mul(0xBF58_476D_1CE4_E5B9);
    z = (z ^ (z >> 27u64)).wrapping_mul(0x94D0_49BB_1331_11EB);
    z ^ (z >> 31u64)
}

/// `x` rotated left by `k` bits.
fn rotate_left(x: u64, k: u64) -> (r: u64)
    requires
        0 < k < 64,
    ensures
        r == rotl(x, k),
{
    (x << k) | (x >> (64 - k))
}

impl Rng {
    /// The four state words.
    pub closed spec fn words(&self) -> Seq<u64> {
        self.s@
    }

    /// Draws so far.
    pub closed spec fn count(&self) -> u64 {
        self.draws
    }

    /// The generator a 64-bit seed gives: four `splitmix64` words, no draws.
    pub open spec fn seeded(&self, seed: u64) -> bool {
        &&& self.words() == seq![
            splitmix_word(seed, 1),
            splitmix_word(seed, 2),
            splitmix_word(seed, 3),
            splitmix_word(seed, 4),
        ]
        &&& self.count() == 0
    }

    /// The state after one draw from `old`.
    pub open spec fn advanced(&self, old: Rng) -> bool {
        &&& self.words() == xoshiro_next(old.words())
        &&& self.count() == old.count() + 1
    }

    /// The state has room for `n` more draws before the counter runs out.
    pub open spec fn room(&self, n: int) -> bool {
        self.count() + n <= u64::MAX
    }

    /// Creates a generator from a 64-bit seed.
    pub fn new(seed: u64) -> (r: Rng)
        ensures
            r.seeded(seed),
            r.words().len() == 4,
    {
        let mut st = seed;
        let a = splitmix64(&mut st);
        let b = splitmix64(&mut st);
        let c = splitmix64(&mut st);
        let d = splitmix64(&mut st);
        proof {
            reveal_with_fuel(splitmix_state, 5);
        }
        let r = Rng { s: [a, b, c, d], draws: 0 };
        assert(r.s@ =~= seq![a, b, c, d]);
        r
    }

    /// Next 64 random bits.
    pub fn next_u64(&mut self) -> (r: u64)
        requires
            old(self).room(1),
        ensures
            r == xoshiro_out(old(self).words()),
            final(self).advanced(*old(self)),
            final(self).words().len() == 4,
    {
        let s0 = self.s[0];
        let s1 = self.s[1];
        let s2 = self.s[2];
        let s3 = self.s[3];
        let result = rotate_left(s1.wrapping_mul(5), 7).wrapping_mul(9);
        let t = s1 << 17u64;
        let n2 = s2 ^ s0;
        let n3 = s3 ^ s1;
        let n1 = s1 ^ n2;
        let n0 = s0 ^ n3;
        self.s = [n0, n1, n2 ^ t, rotate_left(n3, 45)];
        self.draws = self.draws + 1;
        assert(self.s@ =~= xoshiro_next(old(self).s@));
        result
    }

    /// Next 32 random bits (the high half; xoshiro's low bits are weaker).
    pub fn next_u32(&mut self) -> (r: u32)
        requires
            old(self).room(1),
        ensures
            r == out32(old(self).words()),
            final(self).advanced(*old(self)),
            final(self).words().len() == 4,
    {
        (self.next_u64() / 0x1_0000_0000) as u32
    }

    /// Uniform in `0..n`. Returns 0 for `n == 0`. One draw per call, always.
    pub fn below(&mut self, n: u32) -> (r: u32)
        requires
            old(self).room(1),
        ensures
            r == below_spec(old(self).words(), n),
            n > 0 ==> r < n,
            final(self).advanced(*old(self)),
            final(self).words().len() == 4,
    {
        let v = self.next_u32();
        if n == 0 {
            return 0;
        }
        proof {
            assert((v as int * n as int) / 0x1_0000_0000 < n) by (nonlinear_arith)
                requires v < 0x1_0000_0000, n > 0;
        }
        ((v as u64 * n as u64) / 0x1_0000_0000) as u32
    }

    /// Uniform in `lo..hi`. Returns `lo`, drawing nothing, if the range is empty.
    pub fn range_i32(&mut self, lo: i32, hi: i32) -> (r: i32)
        requires
            old(self).room(1),
        ensures
            hi <= lo ==> r == lo && *final(self) == *old(self),
            lo < hi ==> r == lo + below_spec(old(self).words(), (hi - lo) as u32),
            lo < hi ==> lo <= r < hi,
            lo < hi ==> final(self).advanced(*old(self)),
            final(self).words().len() == old(self).words().len(),
    {
        if hi <= lo {
            return lo;
        }
        let span = (hi as i64 - lo as i64) as u32;
        let x = self.below(span);
        (lo as i64 + x as i64) as i32
    }

    /// Uniform fixed-point value in `[0, 1)`.
    pub fn unit_fx(&mut self) -> (r: Fx)
        requires
            old(self).room(1),
        ensures
            r.0 as int == out32(old(self).words()) as int / 65536,
            0 <= r.0 < 65536,
            final(self).advanced(*old(self)),
            final(self).words().len() == 4,
    {
        Fx::from_raw((self.next_u32() / 65536) as i32)
    }

    /// Uniform fixed-point value in `[lo, hi)`.
    pub fn range_fx(&mut self, lo: Fx, hi: Fx) -> (r: Fx)
        requires
            old(self).room(1),
        ensures
            r.0 == sat(
                lo.0 + mul_raw(sat(hi.0 - lo.0), out32(old(self).words()) as int / 65536),
            ),
            final(self).advanced(*old(self)),
            final(self).words().len() == 4,
    {
        lo + (hi - lo) * self.unit_fx()
    }

    /// True with probability `num / den`.
    pub fn chance(&mut self, num: u32, den: u32) -> (r: bool)
        requires
            old(self).room(1),
        ensures
            r == (below_spec(old(self).words(), den) < num),
            final(self).advanced(*old(self)),
            final(self).words().len() == 4,
    {
        self.below(den) < num
    }

    /// How many values have been drawn since seeding.
    pub fn draws(&self) -> (r: u64)
        ensures
            r == self.count(),
    {
        self.draws
    }
}

/// The bytes of a generator's state: its four words, then the draw count.
pub open spec fn rng_bytes(words: Seq<u64>, draws: u64) -> Seq<u8> {
    le64(words[0]) + le64(words[1]) + le64(words[2]) + le64(words[3]) + le64(draws)
}

impl HashState for Rng {
    closed spec fn state_bytes(&self) -> Seq<u8> {
        rng_bytes(self.s@, self.draws)
    }

    fn hash_state(&self, h: &mut StateHasher) {
        let ghost h0 = h@;
        h.write_u64(self.s[0]);
        h.write_u64(self.s[1]);
        h.write_u64(self.s[2]);
        h.write_u64(self.s[3]);
        h.write_u64(self.draws);
        proof {
            let a = le64(self.s[0]);
            let b = le64(self.s[1]);
            let c = le64(self.s[2]);
            let d = le64(self.s[3]);
            let e = le64(self.draws);
            lemma_fnv_append(h0, a, b);
            lemma_fnv_append(h0, a + b, c);
            lemma_fnv_append(h0, a + b + c, d);
            lemma_fnv_append(h0, a + b + c + d, e);
        }
    }
}

} // verus!
