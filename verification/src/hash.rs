//! State hashing for desync detection.
//!
//! FNV-1a over a canonical byte serialisation of whatever implements
//! [`HashState`]. Each implementation states, as a spec function, the exact
//! bytes it feeds; the hasher's contract is that its value is FNV-1a over
//! everything fed so far.

use vstd::prelude::*;
use crate::fx::Fx;
use crate::vec2::Vec2Fx;

verus! {

/// The FNV-1a 64-bit offset basis.
pub const OFFSET: u64 = 0xCBF2_9CE4_8422_2325;
/// The FNV-1a 64-bit prime.
pub const PRIME: u64 = 0x0000_0100_0000_01B3;

/// One FNV-1a step.
pub open spec fn fnv_step(h: u64, b: u8) -> u64 {
    (h ^ (b as u64)).wrapping_mul(PRIME)
}

/// FNV-1a from state `h` over `bytes`.
pub open spec fn fnv(h: u64, bytes: Seq<u8>) -> u64
    decreases bytes.len(),
{
    if bytes.len() == 0 {
        h
    } else {
        fnv_step(fnv(h, bytes.drop_last()), bytes.last())
    }
}

/// Feeding two byte strings one after the other is feeding their
/// concatenation.
pub proof fn lemma_fnv_append(h: u64, a: Seq<u8>, b: Seq<u8>)
    ensures
        fnv(fnv(h, a), b) == fnv(h, a + b),
    decreases b.len(),
{
    if b.len() == 0 {
        assert(a + b =~= a);
    } else {
        lemma_fnv_append(h, a, b.drop_last());
        assert((a + b).drop_last() =~= a + b.drop_last());
        assert((a + b).last() == b.last());
    }
}

/// Little-endian bytes of a `u16`.
pub open spec fn le16(v: u16) -> Seq<u8> {
    seq![(v % 256) as u8, (v / 256) as u8]
}

/// Little-endian bytes of a `u32`.
pub open spec fn le32(v: u32) -> Seq<u8> {
    seq![(v % 256) as u8, (v / 256 % 256) as u8, (v / 0x1_0000 % 256) as u8, (v / 0x100_0000) as u8]
}

/// Little-endian bytes of a `u64`.
pub open spec fn le64(v: u64) -> Seq<u8> {
    le32((v % 0x1_0000_0000) as u32) + le32((v / 0x1_0000_0000) as u32)
}

/// The two's-complement bit pattern of an `i32`.
pub open spec fn bits32(v: i32) -> u32 {
    (if v < 0 { v + 0x1_0000_0000 } else { v as int }) as u32
}

/// The two's-complement bit pattern of an `i64`.
pub open spec fn bits64(v: i64) -> u64 {
    (if v < 0 { v + 0x1_0000_0000_0000_0000 } else { v as int }) as u64
}

/// Bytes of an `i32`: its two's-complement pattern, little-endian.
pub open spec fn le_i32(v: i32) -> Seq<u8> {
    le32(bits32(v))
}

/// Bytes of a `bool`: one byte, 1 or 0.
pub open spec fn bool_byte(v: bool) -> Seq<u8> {
    seq![if v { 1u8 } else { 0u8 }]
}

/// Accumulates a 64-bit FNV-1a hash.
#[derive(Clone, Debug)]
pub struct StateHasher {
    h: u64,
}

impl View for StateHasher {
    type V = u64;

    closed spec fn view(&self) -> u64 {
        self.h
    }
}

impl StateHasher {
    /// A fresh hasher.
    pub fn new() -> (r: StateHasher)
        ensures
            r@ == OFFSET,
    {
        StateHasher { h: OFFSET }
    }

    /// Feeds raw bytes.
    pub fn write_bytes(&mut self, bytes: &[u8])
        ensures
            final(self)@ == fnv(old(self)@, bytes@),
    {
        let ghost start = self.h;
        let mut i: usize = 0;
        while i < bytes.len()
            invariant
                i <= bytes.len(),
                self.h == fnv(start, bytes@.take(i as int)),
            decreases bytes.len() - i,
        {
            assert(bytes@.take(i + 1).drop_last() =~= bytes@.take(i as int));
            self.h = (self.h ^ (bytes[i] as u64)).wrapping_mul(PRIME);
            i = i + 1;
        }
        assert(bytes@.take(i as int) =~= bytes@);
    }

    /// Feeds a `u8`.
    pub fn write_u8(&mut self, v: u8)
        ensures
            final(self)@ == fnv(old(self)@, seq![v]),
    {
        let ghost s: Seq<u8> = seq![v];
        assert(s.drop_last() =~= Seq::<u8>::empty());
        assert(fnv(self.h, s.drop_last()) == self.h);
        self.h = (self.h ^ (v as u64)).wrapping_mul(PRIME);
    }

    /// Feeds a `u16` (little-endian).
    pub fn write_u16(&mut self, v: u16)
        ensures
            final(self)@ == fnv(old(self)@, le16(v)),
    {
        let a = [(v % 256) as u8, (v / 256) as u8];
        assert(a@ =~= le16(v));
        self.write_bytes(&a);
    }

    /// Feeds a `u32` (little-endian).
    pub fn write_u32(&mut self, v: u32)
        ensures
            final(self)@ == fnv(old(self)@, le32(v)),
    {
        let a = [(v % 256) as u8, (v / 256 % 256) as u8, (v / 0x1_0000 % 256) as u8, (v / 0x100_0000) as u8];
        assert(a@ =~= le32(v));
        self.write_bytes(&a);
    }

    /// Feeds a `u64` (little-endian).
    pub fn write_u64(&mut self, v: u64)
        ensures
            final(self)@ == fnv(old(self)@, le64(v)),
    {
        let ghost h0 = self.h;
        self.write_u32((v % 0x1_0000_0000) as u32);
        self.write_u32((v / 0x1_0000_0000) as u32);
        proof {
            lemma_fnv_append(h0, le32((v % 0x1_0000_0000) as u32), le32((v / 0x1_0000_0000) as u32));
        }
    }

    /// Feeds an `i32` (little-endian two's complement).
    pub fn write_i32(&mut self, v: i32)
        ensures
            final(self)@ == fnv(old(self)@, le_i32(v)),
    {
        proof {
            lemma_bits32(v);
        }
        self.write_u32(v as u32);
    }

    /// Feeds an `i64` (little-endian two's complement).
    pub fn write_i64(&mut self, v: i64)
        ensures
            final(self)@ == fnv(old(self)@, le64(bits64(v))),
    {
        proof {
            lemma_bits64(v);
        }
        self.write_u64(v as u64);
    }

    /// Feeds a `bool` as one byte.
    pub fn write_bool(&mut self, v: bool)
        ensures
            final(self)@ == fnv(old(self)@, bool_byte(v)),
    {
        self.write_u8(if v { 1u8 } else { 0u8 });
    }

    /// Feeds anything hashable.
    pub fn write<T: HashState>(&mut self, v: &T)
        ensures
            final(self)@ == fnv(old(self)@, v.state_bytes()),
    {
        v.hash_state(self);
    }

    /// The hash so far.
    pub fn finish(&self) -> (r: u64)
        ensures
            r == self@,
    {
        self.h
    }
}

proof fn lemma_bits32(v: i32)
    ensures
        (v as u32) == bits32(v),
{
    assert((v as u32) as int == if v < 0 { v + 0x1_0000_0000 } else { v as int }) by (bit_vector);
}

proof fn lemma_bits64(v: i64)
    ensures
        (v as u64) == bits64(v),
{
    assert((v as u64) as int == if v < 0 { v + 0x1_0000_0000_0000_0000 } else { v as int })
        by (bit_vector);
}

/// Types whose simulation-relevant state can be fed to a [`StateHasher`].
///
/// Implementations are **canonical**: the bytes they feed are a function of
/// the value's state alone, stated by [`HashState::state_bytes`].
pub trait HashState {
    /// The canonical bytes of this value's state.
    spec fn state_bytes(&self) -> Seq<u8>;

    /// Feeds this value's state into `h`.
    fn hash_state(&self, h: &mut StateHasher)
        ensures
            final(h)@ == fnv(old(h)@, self.state_bytes()),
    ;
}

impl HashState for Fx {
    open spec fn state_bytes(&self) -> Seq<u8> {
        le_i32(self.0)
    }

    fn hash_state(&self, h: &mut StateHasher) {
        h.write_i32(self.0);
    }
}

impl HashState for Vec2Fx {
    open spec fn state_bytes(&self) -> Seq<u8> {
        le_i32(self.x.0) + le_i32(self.y.0)
    }

    fn hash_state(&self, h: &mut StateHasher) {
        let ghost h0 = h@;
        h.write_i32(self.x.0);
        h.write_i32(self.y.0);
        proof {
            lemma_fnv_append(h0, le_i32(self.x.0), le_i32(self.y.0));
        }
    }
}

impl HashState for bool {
    open spec fn state_bytes(&self) -> Seq<u8> {
        bool_byte(*self)
    }

    fn hash_state(&self, h: &mut StateHasher) {
        h.write_bool(*self);
    }
}

impl HashState for u8 {
    open spec fn state_bytes(&self) -> Seq<u8> {
        seq![*self]
    }

    fn hash_state(&self, h: &mut StateHasher) {
        h.write_u8(*self);
    }
}

impl HashState for u16 {
    open spec fn state_bytes(&self) -> Seq<u8> {
        le16(*self)
    }

    fn hash_state(&self, h: &mut StateHasher) {
        h.write_u16(*self);
    }
}

impl HashState for u32 {
    open spec fn state_bytes(&self) -> Seq<u8> {
        le32(*self)
    }

    fn hash_state(&self, h: &mut StateHasher) {
        h.write_u32(*self);
    }
}

impl HashState for u64 {
    open spec fn state_bytes(&self) -> Seq<u8> {
        le64(*self)
    }

    fn hash_state(&self, h: &mut StateHasher) {
        h.write_u64(*self);
    }
}

impl HashState for i32 {
    open spec fn state_bytes(&self) -> Seq<u8> {
        le_i32(*self)
    }

    fn hash_state(&self, h: &mut StateHasher) {
        h.write_i32(*self);
    }
}

impl HashState for i64 {
    open spec fn state_bytes(&self) -> Seq<u8> {
        le64(bits64(*self))
    }

    fn hash_state(&self, h: &mut StateHasher) {
        h.write_i64(*self);
    }
}

/// The bytes of an optional value: a 0 byte for none, else a 1 byte and the
/// value's bytes.
pub open spec fn option_bytes<T: HashState>(v: Option<T>) -> Seq<u8> {
    match v {
        None => seq![0u8],
        Some(x) => seq![1u8] + x.state_bytes(),
    }
}

impl<T: HashState> HashState for Option<T> {
    open spec fn state_bytes(&self) -> Seq<u8> {
        option_bytes(*self)
    }

    fn hash_state(&self, h: &mut StateHasher) {
        match self {
            None => h.write_u8(0),
            Some(v) => {
                let ghost h0 = h@;
                h.write_u8(1);
                v.hash_state(h);
                proof {
                    lemma_fnv_append(h0, seq![1u8], v.state_bytes());
                }
            },
        }
    }
}

/// The elements' bytes, one after another.
pub open spec fn concat_bytes<T: HashState>(s: Seq<T>) -> Seq<u8>
    decreases s.len(),
{
    if s.len() == 0 {
        Seq::empty()
    } else {
        concat_bytes(s.drop_last()) + s.last().state_bytes()
    }
}

/// The bytes of a sequence: its length as a `u64`, then every element.
pub open spec fn seq_bytes<T: HashState>(s: Seq<T>) -> Seq<u8> {
    le64(s.len() as u64) + concat_bytes(s)
}

impl<T: HashState> HashState for Vec<T> {
    open spec fn state_bytes(&self) -> Seq<u8> {
        seq_bytes(self@)
    }

    fn hash_state(&self, h: &mut StateHasher) {
        let ghost h0 = h@;
        h.write_u64(self.len() as u64);
        let ghost h1 = h@;
        let mut i: usize = 0;
        while i < self.len()
            invariant
                i <= self.len(),
                h1 == fnv(h0, le64(self@.len() as u64)),
                h@ == fnv(h1, concat_bytes(self@.take(i as int))),
            decreases self.len() - i,
        {
            let ghost hb = h@;
            self[i].hash_state(h);
            proof {
                assert(self@.take(i + 1).drop_last() =~= self@.take(i as int));
                lemma_fnv_append(h1, concat_bytes(self@.take(i as int)), self@[i as int].state_bytes());
            }
            i = i + 1;
        }
        proof {
            assert(self@.take(i as int) =~= self@);
            lemma_fnv_append(h0, le64(self@.len() as u64), concat_bytes(self@));
        }
    }
}

} // verus!
