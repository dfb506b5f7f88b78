//! A seeded byte-mixing hash function.

use vstd::prelude::*;
use vstd::slice::slice_to_vec;
use vstd::string::StringSliceAdditionalSpecFns;
use vstd::utf8::encode_utf8;

verus! {

/// The accumulator is kept modulo this value, one less than 2^64.
pub open spec fn modulus() -> int {
    0xffff_ffff_ffff_ffff
}

/// One mixing step: the new accumulator after absorbing `byte`.
pub open spec fn mix(n: int, prev: u8, byte: u8) -> int {
    ((n + 11) * (byte as int + 13) + (byte ^ prev) as int) % modulus()
}

/// The (accumulator, previous byte) state after absorbing `bytes` in order,
/// starting from `(n, prev)`.
pub open spec fn absorb(n: int, prev: u8, bytes: Seq<u8>) -> (int, u8)
    decreases bytes.len(),
{
    if bytes.len() == 0 {
        (n, prev)
    } else {
        absorb(mix(n, prev, bytes[0]), bytes[0], bytes.drop_first())
    }
}

/// Little-endian bytes of a 64-bit integer.
pub open spec fn u64_le(x: u64) -> Seq<u8> {
    seq![
        x as u8,
        (x >> 8) as u8,
        (x >> 16) as u8,
        (x >> 24) as u8,
        (x >> 32) as u8,
        (x >> 40) as u8,
        (x >> 48) as u8,
        (x >> 56) as u8,
    ]
}

/// Little-endian bytes of a 32-bit integer.
pub open spec fn u32_le(x: u32) -> Seq<u8> {
    seq![x as u8, (x >> 8) as u8, (x >> 16) as u8, (x >> 24) as u8]
}

/// The digest of `bytes` under `seed`: the seed's bytes are absorbed first,
/// then the value's, from a zero state.
pub open spec fn hash_of(seed: u64, bytes: Seq<u8>) -> u64 {
    let s = absorb(0, 0, u64_le(seed));
    absorb(s.0, s.1, bytes).0 as u64
}

/// A mixing step stays below the modulus, and its intermediate value fits
/// in 128 bits.
proof fn lemma_mix_bounds(n: int, prev: u8, byte: u8)
    requires
        0 <= n < modulus(),
    ensures
        0 <= mix(n, prev, byte) < modulus(),
        (n + 11) * (byte as int + 13) + (byte ^ prev) as int <= 0xffff_ffff_ffff_ffff_ffff_ffff_ffff_ffff,
{
    let b = byte as int;
    let x = byte ^ prev;
    assert(x <= 255u8) by (bit_vector);
    assert((n + 11) * (b + 13) <= (modulus() + 11) * 268) by (nonlinear_arith)
        requires 0 <= n < modulus(), 0 <= b < 256;
    assert(0 <= (n + 11) * (b + 13)) by (nonlinear_arith)
        requires 0 <= n, 0 <= b;
}

/// The running state of the hash: an accumulator and the last byte seen.
pub struct MHash {
    prev: u8,
    n: u128,
}

impl MHash {
    /// The accumulator as a mathematical integer.
    pub closed spec fn acc(&self) -> int {
        self.n as int
    }

    /// The last byte absorbed (zero before any).
    pub closed spec fn last(&self) -> u8 {
        self.prev
    }

    /// The accumulator is below the modulus.
    pub closed spec fn wf(&self) -> bool {
        self.n < 0xffff_ffff_ffff_ffff
    }

    /// A hasher in its zero state.
    pub fn new() -> (r: MHash)
        ensures
            r.wf(),
            r.acc() == 0,
            r.last() == 0,
    {
        MHash { prev: 0, n: 0 }
    }

    /// Absorbs `bytes` in order.
    pub fn write(&mut self, bytes: &[u8])
        requires
            old(self).wf(),
        ensures
            final(self).wf(),
            (final(self).acc(), final(self).last()) == absorb(
                old(self).acc(),
                old(self).last(),
                bytes@,
            ),
    {
        let mut i: usize = 0;
        assert(bytes@.skip(0) =~= bytes@);
        while i < bytes.len()
            invariant
                self.wf(),
                i <= bytes@.len(),
                absorb(old(self).acc(), old(self).last(), bytes@) == absorb(
                    self.acc(),
                    self.last(),
                    bytes@.skip(i as int),
                ),
            decreases bytes@.len() - i,
        {
            let byte = bytes[i];
            proof {
                lemma_mix_bounds(self.n as int, self.prev, byte);
                let rest = bytes@.skip(i as int);
                assert(rest[0] == byte);
                assert(rest.drop_first() =~= bytes@.skip(i + 1));
            }
            self.n = ((self.n + 11) * (byte as u128 + 13) + (byte ^ self.prev) as u128)
                % (0xffff_ffff_ffff_ffff as u128);
            self.prev = byte;
            i = i + 1;
        }
        proof {
            assert(bytes@.skip(i as int).len() == 0);
        }
    }

    /// The digest: the accumulator.
    pub fn finish(&self) -> (r: u64)
        requires
            self.wf(),
        ensures
            r == self.acc(),
    {
        self.n as u64
    }
}

/// Values with a stable byte representation: equal values give equal bytes.
/// The representation is what the hash absorbs and what keys are compared by.
pub trait HashBytes {
    spec fn hash_bytes(&self) -> Seq<u8>;

    fn to_hash_bytes(&self) -> (r: Vec<u8>)
        ensures
            r@ == self.hash_bytes(),
    ;
}

/// Text is represented by its UTF-8 bytes.
impl HashBytes for str {
    open spec fn hash_bytes(&self) -> Seq<u8> {
        self.spec_bytes()
    }

    fn to_hash_bytes(&self) -> (r: Vec<u8>) {
        slice_to_vec(self.as_bytes())
    }
}

impl HashBytes for u64 {
    open spec fn hash_bytes(&self) -> Seq<u8> {
        u64_le(*self)
    }

    fn to_hash_bytes(&self) -> (r: Vec<u8>) {
        let x = *self;
        let r = vec![
            x as u8,
            (x >> 8) as u8,
            (x >> 16) as u8,
            (x >> 24) as u8,
            (x >> 32) as u8,
            (x >> 40) as u8,
            (x >> 48) as u8,
            (x >> 56) as u8,
        ];
        assert(r@ =~= u64_le(x));
        r
    }
}

impl HashBytes for u32 {
    open spec fn hash_bytes(&self) -> Seq<u8> {
        u32_le(*self)
    }

    fn to_hash_bytes(&self) -> (r: Vec<u8>) {
        let x = *self;
        let r = vec![x as u8, (x >> 8) as u8, (x >> 16) as u8, (x >> 24) as u8];
        assert(r@ =~= u32_le(x));
        r
    }
}

/// A signed integer is represented by the bytes of its two's complement.
impl HashBytes for i32 {
    open spec fn hash_bytes(&self) -> Seq<u8> {
        u32_le(*self as u32)
    }

    fn to_hash_bytes(&self) -> (r: Vec<u8>) {
        (*self as u32).to_hash_bytes()
    }
}

/// A character is represented by its scalar value.
impl HashBytes for char {
    open spec fn hash_bytes(&self) -> Seq<u8> {
        u32_le(*self as u32)
    }

    fn to_hash_bytes(&self) -> (r: Vec<u8>) {
        (*self as u32).to_hash_bytes()
    }
}

/// Owned text is represented like borrowed text: by its UTF-8 bytes.
impl HashBytes for String {
    open spec fn hash_bytes(&self) -> Seq<u8> {
        encode_utf8(self@)
    }

    fn to_hash_bytes(&self) -> (r: Vec<u8>) {
        self.as_str().to_hash_bytes()
    }
}

/// A byte string is represented by itself.
impl HashBytes for [u8] {
    open spec fn hash_bytes(&self) -> Seq<u8> {
        self@
    }

    fn to_hash_bytes(&self) -> (r: Vec<u8>) {
        slice_to_vec(self)
    }
}

/// A byte vector is represented by its bytes.
impl HashBytes for Vec<u8> {
    open spec fn hash_bytes(&self) -> Seq<u8> {
        self@
    }

    fn to_hash_bytes(&self) -> (r: Vec<u8>) {
        slice_to_vec(self.as_slice())
    }
}

/// A reference is represented as what it points to.
impl<'a, T: HashBytes + ?Sized> HashBytes for &'a T {
    open spec fn hash_bytes(&self) -> Seq<u8> {
        (**self).hash_bytes()
    }

    fn to_hash_bytes(&self) -> (r: Vec<u8>) {
        (**self).to_hash_bytes()
    }
}

/// Hashes `value` under `seed`: the seed's eight little-endian bytes, then the
/// value's byte representation, are mixed into an accumulator that starts at
/// zero.
pub fn hash<H: HashBytes>(seed: u64, value: H) -> (r: u64)
    ensures
        r == hash_of(seed, value.hash_bytes()),
{
    let value_bytes = value.to_hash_bytes();
    hash_raw(seed, value_bytes.as_slice())
}

/// Hashes the byte string `bytes` under `seed`.
pub fn hash_raw(seed: u64, bytes: &[u8]) -> (r: u64)
    ensures
        r == hash_of(seed, bytes@),
{
    let mut hasher = MHash::new();
    let seed_bytes = seed.to_hash_bytes();
    hasher.write(seed_bytes.as_slice());
    hasher.write(bytes);
    hasher.finish()
}

/// Whether two byte sequences are equal.
pub fn bytes_equal(a: &[u8], b: &[u8]) -> (r: bool)
    ensures
        r == (a@ == b@),
{
    if a.len() != b.len() {
        return false;
    }
    let mut i: usize = 0;
    while i < a.len()
        invariant
            a@.len() == b@.len(),
            i <= a@.len(),
            forall|j: int| 0 <= j < i ==> a@[j] == b@[j],
        decreases a@.len() - i,
    {
        if a[i] != b[i] {
            return false;
        }
        i = i + 1;
    }
    assert(a@ =~= b@);
    true
}

/// Hashing is deterministic: values with the same byte representation have
/// the same digest under the same seed, whatever call computes it.
pub proof fn lemma_hash_deterministic<H: HashBytes>(seed: u64, a: H, b: H)
    requires
        a.hash_bytes() == b.hash_bytes(),
    ensures
        hash_of(seed, a.hash_bytes()) == hash_of(seed, b.hash_bytes()),
{
}

} // verus!
