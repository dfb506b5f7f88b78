//! A key/value record of raw bytes, framed as the two lengths (eight bytes
//! each, little-endian) followed by the key and the value.

use vstd::prelude::*;
use crate::hashing::{hash, hash_of, u64_le};

verus! {

/// The integer whose little-endian bytes are the first eight of `s`.
pub open spec fn le_u64(s: Seq<u8>) -> u64 {
    (s[0] as u64) | ((s[1] as u64) << 8u64) | ((s[2] as u64) << 16u64) | ((s[3] as u64) << 24u64)
        | ((s[4] as u64) << 32u64) | ((s[5] as u64) << 40u64) | ((s[6] as u64) << 48u64) | ((
    s[7] as u64) << 56u64)
}

/// Reading back eight bytes written little-endian gives the same integer.
pub proof fn lemma_le_u64_round_trip(x: u64)
    ensures
        le_u64(u64_le(x)) == x,
{
    let s = u64_le(x);
    assert(s[0] == x as u8 && s[1] == (x >> 8) as u8 && s[2] == (x >> 16) as u8 && s[3] == (x
        >> 24) as u8 && s[4] == (x >> 32) as u8 && s[5] == (x >> 40) as u8 && s[6] == (x >> 48) as u8
        && s[7] == (x >> 56) as u8);
    assert(((x as u8) as u64) | ((((x >> 8u64) as u8) as u64) << 8u64) | ((((x >> 16u64) as u8) as u64)
        << 16u64) | ((((x >> 24u64) as u8) as u64) << 24u64) | ((((x >> 32u64) as u8) as u64) << 32u64)
        | ((((x >> 40u64) as u8) as u64) << 40u64) | ((((x >> 48u64) as u8) as u64) << 48u64) | ((((x
        >> 56u64) as u8) as u64) << 56u64) == x) by (bit_vector);
}

/// The framed form of a record with key `k` and value `v`.
pub open spec fn frame(k: Seq<u8>, v: Seq<u8>) -> Seq<u8> {
    u64_le(k.len() as u64) + u64_le(v.len() as u64) + k + v
}

/// A record: a key and a value, both raw bytes.
pub struct Blob {
    k: Vec<u8>,
    v: Vec<u8>,
}

fn append_bytes(w: &mut Vec<u8>, bytes: &[u8])
    ensures
        final(w)@ == old(w)@ + bytes@,
{
    let mut i: usize = 0;
    while i < bytes.len()
        invariant
            i <= bytes@.len(),
            w@ == old(w)@ + bytes@.take(i as int),
        decreases bytes@.len() - i,
    {
        w.push(bytes[i]);
        assert(bytes@.take(i + 1) =~= bytes@.take(i as int).push(bytes@[i as int]));
        i = i + 1;
    }
    assert(bytes@.take(i as int) =~= bytes@);
}

fn copy_range(bytes: &[u8], from: usize, to: usize) -> (r: Vec<u8>)
    requires
        from <= to <= bytes@.len(),
    ensures
        r@ == bytes@.subrange(from as int, to as int),
{
    let mut r: Vec<u8> = Vec::new();
    let mut i: usize = from;
    while i < to
        invariant
            from <= i <= to,
            to <= bytes@.len(),
            r@ == bytes@.subrange(from as int, i as int),
        decreases to - i,
    {
        r.push(bytes[i]);
        assert(bytes@.subrange(from as int, i + 1) =~= bytes@.subrange(from as int, i as int).push(
            bytes@[i as int],
        ));
        i = i + 1;
    }
    r
}

fn read_u64(bytes: &[u8], at: usize) -> (r: u64)
    requires
        at + 8 <= bytes@.len(),
    ensures
        r == le_u64(bytes@.subrange(at as int, at + 8)),
{
    (bytes[at] as u64) | ((bytes[at + 1] as u64) << 8u64) | ((bytes[at + 2] as u64) << 16u64) | ((
    bytes[at + 3] as u64) << 24u64) | ((bytes[at + 4] as u64) << 32u64) | ((bytes[at + 5] as u64)
        << 40u64) | ((bytes[at + 6] as u64) << 48u64) | ((bytes[at + 7] as u64) << 56u64)
}

impl Blob {
    pub closed spec fn key(&self) -> Seq<u8> {
        self.k@
    }

    pub closed spec fn value(&self) -> Seq<u8> {
        self.v@
    }

    /// A record of already encoded key and value bytes.
    pub fn new(k: Vec<u8>, v: Vec<u8>) -> (r: Blob)
        ensures
            r.key() == k@,
            r.value() == v@,
    {
        Blob { k, v }
    }

    /// The value's bytes.
    pub fn value_bytes(&self) -> (r: &[u8])
        ensures
            r@ == self.value(),
    {
        self.v.as_slice()
    }

    /// The size of the framed record: two eight-byte lengths, the key and
    /// the value.
    pub fn len(&self) -> (r: usize)
        requires
            16 + self.key().len() + self.value().len() <= usize::MAX,
        ensures
            r == 16 + self.key().len() + self.value().len(),
    {
        8 + 8 + self.k.len() + self.v.len()
    }

    /// The hash of the key under `seed`.
    pub fn k_hash(&self, seed: u64) -> (r: u64)
        ensures
            r == hash_of(seed, self.key()),
    {
        hash(seed, &self.k)
    }

    /// Whether the two records have the same key.
    pub fn key_match(&self, rhs: &Self) -> (r: bool)
        ensures
            r == (self.key() == rhs.key()),
    {
        crate::hashing::bytes_equal(self.k.as_slice(), rhs.k.as_slice())
    }

    /// Appends the framed record to `w`.
    pub fn write(&self, w: &mut Vec<u8>)
        ensures
            final(w)@ == old(w)@ + frame(self.key(), self.value()),
    {
        let kl = self.k.len() as u64;
        let vl = self.v.len() as u64;
        let kb = vec![
            kl as u8,
            (kl >> 8) as u8,
            (kl >> 16) as u8,
            (kl >> 24) as u8,
            (kl >> 32) as u8,
            (kl >> 40) as u8,
            (kl >> 48) as u8,
            (kl >> 56) as u8,
        ];
        let vb = vec![
            vl as u8,
            (vl >> 8) as u8,
            (vl >> 16) as u8,
            (vl >> 24) as u8,
            (vl >> 32) as u8,
            (vl >> 40) as u8,
            (vl >> 48) as u8,
            (vl >> 56) as u8,
        ];
        assert(kb@ =~= u64_le(kl));
        assert(vb@ =~= u64_le(vl));
        append_bytes(w, kb.as_slice());
        append_bytes(w, vb.as_slice());
        append_bytes(w, self.k.as_slice());
        append_bytes(w, self.v.as_slice());
        assert(w@ =~= old(w)@ + frame(self.key(), self.value()));
    }

    /// The key and value lengths that a framed record starts with, or `None`
    /// if `header` is shorter than the two of them.
    pub fn frame_lengths(header: &[u8]) -> (r: Option<(u64, u64)>)
        ensures
            r == if header@.len() >= 16 {
                Some((le_u64(header@.subrange(0, 8)), le_u64(header@.subrange(8, 16))))
            } else {
                None
            },
    {
        if header.len() < 16 {
            None
        } else {
            Some((read_u64(header, 0), read_u64(header, 8)))
        }
    }

    /// Reads one framed record from the front of `bytes`: the record and the
    /// number of bytes it took, or `None` if `bytes` is shorter than the
    /// lengths it starts with call for.
    pub fn read(bytes: &[u8]) -> (r: Option<(Blob, usize)>)
        ensures
            r.is_some() <==> bytes@.len() >= 16 && 16 + le_u64(bytes@.subrange(0, 8)) as int
                + le_u64(bytes@.subrange(8, 16)) as int <= bytes@.len(),
            r.is_some() ==> {
                let kl = le_u64(bytes@.subrange(0, 8)) as int;
                let vl = le_u64(bytes@.subrange(8, 16)) as int;
                &&& r.unwrap().0.key() == bytes@.subrange(16, 16 + kl)
                &&& r.unwrap().0.value() == bytes@.subrange(16 + kl, 16 + kl + vl)
                &&& r.unwrap().1 == 16 + kl + vl
            },
    {
        if bytes.len() < 16 {
            return None;
        }
        let kl = read_u64(bytes, 0);
        let vl = read_u64(bytes, 8);
        let room = (bytes.len() - 16) as u64;
        if kl > room || vl > room - kl {
            return None;
        }
        let k_end = 16 + kl as usize;
        let v_end = k_end + vl as usize;
        let k = copy_range(bytes, 16, k_end);
        let v = copy_range(bytes, k_end, v_end);
        Some((Blob { k, v }, v_end))
    }
}

/// Reading what `write` appended gives back the same key and value, and
/// takes exactly the framed bytes.
pub proof fn lemma_write_read(k: Seq<u8>, v: Seq<u8>, rest: Seq<u8>)
    requires
        k.len() <= u64::MAX,
        v.len() <= u64::MAX,
    ensures
        ({
            let bytes = frame(k, v) + rest;
            let kl = k.len() as int;
            let vl = v.len() as int;
            &&& le_u64(bytes.subrange(0, 8)) == kl
            &&& le_u64(bytes.subrange(8, 16)) == vl
            &&& bytes.subrange(16, 16 + kl) == k
            &&& bytes.subrange(16 + kl, 16 + kl + vl) == v
        }),
{
    let bytes = frame(k, v) + rest;
    lemma_le_u64_round_trip(k.len() as u64);
    lemma_le_u64_round_trip(v.len() as u64);
    assert(bytes.subrange(0, 8) =~= u64_le(k.len() as u64));
    assert(bytes.subrange(8, 16) =~= u64_le(v.len() as u64));
    let kl = k.len() as int;
    let vl = v.len() as int;
    assert(bytes.subrange(16, 16 + kl) =~= k);
    assert(bytes.subrange(16 + kl, 16 + kl + vl) =~= v);
}

} // verus!
