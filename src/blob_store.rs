//! The layout of a block file of records: a header of four little-endian
//! `u64` (hash seed, block size, block count, element count) padded to
//! `CONT_SIZE` bytes, then the blocks.

use vstd::prelude::*;
use crate::blob::{le_u64, lemma_le_u64_round_trip};
use crate::hashing::{u64_le, HashBytes};

verus! {

/// The size of the header area.
pub const CONT_SIZE: u64 = 32;

/// Where the element count sits in the header.
pub const ELEMS_LOC: u64 = 24;

/// The header bytes.
pub open spec fn header(hseed: u64, block_size: u64, nblocks: u64, elems: u64) -> Seq<u8> {
    u64_le(hseed) + u64_le(block_size) + u64_le(nblocks) + u64_le(elems)
}

/// The size of a file of `nblocks` blocks of `block_size` bytes, or `None`
/// where it does not fit in a `u64`.
pub fn file_len(block_size: u64, nblocks: u64) -> (r: Option<u64>)
    ensures
        r is Some <==> CONT_SIZE + block_size * nblocks <= u64::MAX,
        r is Some ==> r->0 == CONT_SIZE + block_size * nblocks,
{
    match block_size.checked_mul(nblocks) {
        Some(total) => total.checked_add(CONT_SIZE),
        None => {
            assert(block_size * nblocks > u64::MAX);
            assert(CONT_SIZE + block_size * nblocks > u64::MAX) by (nonlinear_arith)
                requires block_size * nblocks > u64::MAX;
            None
        },
    }
}

/// Where block `x` starts.
pub fn block_start(x: u64, block_size: u64) -> (r: u64)
    requires
        CONT_SIZE + x * block_size <= u64::MAX,
    ensures
        r == CONT_SIZE + x * block_size,
{
    assert(0 <= x * block_size) by (nonlinear_arith);
    CONT_SIZE + x * block_size
}

/// The header for the given values.
pub fn header_bytes(hseed: u64, block_size: u64, nblocks: u64, elems: u64) -> (r: Vec<u8>)
    ensures
        r@ == header(hseed, block_size, nblocks, elems),
{
    let mut r = hseed.to_hash_bytes();
    let mut b = block_size.to_hash_bytes();
    let mut n = nblocks.to_hash_bytes();
    let mut e = elems.to_hash_bytes();
    r.append(&mut b);
    r.append(&mut n);
    r.append(&mut e);
    r
}

/// The values of a header: the inverse of `header_bytes`.
pub fn parse_header(bytes: &[u8]) -> (r: (u64, u64, u64, u64))
    requires
        bytes@.len() >= 32,
    ensures
        r.0 == le_u64(bytes@.subrange(0, 8)),
        r.1 == le_u64(bytes@.subrange(8, 16)),
        r.2 == le_u64(bytes@.subrange(16, 24)),
        r.3 == le_u64(bytes@.subrange(24, 32)),
{
    (read_at(bytes, 0), read_at(bytes, 8), read_at(bytes, 16), read_at(bytes, 24))
}

fn read_at(bytes: &[u8], at: usize) -> (r: u64)
    requires
        at + 8 <= bytes@.len(),
    ensures
        r == le_u64(bytes@.subrange(at as int, at + 8)),
{
    (bytes[at] as u64) | ((bytes[at + 1] as u64) << 8u64) | ((bytes[at + 2] as u64) << 16u64) | ((
    bytes[at + 3] as u64) << 24u64) | ((bytes[at + 4] as u64) << 32u64) | ((bytes[at + 5] as u64)
        << 40u64) | ((bytes[at + 6] as u64) << 48u64) | ((bytes[at + 7] as u64) << 56u64)
}

/// Parsing a header gives back the values it was made from.
pub proof fn lemma_header_round_trip(hseed: u64, block_size: u64, nblocks: u64, elems: u64)
    ensures
        ({
            let h = header(hseed, block_size, nblocks, elems);
            &&& le_u64(h.subrange(0, 8)) == hseed
            &&& le_u64(h.subrange(8, 16)) == block_size
            &&& le_u64(h.subrange(16, 24)) == nblocks
            &&& le_u64(h.subrange(24, 32)) == elems
        }),
{
    let h = header(hseed, block_size, nblocks, elems);
    assert(h.subrange(0, 8) =~= u64_le(hseed));
    assert(h.subrange(8, 16) =~= u64_le(block_size));
    assert(h.subrange(16, 24) =~= u64_le(nblocks));
    assert(h.subrange(24, 32) =~= u64_le(elems));
    lemma_le_u64_round_trip(hseed);
    lemma_le_u64_round_trip(block_size);
    lemma_le_u64_round_trip(nblocks);
    lemma_le_u64_round_trip(elems);
}

/// The start of an empty block: a four-byte zero key length, then the room
/// left in the block, `block_size - 16`, as eight little-endian bytes.
pub fn empty_block_bytes(block_size: u64) -> (r: Vec<u8>)
    requires
        block_size >= 16,
    ensures
        r@ == seq![0u8, 0u8, 0u8, 0u8] + u64_le((block_size - 16) as u64),
{
    let mut r = vec![0u8, 0u8, 0u8, 0u8];
    let mut room = (block_size - 16).to_hash_bytes();
    r.append(&mut room);
    r
}

/// The element count after adding `n` (which may be negative), or `None`
/// where it would leave `u64`.
pub fn elems_after(elems: u64, n: i32) -> (r: Option<u64>)
    ensures
        r is Some <==> 0 <= elems + n <= u64::MAX,
        r is Some ==> r->0 == elems + n,
{
    if n >= 0 {
        elems.checked_add(n as u64)
    } else {
        elems.checked_sub((-(n as i64)) as u64)
    }
}

} // verus!
