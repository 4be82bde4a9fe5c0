//! The crate's stable 64-bit content hash.
//!
//! Chunks are deduplicated and embeddings are reused by a hash of a chunk's
//! text and kind, so the hash must be a pure function of those bytes.  The
//! hash used everywhere in this crate is 64-bit FNV-1a.

use vstd::prelude::*;

verus! {

pub const FNV_OFFSET_BASIS: u64 = 0xcbf2_9ce4_8422_2325;

pub const FNV_PRIME: u64 = 0x0000_0100_0000_01b3;

/// One FNV-1a round: fold the next byte into the running state.
pub open spec fn fnv1a_step(h: u64, b: u8) -> u64 {
    vstd::wrapping::u64_specs::wrapping_mul(h ^ (b as u64), FNV_PRIME)
}

/// 64-bit FNV-1a over a byte sequence.
pub open spec fn fnv1a(bytes: Seq<u8>) -> u64
    decreases bytes.len(),
{
    if bytes.len() == 0 {
        FNV_OFFSET_BASIS
    } else {
        fnv1a_step(fnv1a(bytes.drop_last()), bytes.last())
    }
}

/// The content hash of a chunk: the text hash combined with the kind hash.
pub open spec fn spec_chunk_hash(text: Seq<u8>, kind: Seq<u8>) -> u64 {
    fnv1a(text) ^ fnv1a(kind)
}

pub fn fnv1a_hash(bytes: &[u8]) -> (h: u64)
    ensures
        h == fnv1a(bytes@),
{
    let mut h: u64 = FNV_OFFSET_BASIS;
    let mut i: usize = 0;
    while i < bytes.len()
        invariant
            i <= bytes@.len(),
            h == fnv1a(bytes@.subrange(0, i as int)),
        decreases bytes@.len() - i,
    {
        proof {
            assert(bytes@.subrange(0, i + 1).drop_last() =~= bytes@.subrange(0, i as int));
            assert(bytes@.subrange(0, i + 1).last() == bytes@[i as int]);
        }
        h = (h ^ (bytes[i] as u64)).wrapping_mul(FNV_PRIME);
        i = i + 1;
    }
    proof {
        assert(bytes@.subrange(0, bytes@.len() as int) =~= bytes@);
    }
    h
}

/// The content hash of a chunk, as stored and compared by the chunk store.
pub fn chunk_hash(text: &[u8], kind: &[u8]) -> (h: u64)
    ensures
        h == spec_chunk_hash(text@, kind@),
{
    fnv1a_hash(text) ^ fnv1a_hash(kind)
}

} // verus!
