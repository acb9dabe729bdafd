//! A small 32-bit mixer used to break ties while resolving removed buckets.
use vstd::prelude::*;

verus! {

/// The digest of an FNV-1a hasher that starts from the state `key` and is
/// fed `bytes`: each byte is xor-ed into the state, which is then multiplied
/// by the 64-bit FNV prime, wrapping.
pub open spec fn fnv_digest(key: u64, bytes: Seq<u8>) -> u64
    decreases bytes.len(),
{
    if bytes.len() == 0 {
        key
    } else {
        let h = fnv_digest(key, bytes.drop_last());
        (((h ^ (bytes.last() as u64)) as int * 0x100000001b3) % 0x1_0000_0000_0000_0000) as u64
    }
}

/// Relies on fnv::FnvHasher (`with_key`, `write`, `finish`): the state starts
/// at `key`, `write` folds each byte in as FNV-1a does, and `finish` returns
/// the state.
#[verifier::external_body]
fn fnv_hash(key: u64, bytes: &[u8]) -> (r: u64)
    ensures
        r == fnv_digest(key, bytes@),
{
    let mut h = fnv::FnvHasher::with_key(key);
    std::hash::Hasher::write(&mut h, bytes);
    std::hash::Hasher::finish(&h)
}

/// The four little-endian bytes of `k`.
pub open spec fn le_bytes(k: u32) -> Seq<u8> {
    seq![
        (k % 0x100) as u8,
        (k / 0x100 % 0x100) as u8,
        (k / 0x1_0000 % 0x100) as u8,
        (k / 0x100_0000 % 0x100) as u8,
    ]
}

/// The value of `fasthash(k, seed)`: the FNV-1a digest of `k`'s bytes from
/// the state `seed`, truncated to its low 32 bits.
pub open spec fn fasthash_spec(k: u32, seed: u32) -> u32 {
    fnv_digest(seed as u64, le_bytes(k)) as u32
}

/// A 32-bit hash of `k`, with `seed` as the initial hasher state.
pub fn fasthash(k: u32, seed: u32) -> (r: u32)
    ensures
        r == fasthash_spec(k, seed),
{
    let bytes: [u8; 4] = [
        (k % 0x100) as u8,
        (k / 0x100 % 0x100) as u8,
        (k / 0x1_0000 % 0x100) as u8,
        (k / 0x100_0000 % 0x100) as u8,
    ];
    proof {
        assert(bytes@ =~= le_bytes(k));
    }
    let d = fnv_hash(seed as u64, &bytes);
    d as u32
}

} // verus!
