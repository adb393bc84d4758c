//! The four checksum functions, each a call into the crate that computes it.

use vstd::prelude::*;

verus! {

/// What `crc32c::crc32c` returns for these bytes.
pub uninterp spec fn crc32c_of(data: Seq<u8>) -> u32;

/// What `xxhash_rust::xxh64::xxh64` returns for these bytes and this seed.
pub uninterp spec fn xxh64_of(data: Seq<u8>, seed: u64) -> u64;

/// What `sha2::Sha256::digest` returns for these bytes.
pub uninterp spec fn sha256_of(data: Seq<u8>) -> Seq<u8>;

/// What `blake2::Blake2bVar` with this output size returns for these bytes.
pub uninterp spec fn blake2b_of(data: Seq<u8>, size: nat) -> Seq<u8>;

/// `crc32c::crc32c`: the CRC-32-Castagnoli of `data`. It depends on the bytes
/// alone, whichever of its implementations the processor selects.
#[verifier::external_body]
pub(crate) fn crc32c_hash(data: &[u8]) -> (r: u32)
    ensures
        r == crc32c_of(data@),
{
    crc32c::crc32c(data)
}

/// `xxhash_rust::xxh64::xxh64`: the 64-bit xxHash of `data` under `seed`.
#[verifier::external_body]
pub(crate) fn xxh64_hash(data: &[u8], seed: u64) -> (r: u64)
    ensures
        r == xxh64_of(data@, seed),
{
    xxhash_rust::xxh64::xxh64(data, seed)
}

/// `sha2::Sha256::digest`: the SHA-256 of `data`, 32 bytes.
#[verifier::external_body]
pub(crate) fn sha256_hash(data: &[u8]) -> (r: Vec<u8>)
    ensures
        r@ == sha256_of(data@),
        r@.len() == 32,
{
    <sha2::Sha256 as sha2::Digest>::digest(data).to_vec()
}

/// `blake2::Blake2bVar`, made with output size `size`, fed `data` and finalized
/// into a buffer of `size` bytes. It accepts every output size up to 64.
#[verifier::external_body]
pub(crate) fn blake2b_hash(data: &[u8], size: usize) -> (r: Vec<u8>)
    requires
        1 <= size <= 64,
    ensures
        r@ == blake2b_of(data@, size as nat),
        r@.len() == size,
{
    let mut h = <blake2::Blake2bVar as blake2::digest::VariableOutput>::new(size).unwrap();
    blake2::digest::Update::update(&mut h, data);
    let mut out = vec![0u8; size];
    blake2::digest::VariableOutput::finalize_variable(h, &mut out).unwrap();
    out
}

} // verus!
