//! Checksum handling: maps the superblock's csum_type to a concrete hash
//! (crc32c / xxhash / sha256 / blake2) and verifies on-disk checksums.

use vstd::bytes::{spec_u32_to_le_bytes, spec_u64_to_le_bytes, u32_to_le_bytes, u64_to_le_bytes};
use vstd::prelude::*;
use vstd::slice::slice_subrange;

use crate::btrfs::superblock::Superblock;
use crate::bytes;
use crate::hash;

pub mod csum_type;

verus! {

/// Why a checksum strategy could not be chosen.
#[derive(Debug, Clone, Copy, PartialEq, Eq, Structural)]
pub enum CsumError {
    /// Only crc32c, xxhash, sha256 and blake2 are implemented.
    UnsupportedType(u16),
    /// Checksums are stored one per sector; there is no sector of no bytes.
    ZeroSectorSize,
}

/// Whether a csum_type is one of the four that are implemented.
pub open spec fn supported(csum_type: u16) -> bool {
    csum_type <= 3
}

/// Bytes per stored checksum: 4 crc32c, 8 xxhash, 32 sha256 and blake2.
pub open spec fn hash_len_of(csum_type: u16) -> nat {
    if csum_type == 0 {
        4
    } else if csum_type == 1 {
        8
    } else {
        32
    }
}

/// The checksum of `data` as stored on disk (numeric hashes little-endian).
pub open spec fn csum_of(csum_type: u16, data: Seq<u8>) -> Seq<u8> {
    if csum_type == 0 {
        spec_u32_to_le_bytes(hash::crc32c_of(data))
    } else if csum_type == 1 {
        spec_u64_to_le_bytes(hash::xxh64_of(data, 0))
    } else if csum_type == 2 {
        hash::sha256_of(data)
    } else {
        hash::blake2b_of(data, 32)
    }
}

/// The 32-byte checksum field of `buf` holds the hash of all that follows it.
pub open spec fn header_verifies(csum_type: u16, buf: Seq<u8>) -> bool {
    &&& buf.len() > 32
    &&& buf.take(hash_len_of(csum_type) as int) == csum_of(csum_type, buf.skip(32))
}

/// Checksum parameters for one filesystem, derived from the superblock's
/// csum_type and sector size.
#[derive(Debug, Clone, Copy)]
pub struct CsumStrategy {
    pub csum_type: u16,
    pub name: &'static str,
    /// Bytes per stored checksum (4 crc32c, 8 xxhash, 32 sha256/blake2).
    pub hash_len: usize,
    /// Logical sector size; EXTENT_CSUM items hold one checksum per sector.
    pub sector_size: u64,
}

/// The checksum of `data` under an implemented csum_type.
fn compute_csum(csum_type: u16, data: &[u8]) -> (r: Vec<u8>)
    requires
        supported(csum_type),
    ensures
        r@ == csum_of(csum_type, data@),
        r@.len() == hash_len_of(csum_type),
{
    if csum_type == csum_type::CRC32C {
        u32_to_le_bytes(hash::crc32c_hash(data))
    } else if csum_type == csum_type::XXHASH {
        u64_to_le_bytes(hash::xxh64_hash(data, 0))
    } else if csum_type == csum_type::SHA256 {
        hash::sha256_hash(data)
    } else {
        hash::blake2b_hash(data, 32)
    }
}

impl CsumStrategy {
    /// A strategy for an implemented checksum type and a positive sector size.
    pub open spec fn wf(&self) -> bool {
        &&& supported(self.csum_type)
        &&& self.hash_len == hash_len_of(self.csum_type)
        &&& self.name@ == strategy_name(self.csum_type)
        &&& self.sector_size > 0
    }

    /// The checksum of `data` under this strategy.
    pub open spec fn csum(&self, data: Seq<u8>) -> Seq<u8> {
        csum_of(self.csum_type, data)
    }

    /// Selects the checksum strategy from the superblock's csum_type and sector
    /// size.
    pub fn from_superblock(sb: &Superblock) -> (r: Result<Self, CsumError>)
        ensures
            r matches Ok(s) ==> s.wf() && s.csum_type == sb.csum_type && s.sector_size
                == sb.sector_size,
            r is Ok <==> supported(sb.csum_type) && sb.sector_size > 0,
            r matches Err(e) ==> e == (if supported(sb.csum_type) {
                CsumError::ZeroSectorSize
            } else {
                CsumError::UnsupportedType(sb.csum_type)
            }),
    {
        let csum_type: u16 = sb.csum_type;
        let (name, hash_len): (&'static str, usize) = if csum_type == csum_type::CRC32C {
            ("crc32c", 4)
        } else if csum_type == csum_type::XXHASH {
            ("xxhash", 8)
        } else if csum_type == csum_type::SHA256 {
            ("sha256", 32)
        } else if csum_type == csum_type::BLAKE2 {
            ("blake2", 32)
        } else {
            return Err(CsumError::UnsupportedType(csum_type));
        };
        let sector_size: u64 = sb.sector_size as u64;
        if sector_size == 0 {
            return Err(CsumError::ZeroSectorSize);
        }
        Ok(CsumStrategy { csum_type, name, hash_len, sector_size })
    }

    /// Verifies a node's or the superblock's 32-byte header checksum: the hash
    /// stored in the first bytes of the checksum field must equal the hash of
    /// everything after the 32-byte prefix. A buffer with nothing after the
    /// prefix does not verify.
    pub fn verify_header(csum_type: u16, node_buf: &[u8]) -> (r: Result<bool, CsumError>)
        ensures
            r is Err <==> node_buf@.len() > 32 && !supported(csum_type),
            r matches Err(e) ==> e == CsumError::UnsupportedType(csum_type),
            r matches Ok(b) ==> b == header_verifies(csum_type, node_buf@),
    {
        if node_buf.len() <= 32 {
            return Ok(false);
        }
        let hash_len: usize = if csum_type == csum_type::CRC32C {
            4
        } else if csum_type == csum_type::XXHASH {
            8
        } else if csum_type == csum_type::SHA256 {
            32
        } else if csum_type == csum_type::BLAKE2 {
            32
        } else {
            return Err(CsumError::UnsupportedType(csum_type));
        };
        let stored = slice_subrange(node_buf, 0, hash_len);
        let body = slice_subrange(node_buf, 32, node_buf.len());
        assert(stored@ =~= node_buf@.take(hash_len as int));
        assert(body@ =~= node_buf@.skip(32));
        let actual = compute_csum(csum_type, body);
        Ok(bytes::bytes_equal(stored, actual.as_slice()))
    }

    /// Computes the checksum of `data`, as the bytes stored on disk.
    pub fn compute(&self, data: &[u8]) -> (r: Vec<u8>)
        requires
            supported(self.csum_type),
        ensures
            r@ == self.csum(data@),
            r@.len() == hash_len_of(self.csum_type),
    {
        compute_csum(self.csum_type, data)
    }

    /// True when `data`'s checksum equals the stored on-disk checksum bytes; any
    /// length mismatch counts as no match.
    pub fn matches(&self, stored: &[u8], data: &[u8]) -> (r: bool)
        requires
            supported(self.csum_type),
        ensures
            r == (stored@ == self.csum(data@)),
    {
        bytes::bytes_equal(stored, self.compute(data).as_slice())
    }

    /// Verifies the 32-byte header checksum of a node buffer; a short buffer or
    /// an unsupported checksum type is treated as a mismatch.
    pub fn verify_node_header(&self, node_buf: &[u8]) -> (r: bool)
        ensures
            r == (supported(self.csum_type) && header_verifies(self.csum_type, node_buf@)),
    {
        match CsumStrategy::verify_header(self.csum_type, node_buf) {
            Ok(b) => b && self.csum_type <= csum_type::BLAKE2,
            Err(_) => false,
        }
    }
}

/// The name of an implemented checksum type.
pub open spec fn strategy_name(csum_type: u16) -> Seq<char> {
    if csum_type == 0 {
        "crc32c"@
    } else if csum_type == 1 {
        "xxhash"@
    } else if csum_type == 2 {
        "sha256"@
    } else {
        "blake2"@
    }
}

} // verus!
