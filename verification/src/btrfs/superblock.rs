//! Minimal btrfs superblock parsing: magic, header checksum, and tree roots.

use vstd::prelude::*;
use vstd::slice::slice_subrange;

use crate::btrfs::csum_strategy;
use crate::btrfs::csum_strategy::CsumStrategy;
use crate::btrfs::util;
use crate::bytes;

verus! {

/// Byte offset of the primary superblock (64 KiB).
pub const SUPERBLOCK_OFFSET: u64 = 0x10_000;

/// Copies of the superblock, probed in order when a lower copy fails.
pub const SUPERBLOCK_BACKUP_OFFSETS: [u64; 4] = [
    0x10_000,
    0x400_0000,
    0x40_0000_0000,
    0x100_0000_0000,
];

/// `_BHRfS_M`.
pub const BTRFS_MAGIC: [u8; 8] = [0x5f, 0x42, 0x48, 0x52, 0x66, 0x53, 0x5f, 0x4d];

pub const BTRFS_SECTOR_SIZE: usize = 4096;

/// Offset of the magic within the superblock.
pub const OFF_MAGIC: usize = 64;

/// Bytes of one superblock copy.
pub const SUPERBLOCK_SIZE: usize = 4096;

/// True if `buf` holds the btrfs magic at `offset`.
pub fn has_magic_at(buf: &[u8], offset: usize) -> (r: bool)
    requires
        offset + 8 <= usize::MAX,
    ensures
        r == (offset + 8 <= buf@.len() && buf@.subrange(offset as int, offset + 8) == BTRFS_MAGIC@),
{
    let magic: [u8; 8] = BTRFS_MAGIC;
    buf.len() >= offset + 8 && bytes::bytes_equal(
        slice_subrange(buf, offset, offset + 8),
        magic.as_slice(),
    )
}

/// The superblock fields needed to navigate the on-disk trees.
#[derive(Debug)]
pub struct Superblock {
    pub fsid: [u8; 16],
    pub bytenr: u64,
    pub magic: [u8; 8],
    pub generation: u64,
    /// Logical address of the root tree's root node.
    pub root: u64,
    /// Logical address of the chunk tree's root node.
    pub chunk_root: u64,
    pub total_bytes: u64,
    pub bytes_used: u64,
    pub num_devices: u64,
    pub sector_size: u32,
    pub node_size: u32,
    pub stripesize: u32,
    pub sys_chunk_array_size: u32,
    pub chunk_root_generation: u64,
    pub csum_type: u16,
    /// This device's id. Each NonRAID slot hosts its own single-device
    /// filesystem, so there is exactly one device.
    pub devid: u64,
    /// Raw bytes of the system chunk array, as stored.
    pub sys_chunks: Vec<u8>,
}

/// `sb` holds the fields stored in the copy `buf`.
pub open spec fn superblock_of(sb: Superblock, buf: Seq<u8>) -> bool {
    &&& sb.fsid@ == buf.subrange(32, 48)
    &&& sb.bytenr == util::le64(buf, 48)
    &&& sb.magic@ == buf.subrange(64, 72)
    &&& sb.generation == util::le64(buf, 72)
    &&& sb.root == util::le64(buf, 80)
    &&& sb.chunk_root == util::le64(buf, 88)
    &&& sb.total_bytes == util::le64(buf, 112)
    &&& sb.bytes_used == util::le64(buf, 120)
    &&& sb.num_devices == util::le64(buf, 136)
    &&& sb.sector_size == util::le32(buf, 144)
    &&& sb.node_size == util::le32(buf, 148)
    &&& sb.stripesize == util::le32(buf, 156)
    &&& sb.sys_chunk_array_size == util::le32(buf, 160)
    &&& sb.chunk_root_generation == util::le64(buf, 164)
    &&& sb.csum_type == util::le16(buf, 196)
    &&& sb.devid == util::le64(buf, 201)
    &&& sb.sys_chunks@ == buf.subrange(811, 811 + util::le32(buf, 160))
}

/// What is wrong with one superblock copy.
#[derive(Debug, Clone, Copy)]
pub enum CopyFault {
    /// Not a btrfs superblock: these bytes stand where the magic should.
    BadMagic([u8; 8]),
    /// The checksum type is not implemented.
    UnsupportedCsum(u16),
    /// The header checksum does not match: corrupt, or no superblock.
    HeaderMismatch,
    /// The system chunk array overruns the superblock.
    SysChunksOverrun,
}

/// The copy carries the btrfs magic.
pub open spec fn magic_ok(buf: Seq<u8>) -> bool {
    buf.subrange(64, 72) == BTRFS_MAGIC@
}

/// The copy passes the magic and header-checksum verification and its system
/// chunk array lies inside it.
pub open spec fn copy_valid(buf: Seq<u8>) -> bool {
    &&& magic_ok(buf)
    &&& csum_strategy::supported(util::le16(buf, 196))
    &&& csum_strategy::header_verifies(util::le16(buf, 196), buf)
    &&& 811 + util::le32(buf, 160) <= 4096
}

/// `f` is the first check that the copy fails.
pub open spec fn copy_fault(f: CopyFault, buf: Seq<u8>) -> bool {
    let csum_type = util::le16(buf, 196);
    match f {
        CopyFault::BadMagic(m) => !magic_ok(buf) && m@ == buf.subrange(64, 72),
        CopyFault::UnsupportedCsum(t) => magic_ok(buf) && t == csum_type
            && !csum_strategy::supported(csum_type),
        CopyFault::HeaderMismatch => magic_ok(buf) && csum_strategy::supported(csum_type)
            && !csum_strategy::header_verifies(csum_type, buf),
        CopyFault::SysChunksOverrun => magic_ok(buf) && csum_strategy::supported(csum_type)
            && csum_strategy::header_verifies(csum_type, buf) && 811 + util::le32(buf, 160) > 4096,
    }
}

/// What reading one superblock copy off the device gave.
#[derive(Debug)]
pub enum CopyRead<E> {
    /// The 4096 bytes of the copy.
    Block(Vec<u8>),
    /// The copy lies past the end of the device.
    PastEnd,
    /// The read failed.
    Failed(E),
}

/// Why there is no superblock.
#[derive(Debug)]
pub enum SuperblockError<E> {
    /// The read failed.
    Read(E),
    /// The copy lies past the end of the device.
    PastEnd,
    /// The copy is not a valid superblock.
    Fault(CopyFault),
    /// No copy lies inside the device.
    NoneFound,
}

/// The copy was read and is valid.
pub open spec fn copy_good<E>(copy: CopyRead<E>) -> bool {
    copy matches CopyRead::Block(b) && copy_valid(b@)
}

/// `e` says why the copy is not good.
pub open spec fn copy_error<E>(copy: CopyRead<E>, e: SuperblockError<E>) -> bool {
    match copy {
        CopyRead::Block(b) => e matches SuperblockError::Fault(f) && copy_fault(f, b@),
        CopyRead::PastEnd => e is PastEnd,
        CopyRead::Failed(x) => e == SuperblockError::Read(x),
    }
}

/// Every block is a whole superblock copy.
pub open spec fn whole_copy<E>(copy: CopyRead<E>) -> bool {
    copy matches CopyRead::Block(b) ==> b@.len() == 4096
}

impl Superblock {
    /// Takes the copies in mirror order and uses the first that passes magic and
    /// header-checksum verification. A copy past the device end is skipped; if
    /// none is good, the last other error stands.
    pub fn read<E>(copies: Vec<CopyRead<E>>) -> (r: Result<Self, SuperblockError<E>>)
        requires
            forall|i: int| 0 <= i < copies@.len() ==> whole_copy(#[trigger] copies@[i]),
        ensures
            match r {
                Ok(sb) => exists|i: int|
                    {
                        &&& 0 <= i < copies@.len()
                        &&& copy_good(#[trigger] copies@[i])
                        &&& superblock_of(sb, copies@[i]->Block_0@)
                        &&& forall|j: int| 0 <= j < i ==> !copy_good(#[trigger] copies@[j])
                    },
                Err(SuperblockError::NoneFound) => forall|i: int|
                    0 <= i < copies@.len() ==> (#[trigger] copies@[i]) is PastEnd,
                Err(e) => {
                    &&& forall|i: int| 0 <= i < copies@.len() ==> !copy_good(#[trigger] copies@[i])
                    &&& exists|i: int|
                        {
                            &&& 0 <= i < copies@.len()
                            &&& (#[trigger] copies@[i]) !is PastEnd
                            &&& copy_error(copies@[i], e)
                            &&& forall|j: int|
                                i < j < copies@.len() ==> (#[trigger] copies@[j]) is PastEnd
                        }
                },
            },
    {
        let mut last_err: Option<SuperblockError<E>> = None;
        let n: usize = copies.len();
        let ghost all = copies@;
        let mut k: usize = 0;
        for copy in it: copies
            invariant
                it.seq() == all,
                k == it.index(),
                k <= n,
                n == all.len(),
                forall|i: int| 0 <= i < all.len() ==> whole_copy(#[trigger] all[i]),
                forall|i: int| 0 <= i < k ==> !copy_good(#[trigger] all[i]),
                match last_err {
                    None => forall|i: int| 0 <= i < k ==> (#[trigger] all[i]) is PastEnd,
                    Some(e) => e !is NoneFound && exists|i: int|
                        {
                            &&& 0 <= i < k
                            &&& (#[trigger] all[i]) !is PastEnd
                            &&& copy_error(all[i], e)
                            &&& forall|j: int| i < j < k ==> (#[trigger] all[j]) is PastEnd
                        },
                },
        {
            assert(copy == all[k as int]);
            match copy {
                CopyRead::PastEnd => {},
                CopyRead::Failed(e) => {
                    last_err = Some(SuperblockError::Read(e));
                },
                CopyRead::Block(b) => {
                    match Self::read_one(b.as_slice()) {
                        Ok(sb) => {
                            return Ok(sb);
                        },
                        Err(f) => {
                            last_err = Some(SuperblockError::Fault(f));
                        },
                    }
                },
            }
            k = k + 1;
        }
        match last_err {
            Some(e) => Err(e),
            None => Err(SuperblockError::NoneFound),
        }
    }

    /// Takes only the primary copy, without fallback: lets the open path detect
    /// a wiped primary that still has an intact backup.
    pub fn read_primary<E>(copy: CopyRead<E>) -> (r: Result<Self, SuperblockError<E>>)
        requires
            whole_copy(copy),
        ensures
            r is Ok <==> copy_good(copy),
            r matches Ok(sb) ==> superblock_of(sb, copy->Block_0@),
            r matches Err(e) ==> copy_error(copy, e),
    {
        match copy {
            CopyRead::PastEnd => Err(SuperblockError::PastEnd),
            CopyRead::Failed(e) => Err(SuperblockError::Read(e)),
            CopyRead::Block(b) => match Self::read_one(b.as_slice()) {
                Ok(sb) => Ok(sb),
                Err(f) => Err(SuperblockError::Fault(f)),
            },
        }
    }

    /// Verifies and parses one superblock copy.
    pub fn read_one(buf: &[u8]) -> (r: Result<Self, CopyFault>)
        requires
            buf@.len() == 4096,
        ensures
            r is Ok <==> copy_valid(buf@),
            r matches Ok(sb) ==> superblock_of(sb, buf@),
            r matches Err(f) ==> copy_fault(f, buf@),
    {
        let magic: [u8; 8] = util::array_at(buf, OFF_MAGIC);
        if !has_magic_at(buf, OFF_MAGIC) {
            return Err(CopyFault::BadMagic(magic));
        }
        // The header checksum covers csum_type itself, so a corrupt strategy id
        // fails verification here.
        let csum_type: u16 = util::le_u16(buf, 196);
        match CsumStrategy::verify_header(csum_type, buf) {
            Ok(true) => {},
            Ok(false) => {
                return Err(CopyFault::HeaderMismatch);
            },
            Err(_) => {
                return Err(CopyFault::UnsupportedCsum(csum_type));
            },
        }
        let sys_chunk_array_size: u32 = util::le_u32(buf, 160);
        if sys_chunk_array_size as u64 + 811 > 4096 {
            return Err(CopyFault::SysChunksOverrun);
        }
        let sys_end: usize = 811 + sys_chunk_array_size as usize;
        Ok(
            Superblock {
                fsid: util::array_at(buf, 32),
                bytenr: util::le_u64(buf, 48),
                magic,
                generation: util::le_u64(buf, 72),
                root: util::le_u64(buf, 80),
                chunk_root: util::le_u64(buf, 88),
                total_bytes: util::le_u64(buf, 112),
                bytes_used: util::le_u64(buf, 120),
                num_devices: util::le_u64(buf, 136),
                sector_size: util::le_u32(buf, 144),
                node_size: util::le_u32(buf, 148),
                stripesize: util::le_u32(buf, 156),
                sys_chunk_array_size,
                chunk_root_generation: util::le_u64(buf, 164),
                csum_type,
                devid: util::le_u64(buf, 201),
                sys_chunks: bytes::copy_range(buf, 811, sys_end),
            },
        )
    }
}

} // verus!
