//! Checksums: what is hashed how, and which superblock copies are good.

use vstd::bytes::{spec_u32_to_le_bytes, spec_u64_to_le_bytes};
use vstd::prelude::*;

use crate::btrfs::csum_strategy;
use crate::btrfs::superblock;
use crate::btrfs::superblock::CopyFault;
use crate::btrfs::util;
use crate::hash;
use crate::laws::disk_format;
use crate::laws::text as number_text;
use crate::text;

verus! {

/// The bytes of the header's checksum, for each of the four types.
pub open spec fn stored_header(buf: Seq<u8>, csum_type: int) -> Seq<u8> {
    buf.subrange(
        0,
        if csum_type == 0 {
            4
        } else if csum_type == 1 {
            8
        } else {
            32
        },
    )
}

/// The hash of some bytes as it is stored, for each of the four types.
pub open spec fn hashed(data: Seq<u8>, csum_type: int) -> Seq<u8> {
    if csum_type == 0 {
        spec_u32_to_le_bytes(hash::crc32c_of(data))
    } else if csum_type == 1 {
        spec_u64_to_le_bytes(hash::xxh64_of(data, 0))
    } else if csum_type == 2 {
        hash::sha256_of(data)
    } else {
        hash::blake2b_of(data, 32)
    }
}

/// Types 0 to 3 are crc32c, xxhash, sha256 and blake2, and no other is known;
/// each hashes all of the bytes and stores 4, 8, 32 and 32 of them.
pub proof fn law_checksum_types(csum_type: u16, data: Seq<u8>)
    ensures
        csum_strategy::supported(csum_type) <==> csum_type == 0 || csum_type == 1 || csum_type == 2
            || csum_type == 3,
        csum_strategy::supported(csum_type) ==> csum_strategy::csum_of(csum_type, data) == hashed(
            data,
            csum_type as int,
        ),
        csum_type == 0 ==> csum_strategy::hash_len_of(csum_type) == 4,
        csum_type == 1 ==> csum_strategy::hash_len_of(csum_type) == 8,
        csum_type == 2 || csum_type == 3 ==> csum_strategy::hash_len_of(csum_type) == 32,
{
}

/// A header is good if and only if its checksum field starts with the hash of
/// everything behind its 32 bytes.
pub proof fn law_header_covers_what_follows_it(csum_type: u16, buf: Seq<u8>)
    requires
        csum_type <= 3,
        buf.len() > 32,
    ensures
        csum_strategy::header_verifies(csum_type, buf) <==> stored_header(buf, csum_type as int)
            == hashed(buf.subrange(32, buf.len() as int), csum_type as int),
{
    assert(buf.skip(32) =~= buf.subrange(32, buf.len() as int));
    let n: int = if csum_type == 0 {
        4
    } else if csum_type == 1 {
        8
    } else {
        32
    };
    assert(buf.take(n) =~= stored_header(buf, csum_type as int));
}

/// The bytes `_BHRfS_M` stand at 64.
pub open spec fn has_magic(buf: Seq<u8>) -> bool {
    &&& buf[64] == 0x5f
    &&& buf[65] == 0x42
    &&& buf[66] == 0x48
    &&& buf[67] == 0x52
    &&& buf[68] == 0x66
    &&& buf[69] == 0x53
    &&& buf[70] == 0x5f
    &&& buf[71] == 0x4d
}

/// A superblock copy is good if and only if it carries the magic, its checksum
/// type is known, its checksum is that of what follows, and its system chunks
/// end inside it. Of a copy that is not, the first of these that fails is told.
pub proof fn law_superblock_copy_is_good(buf: Seq<u8>, csum_type: u16, chunks: u32, fault: CopyFault)
    requires
        buf.len() == 4096,
        disk_format::holds16(buf, 196, csum_type),
        disk_format::holds32(buf, 160, chunks),
    ensures
        superblock::copy_valid(buf) <==> {
            &&& has_magic(buf)
            &&& csum_type <= 3
            &&& stored_header(buf, csum_type as int) == hashed(
                buf.subrange(32, 4096),
                csum_type as int,
            )
            &&& 811 + chunks <= 4096
        },
        superblock::copy_fault(fault, buf) && fault is BadMagic <==> fault is BadMagic && !has_magic(
            buf,
        ) && fault->BadMagic_0@ == buf.subrange(64, 72),
        superblock::copy_fault(fault, buf) && fault is UnsupportedCsum <==> fault
            == CopyFault::UnsupportedCsum(csum_type) && has_magic(buf) && csum_type > 3,
        superblock::copy_fault(fault, buf) && fault is HeaderMismatch <==> fault is HeaderMismatch
            && has_magic(buf) && csum_type <= 3 && stored_header(buf, csum_type as int) != hashed(
            buf.subrange(32, 4096),
            csum_type as int,
        ),
        superblock::copy_fault(fault, buf) && fault is SysChunksOverrun <==> fault
            is SysChunksOverrun && has_magic(buf) && csum_type <= 3 && stored_header(
            buf,
            csum_type as int,
        ) == hashed(buf.subrange(32, 4096), csum_type as int) && 811 + chunks > 4096,
{
    disk_format::law_numbers_are_read_back(buf, 196, csum_type, 0, 0);
    disk_format::law_numbers_are_read_back(buf, 160, 0, chunks, 0);
    if csum_type <= 3 {
        law_header_covers_what_follows_it(csum_type, buf);
    }
    let m = buf.subrange(64, 72);
    let magic = superblock::BTRFS_MAGIC@;
    assert(magic =~= seq![0x5fu8, 0x42, 0x48, 0x52, 0x66, 0x53, 0x5f, 0x4d]);
    if has_magic(buf) {
        assert(m =~= magic);
    }
    if m == magic {
        assert(m[0] == buf[64] && m[1] == buf[65] && m[2] == buf[66] && m[3] == buf[67] && m[4]
            == buf[68] && m[5] == buf[69] && m[6] == buf[70] && m[7] == buf[71]);
    }
}

// ---------------------------------------------------------------------------
// Faults
// ---------------------------------------------------------------------------

/// A text with white space around it.
pub open spec fn padded(t: Seq<char>, front: Seq<char>, core: Seq<char>, back: Seq<char>) -> bool {
    &&& t == front + core + back
    &&& forall|i: int| 0 <= i < front.len() ==> number_text::white(#[trigger] front[i])
    &&& forall|i: int| 0 <= i < back.len() ==> number_text::white(#[trigger] back[i])
    &&& core.len() > 0
    &&& !number_text::white(core[0])
    &&& !number_text::white(core.last())
}

proof fn lemma_padded_number(
    t: Seq<char>,
    front: Seq<char>,
    core: Seq<char>,
    back: Seq<char>,
    v: u64,
)
    requires
        padded(t, front, core, back),
        number_text::all_digits(number_text::unsigned(core), 10),
        number_text::number(number_text::unsigned(core), 10) == v,
    ensures
        text::parsed(text::trimmed(t), 10, u64::MAX as nat) == Ok::<nat, text::IntError>(v as nat),
{
    number_text::law_trimming_takes_white_space_off(front, core, back);
    number_text::law_text_is_read_as_its_number(core, 10, u64::MAX as nat);
}

/// A setting `start,len`, with white space around either number, names `len`
/// bytes from `start` on, at least one; `start` alone names 4096.
pub proof fn law_fault_setting_names_its_range(
    start: Seq<char>,
    a: (Seq<char>, Seq<char>, Seq<char>),
    s: u64,
    len: Seq<char>,
    b: (Seq<char>, Seq<char>, Seq<char>),
    l: u64,
    r: Option<(u64, u64)>,
)
    requires
        padded(start, a.0, a.1, a.2),
        !start.contains(','),
        number_text::all_digits(number_text::unsigned(a.1), 10),
        number_text::number(number_text::unsigned(a.1), 10) == s,
        padded(len, b.0, b.1, b.2),
        number_text::all_digits(number_text::unsigned(b.1), 10),
        number_text::number(number_text::unsigned(b.1), 10) == l,
    ensures
        util::is_fault_range(start, r) ==> r == Some((s, 4096u64)),
        util::is_fault_range(start + seq![','] + len, r) ==> r == Some(
            (s, if l == 0 { 1u64 } else { l }),
        ),
{
    lemma_padded_number(start, a.0, a.1, a.2, s);
    lemma_padded_number(len, b.0, b.1, b.2, l);
    let both = start + seq![','] + len;
    let at = start.len() as int;
    assert(both[at] == ',');
    assert(both.contains(','));
    if util::is_fault_range(both, r) {
        let i = choose|i: int|
            {
                &&& #[trigger] text::first_at(both, ',', i)
                &&& r == util::range_of(
                    text::parsed(text::trimmed(both.take(i)), 10, u64::MAX as nat),
                    text::parsed(text::trimmed(both.skip(i + 1)), 10, u64::MAX as nat),
                )
            };
        assert(i == at) by {
            if i < at {
                assert(both[i] == start[i]);
                assert(start.contains(','));
            }
        }
        assert(both.take(at) =~= start);
        assert(both.skip(at + 1) =~= len);
    }
}

} // verus!
