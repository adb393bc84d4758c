//! What a scrub is to cover, how it reads ahead, and what it says of itself.

use vstd::prelude::*;

use crate::btrfs::chunk::ChunkMap;
use crate::btrfs::dev_extent::DevExtent;
use crate::btrfs::key;
use crate::btrfs::key::{Key, KeyPtr};
use crate::btrfs::reader::FsReader;
use crate::btrfs::scrub;
use crate::btrfs::scrub::SectorResult;
use crate::btrfs::scrub_driver;
use crate::btrfs::scrub_driver::BtrfsScrub;
use crate::btrfs::superblock;
use crate::btrfs::tree;
use crate::btrfs::util;
use crate::btrfs::walk;
use crate::btrfs::walk::WalkTell;
use crate::laws::arguments;
use crate::laws::text as number_text;
use crate::text;

verus! {

// ---------------------------------------------------------------------------
// Extents
// ---------------------------------------------------------------------------

/// A chunk holds data just where its type is odd: data is its lowest bit.
pub proof fn law_data_is_the_lowest_bit(chunk_map: ChunkMap, logical: u64)
    ensures
        scrub::maps_data(chunk_map, logical) <==> exists|i: int| #[trigger]
            chunk_map.found(logical, i) && chunk_map@[i].ty % 2 == 1,
{
    assert forall|i: int| #[trigger] chunk_map.found(logical, i) implies (chunk_map@[i].ty & 1 != 0)
        == (chunk_map@[i].ty % 2 == 1) by {
        let ty = chunk_map@[i].ty;
        assert((ty & 1 != 0) == (ty % 2 == 1)) by (bit_vector);
    }
    if scrub::maps_data(chunk_map, logical) {
        let i = choose|i: int| #[trigger]
            chunk_map.found(logical, i) && chunk_map@[i].ty & 1 != 0;
        assert(chunk_map.found(logical, i) && chunk_map@[i].ty % 2 == 1);
    }
    if exists|i: int| #[trigger] chunk_map.found(logical, i) && chunk_map@[i].ty % 2 == 1 {
        let i = choose|i: int| #[trigger]
            chunk_map.found(logical, i) && chunk_map@[i].ty % 2 == 1;
        assert(chunk_map.found(logical, i) && chunk_map@[i].ty & 1 != 0);
    }
}

/// The bytes of the data extents from extent `k` on.
pub open spec fn data_from(chunk_map: ChunkMap, extents: Seq<DevExtent>, k: int) -> int
    decreases extents.len() - k,
{
    if k >= extents.len() {
        0
    } else if scrub::maps_data(chunk_map, extents[k].chunk_offset) {
        extents[k].length + data_from(chunk_map, extents, k + 1)
    } else {
        data_from(chunk_map, extents, k + 1)
    }
}

proof fn lemma_data_from(chunk_map: ChunkMap, extents: Seq<DevExtent>, k: int)
    requires
        0 <= k <= extents.len(),
    ensures
        scrub::data_bytes(chunk_map, extents.take(k)) + data_from(chunk_map, extents, k)
            == data_from(chunk_map, extents, 0),
    decreases k,
{
    if k > 0 {
        lemma_data_from(chunk_map, extents, k - 1);
        assert(extents.take(k).drop_last() =~= extents.take(k - 1));
        assert(extents.take(k).last() == extents[k - 1]);
    } else {
        assert(extents.take(0) =~= Seq::empty());
    }
}

/// The progress that is aimed at is the length of all data extents together.
pub proof fn law_progress_is_the_length_of_the_data(chunk_map: ChunkMap, extents: Seq<DevExtent>)
    ensures
        scrub::data_bytes(chunk_map, extents) == data_from(chunk_map, extents, 0),
{
    lemma_data_from(chunk_map, extents, extents.len() as int);
    assert(extents.take(extents.len() as int) =~= extents);
}

/// What is hinted ahead is the next extent's length, but never less than a sector
/// nor more than 16384 of them.
pub proof fn law_hint_is_the_length_within_a_run(next: DevExtent, sector_size: u64)
    requires
        sector_size > 0,
    ensures
        sector_size <= scrub::hint_len(next, sector_size) <= 16384 * sector_size,
        sector_size <= next.length <= 16384 * sector_size ==> scrub::hint_len(next, sector_size)
            == next.length,
        next.length < sector_size ==> scrub::hint_len(next, sector_size) == sector_size,
        next.length > 16384 * sector_size ==> scrub::hint_len(next, sector_size) == 16384
            * sector_size,
{
}

/// The budget for failing reads is the number that is set, where that is
/// positive, and 64 in every other case.
pub proof fn law_budget_is_the_number_that_is_set(
    front: Seq<char>,
    core: Seq<char>,
    back: Seq<char>,
    v: u64,
)
    requires
        forall|i: int| 0 <= i < front.len() ==> number_text::white(#[trigger] front[i]),
        forall|i: int| 0 <= i < back.len() ==> number_text::white(#[trigger] back[i]),
        core.len() > 0,
        !number_text::white(core[0]),
        !number_text::white(core.last()),
    ensures
        scrub::budget_limit(None) == 64,
        arguments::digits_of(core, 10, v as int) && 0 < v <= usize::MAX ==> scrub::budget_limit(
            Some(front + core + back),
        ) == v,
        arguments::digits_of(core, 10, 0) ==> scrub::budget_limit(Some(front + core + back)) == 64,
        !number_text::all_digits(number_text::unsigned(core), 10) ==> scrub::budget_limit(
            Some(front + core + back),
        ) == 64,
{
    number_text::law_trimming_takes_white_space_off(front, core, back);
    number_text::law_text_is_read_as_its_number(core, 10, usize::MAX as nat);
}

/// The limits of a scrub: how many sectors a run has, how many reads are under
/// way, and how many may fail before isolation is cut short.
pub proof fn law_limits_of_a_scrub()
    ensures
        scrub::MAX_RUN_SECTORS == 16384,
        scrub::PREFETCH_DEPTH_FAST == 2,
        scrub::PREFETCH_DEPTH_SLOW == 4,
        crate::btrfs::isolate::MAX_ISOLATION_FAILING_READS == 64,
        crate::btrfs::isolate::EIO_SPLIT_FACTOR == 8,
        crate::btrfs::reader::READAHEAD_CAP == 64 * 1024 * 1024,
        superblock::SUPERBLOCK_OFFSET == 64 * 1024,
        superblock::SUPERBLOCK_SIZE == 4096,
        superblock::OFF_MAGIC == 64,
        crate::array::config::NMDSTAT_Q_SLOT == 29,
{
}

/// A superblock has a copy at 64 KiB, one at 64 MiB, one at 256 GiB and one at
/// 1 TiB.
pub proof fn law_places_of_the_superblock()
    ensures
        superblock::SUPERBLOCK_BACKUP_OFFSETS@ == seq![
            0x1_0000u64,
            0x400_0000u64,
            0x40_0000_0000u64,
            0x100_0000_0000u64,
        ],
{
    assert(superblock::SUPERBLOCK_BACKUP_OFFSETS@ =~= seq![
        0x1_0000u64,
        0x400_0000u64,
        0x40_0000_0000u64,
        0x100_0000_0000u64,
    ]);
}

// ---------------------------------------------------------------------------
// Trees
// ---------------------------------------------------------------------------

/// A key as one number, the object first, then the type, then the offset.
pub open spec fn key_number(k: Key) -> int {
    (k.objectid * 256 + k.ty) * 0x1_0000_0000_0000_0000 + k.offset
}

/// Keys are in the order of their numbers.
pub proof fn law_keys_are_ordered_by_number(a: Key, b: Key)
    ensures
        key::key_le(a, b) <==> key_number(a) <= key_number(b),
{
}

/// The child that a key belongs to is descended into whenever the key lies in the
/// bounds: under its own address and generation, one level down, with the same
/// owner.
pub proof fn law_child_of_a_wanted_key_is_read(
    ptrs: Seq<KeyPtr>,
    lo: Key,
    hi: Key,
    level: u8,
    owner: u64,
    idx: int,
    x: Key,
) -> (j: int)
    requires
        0 <= idx < ptrs.len(),
        level > 0,
        key_number(ptrs[idx].key) <= key_number(x),
        idx + 1 < ptrs.len() ==> key_number(x) < key_number(ptrs[idx + 1].key),
        key_number(lo) <= key_number(x) < key_number(hi),
    ensures
        ({
            let kids = tree::children_from(ptrs, Some((lo, hi)), level, owner, 0);
            &&& 0 <= j < kids.len()
            &&& kids[j].logical == ptrs[idx].blockptr
            &&& kids[j].exp_gen == Some(ptrs[idx].generation)
            &&& kids[j].exp_level == Some((level - 1) as u8)
            &&& kids[j].exp_owner == Some(owner)
        }),
{
    assert(!tree::pruned(ptrs, Some((lo, hi)), idx));
    lemma_child_is_listed(ptrs, Some((lo, hi)), level, owner, 0, idx)
}

/// Without bounds every child is read.
pub proof fn law_every_child_is_read(
    ptrs: Seq<KeyPtr>,
    level: u8,
    owner: u64,
    idx: int,
) -> (j: int)
    requires
        0 <= idx < ptrs.len(),
        level > 0,
    ensures
        ({
            let kids = tree::children_from(ptrs, None, level, owner, 0);
            &&& 0 <= j < kids.len()
            &&& kids[j].logical == ptrs[idx].blockptr
            &&& kids[j].exp_gen == Some(ptrs[idx].generation)
            &&& kids[j].exp_level == Some((level - 1) as u8)
            &&& kids[j].exp_owner == Some(owner)
        }),
{
    lemma_child_is_listed(ptrs, None, level, owner, 0, idx)
}

proof fn lemma_child_is_listed(
    ptrs: Seq<KeyPtr>,
    bounds: Option<(Key, Key)>,
    level: u8,
    owner: u64,
    k: int,
    idx: int,
) -> (j: int)
    requires
        0 <= k <= idx < ptrs.len(),
        level > 0,
        !tree::pruned(ptrs, bounds, idx),
    ensures
        ({
            let kids = tree::children_from(ptrs, bounds, level, owner, k);
            &&& 0 <= j < kids.len()
            &&& kids[j].logical == ptrs[idx].blockptr
            &&& kids[j].exp_gen == Some(ptrs[idx].generation)
            &&& kids[j].exp_level == Some((level - 1) as u8)
            &&& kids[j].exp_owner == Some(owner)
        }),
    decreases idx - k,
{
    if k == idx {
        0
    } else {
        let j = lemma_child_is_listed(ptrs, bounds, level, owner, k + 1, idx);
        if tree::pruned(ptrs, bounds, k) {
            j
        } else {
            j + 1
        }
    }
}

// ---------------------------------------------------------------------------
// Texts
// ---------------------------------------------------------------------------

/// The log line of a finding shows its address, its device, its place on it, the
/// file it belongs to, and both checksums.
pub proof fn law_line_shows_the_finding(r: SectorResult, stored: Seq<u8>)
    ensures
        r.stored_csum matches Some(c) && c@ == stored ==> scrub_driver::mismatch_text(r)
            == "  MISMATCH logical=0x"@ + text::hexadecimal(r.logical as nat) + " devid="@
            + text::decimal(r.devid as nat) + " array_phys=0x"@ + text::hexadecimal(
            r.array_phys as nat,
        ) + " ino="@ + text::decimal(r.inode as nat) + " off=0x"@ + text::hexadecimal(
            r.file_offset as nat,
        ) + " stored=0x"@ + util::hex_of(stored) + " actual=0x"@ + util::hex_of(r.actual_csum@),
        r.stored_csum is None ==> scrub_driver::mismatch_text(r) == "  MISMATCH logical=0x"@
            + text::hexadecimal(r.logical as nat) + " devid="@ + text::decimal(r.devid as nat)
            + " array_phys=0x"@ + text::hexadecimal(r.array_phys as nat) + " ino="@
            + text::decimal(r.inode as nat) + " off=0x"@ + text::hexadecimal(r.file_offset as nat)
            + " actual=0x"@ + util::hex_of(r.actual_csum@) + " (no stored csum)"@,
{
    reveal_strlit(" ");
    reveal_strlit("stored=0x");
    reveal_strlit(" stored=0x");
    reveal_strlit("actual=0x");
    reveal_strlit(" actual=0x");
    assert(" stored=0x"@ =~= " "@ + "stored=0x"@);
    assert(" actual=0x"@ =~= " "@ + "actual=0x"@);
    let head = "  MISMATCH logical=0x"@ + text::hexadecimal(r.logical as nat) + " devid="@
        + text::decimal(r.devid as nat) + " array_phys=0x"@ + text::hexadecimal(
        r.array_phys as nat,
    ) + " ino="@ + text::decimal(r.inode as nat) + " off=0x"@ + text::hexadecimal(
        r.file_offset as nat,
    );
    if let Some(c) = r.stored_csum {
        assert(scrub_driver::mismatch_text(r) =~= head + " stored=0x"@ + util::hex_of(c@)
            + " actual=0x"@ + util::hex_of(r.actual_csum@));
    } else {
        assert(scrub_driver::mismatch_text(r) =~= head + " actual=0x"@ + util::hex_of(
            r.actual_csum@,
        ) + " (no stored csum)"@);
    }
}

/// The sectors of the device's extents from extent `k` on.
pub open spec fn sectors_from(extents: Seq<DevExtent>, sector_size: u64, k: int) -> int
    decreases extents.len() - k,
{
    if k >= extents.len() {
        0
    } else {
        extents[k].length as int / sector_size as int + sectors_from(extents, sector_size, k + 1)
    }
}

proof fn lemma_sectors_from(s: BtrfsScrub, k: int)
    requires
        0 <= k <= s.dev_extents@.len(),
    ensures
        s.csum_sectors_upto(k) + sectors_from(s.dev_extents@, s.strategy.sector_size, k)
            == sectors_from(s.dev_extents@, s.strategy.sector_size, 0),
    decreases k,
{
    if k > 0 {
        lemma_sectors_from(s, k - 1);
    }
}

/// The description says how many sectors the device's extents hold together, and
/// how many extents there are.
pub proof fn law_description_counts_the_extents(s: BtrfsScrub)
    ensures
        s.csum_sectors_upto(s.dev_extents@.len() as int) == sectors_from(
            s.dev_extents@,
            s.strategy.sector_size,
            0,
        ),
        s.description().len() == 17,
        s.description()[0] == "device        : "@ + s.dev@,
        s.description()[1] == "base offset   : 0x"@ + text::hexadecimal(
            s.reader.base_offset as nat,
        ) + " ("@ + text::decimal(s.reader.base_offset as nat) + ")"@,
        s.description()[2] == "magic         : ["@ + scrub_driver::listed(s.superblock.magic@, 8)
            + "]"@,
        s.description()[3] == "fsid          : "@ + util::hex_of(s.superblock.fsid@),
        s.description()[4] == "bytenr        : 0x"@ + text::hexadecimal(s.superblock.bytenr as nat),
        s.description()[6] == "root          : 0x"@ + text::hexadecimal(s.superblock.root as nat),
        s.description()[7] == "chunk_root    : 0x"@ + text::hexadecimal(
            s.superblock.chunk_root as nat,
        ),
        s.description()[13] == "stripesize    : "@ + text::decimal(s.superblock.stripesize as nat),
        s.description()[14] == "csum_type     : "@ + text::decimal(s.superblock.csum_type as nat)
            + " ("@ + s.strategy.name@ + ")"@,
        s.description()[5] == "generation   : "@ + text::decimal(s.superblock.generation as nat),
        s.description()[8] == "total_bytes   : "@ + text::decimal(s.superblock.total_bytes as nat),
        s.description()[9] == "bytes_used    : "@ + text::decimal(s.superblock.bytes_used as nat),
        s.description()[10] == "num_devices   : "@ + text::decimal(s.superblock.num_devices as nat),
        s.description()[11] == "sector_size   : "@ + text::decimal(s.superblock.sector_size as nat),
        s.description()[12] == "node_size     : "@ + text::decimal(s.superblock.node_size as nat),
        s.description()[16] == "dev extents   : "@ + text::decimal(s.dev_extents@.len()),
{
    lemma_sectors_from(s, s.dev_extents@.len() as int);
}

/// Bytes are listed in order, each as its decimal number, a comma and a space
/// between two.
pub proof fn law_bytes_are_listed_in_order(bytes: Seq<u8>, k: int)
    requires
        0 < k < bytes.len(),
    ensures
        scrub_driver::listed(bytes, 1) == text::decimal(bytes[0] as nat),
        scrub_driver::listed(bytes, k + 1) == scrub_driver::listed(bytes, k) + ", "@
            + text::decimal(bytes[k] as nat),
{
}

proof fn lemma_hinted_ahead(ptrs: Seq<KeyPtr>, bounds: Option<(Key, Key)>, from: int)
    requires
        0 <= from <= ptrs.len(),
    ensures
        forall|k: int|
            from <= k < ptrs.len() && !tree::pruned(ptrs, bounds, k) && (k < 2 || ptrs.len() <= 4)
                ==> tree::prefetch_from(ptrs, bounds, from).contains(
                (#[trigger] ptrs[k]).blockptr,
            ),
        forall|i: int|
            0 <= i < tree::prefetch_from(ptrs, bounds, from).len() ==> exists|k: int|
                {
                    &&& from <= k < ptrs.len()
                    &&& (#[trigger] ptrs[k]).blockptr == #[trigger] tree::prefetch_from(
                        ptrs,
                        bounds,
                        from,
                    )[i]
                    &&& !tree::pruned(ptrs, bounds, k)
                    &&& k < 2 || ptrs.len() <= 4
                },
    decreases ptrs.len() - from,
{
    if from < ptrs.len() {
        lemma_hinted_ahead(ptrs, bounds, from + 1);
        let rest = tree::prefetch_from(ptrs, bounds, from + 1);
        let all = tree::prefetch_from(ptrs, bounds, from);
        let here = !tree::pruned(ptrs, bounds, from) && (from < 2 || ptrs.len() <= 4);
        assert(all == (if here { rest.push(ptrs[from].blockptr) } else { rest }));
        assert forall|k: int|
            from <= k < ptrs.len() && !tree::pruned(ptrs, bounds, k) && (k < 2 || ptrs.len()
                <= 4) implies all.contains((#[trigger] ptrs[k]).blockptr) by {
            if k == from {
                assert(all[all.len() - 1] == ptrs[k].blockptr);
            } else {
                assert(rest.contains(ptrs[k].blockptr));
                let i = choose|i: int| 0 <= i < rest.len() && rest[i] == ptrs[k].blockptr;
                assert(all[i] == rest[i]);
            }
        }
        assert forall|i: int| 0 <= i < all.len() implies exists|k: int|
            {
                &&& from <= k < ptrs.len()
                &&& (#[trigger] ptrs[k]).blockptr == #[trigger] all[i]
                &&& !tree::pruned(ptrs, bounds, k)
                &&& k < 2 || ptrs.len() <= 4
            } by {
            if i < rest.len() {
                assert(all[i] == rest[i]);
                let k = choose|k: int|
                    {
                        &&& from + 1 <= k < ptrs.len()
                        &&& (#[trigger] ptrs[k]).blockptr == rest[i]
                        &&& !tree::pruned(ptrs, bounds, k)
                        &&& k < 2 || ptrs.len() <= 4
                    };
                assert(ptrs[k].blockptr == all[i]);
            } else {
                assert(ptrs[from].blockptr == all[i]);
            }
        }
    }
}

/// Of the children of a node that will be read, the first two are hinted ahead, or
/// all where there are at most four; and no other node is.
pub proof fn law_first_children_are_hinted(ptrs: Seq<KeyPtr>, bounds: Option<(Key, Key)>, k: int)
    requires
        0 <= k < ptrs.len(),
        forall|j: int|
            0 <= j < ptrs.len() && j != k ==> (#[trigger] ptrs[j]).blockptr != ptrs[k].blockptr,
    ensures
        tree::prefetch_from(ptrs, bounds, 0).contains(ptrs[k].blockptr) <==> !tree::pruned(
            ptrs,
            bounds,
            k,
        ) && (k < 2 || ptrs.len() <= 4),
{
    lemma_hinted_ahead(ptrs, bounds, 0);
    let all = tree::prefetch_from(ptrs, bounds, 0);
    if all.contains(ptrs[k].blockptr) {
        let i = choose|i: int| 0 <= i < all.len() && all[i] == ptrs[k].blockptr;
        let j = choose|j: int|
            {
                &&& 0 <= j < ptrs.len()
                &&& (#[trigger] ptrs[j]).blockptr == all[i]
                &&& !tree::pruned(ptrs, bounds, j)
                &&& j < 2 || ptrs.len() <= 4
            };
        assert(j == k);
    }
}

/// A node that is hinted ahead is named at the place of each of its copies on the
/// device.
pub proof fn law_hint_names_every_copy<T: Fn(WalkTell)>(
    reader: FsReader,
    map: ChunkMap,
    tell: T,
    logical: u64,
    i: int,
    k: int,
)
    requires
        walk::hinted(reader, map, tell, logical),
        map.found(logical, i),
        0 <= k < map@[i].stripes@.len(),
        reader.base_offset + map@[i].copies(logical)[k].1 <= u64::MAX,
        0 <= map@[i].copies(logical)[k].1,
    ensures
        exists|position: u64|
            position == reader.base_offset + map@[i].copies(logical)[k].1 && #[trigger]
                call_ensures(tell, (WalkTell::ReadAhead { position },), ()),
{
    let position = (reader.base_offset + map@[i].copies(logical)[k].1) as u64;
    assert(call_ensures(tell, (WalkTell::ReadAhead { position },), ()));
}

} // verus!
