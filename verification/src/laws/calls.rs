//! How the results of calls relate to what was handed in, and to each other.

use vstd::prelude::*;

use crate::array::config;
use crate::array::config::ArrayConfig;
use crate::array::nmdstat;
use crate::array::nmdstat::{LoadError, StatEntry};
use crate::array::path;
use crate::array::resolve;
use crate::array::resolve::{ResolveError, ResolvedLocation};
use crate::batch_recover;
use crate::batch_recover::{BatchStats, Queued};
use crate::btrfs::chunk::{ChunkItem, ChunkMap, ChunkRecord, Stripe};
use crate::btrfs::chunk;
use crate::btrfs::csum_strategy::CsumStrategy;
use crate::btrfs::dev_extent::DevExtent;
use crate::btrfs::reader::{FsReader, PhysicalRead, ReadError};
use crate::btrfs::scrub;
use crate::btrfs::scrub::{ExtentPlan, SectorResult};
use crate::btrfs::scrub_driver;
use crate::btrfs::superblock;
use crate::btrfs::superblock::{CopyRead, Superblock, SuperblockError};
use crate::btrfs::util;
use crate::cli;
use crate::cli::{Imbalance, Options};
use crate::fs::{ScrubEvent, ScrubStats, SectorVerifier};
use crate::laws::array;
use crate::laws::checksums;
use crate::laws::disk_format;
use crate::laws::mapping;

verus! {

// ---------------------------------------------------------------------------
// Positions
// ---------------------------------------------------------------------------

/// Two positions of one slot lie on one device, as far apart as in the array, and
/// on the device that is in the slot.
pub proof fn law_resolving_keeps_distances(
    config: ArrayConfig,
    devid: u64,
    a: u64,
    b: u64,
    at: ResolvedLocation,
    bt: ResolvedLocation,
)
    requires
        call_ensures(
            resolve::resolve,
            (&config, devid, a),
            Ok::<ResolvedLocation, ResolveError>(at),
        ),
        call_ensures(
            resolve::resolve,
            (&config, devid, b),
            Ok::<ResolvedLocation, ResolveError>(bt),
        ),
    ensures
        at.devid == devid,
        at.array_phys == a,
        at.dev_path@ == bt.dev_path@,
        at.raw_phys - bt.raw_phys == a - b,
        config.data_devs@.contains_key(devid),
        at.dev_path@ == config.data_devs@[devid]@,
{
}

/// A slot resolves just where it has a disk and the position, moved by the disk's
/// offset, is an address; that is then the position on the disk.
pub proof fn law_slot_with_a_disk_resolves(
    config: ArrayConfig,
    slot: u64,
    array_phys: u64,
    r: Result<ResolvedLocation, ResolveError>,
    o: u64,
    k: int,
)
    requires
        call_ensures(resolve::resolve, (&config, slot, array_phys), r),
        config.data_devs@.contains_key(slot) ==> {
            &&& 0 <= k < config.rdev_offsets@.len()
            &&& path::same_path(config.rdev_offsets@[k].0@, config.data_devs@[slot]@)
            &&& config.rdev_offsets@[k].1 == o
            &&& forall|j: int|
                k < j < config.rdev_offsets@.len() ==> !path::same_path(
                    (#[trigger] config.rdev_offsets@[j]).0@,
                    config.data_devs@[slot]@,
                )
        },
    ensures
        r is Ok <==> config.data_devs@.contains_key(slot) && array_phys + o <= u64::MAX,
        r matches Ok(l) ==> l.raw_phys == array_phys + o,
        r matches Err(e) ==> (e is NotADataDisk <==> !config.data_devs@.contains_key(slot)),
{
    if config.data_devs@.contains_key(slot) {
        array::law_last_listed_offset_counts(config, config.data_devs@[slot]@, k);
    }
}

/// What a recovery candidate is: the event's sector on the slot's disk, where the
/// disk's offset puts it, to be accepted by the event's own verifier.
pub proof fn law_candidate_is_the_events_sector(
    config: ArrayConfig,
    slot: u64,
    ev: ScrubEvent,
    q: Queued,
    r: Result<ResolvedLocation, ResolveError>,
)
    requires
        call_ensures(batch_recover::candidate_of, (&config, slot, ev), q),
        call_ensures(resolve::resolve, (&config, slot, ev.array_phys), r),
    ensures
        q is NoChecksum <==> ev.verify is None,
        q is Candidate <==> ev.verify is Some && r is Ok,
        q matches Queued::Candidate(c) ==> {
            &&& r matches Ok(l) && c.raw_phys == l.raw_phys && c.failing_dev@ == l.dev_path@
            &&& c.array_phys == ev.array_phys
            &&& c.block_size == ev.block_size
            &&& c.verify == ev.verify.unwrap()
            &&& c.reconfirm == ev.reconfirm
            &&& c.unreadable == ev.unreadable
        },
{
}

/// A slot that is found for a device is one whose own path is that device's, the
/// lowest such.
pub proof fn law_device_is_found_in_its_slot(
    config: ArrayConfig,
    target: &str,
    resolved: Vec<String>,
    r: Option<u64>,
    slot: u64,
)
    requires
        resolved@.len() == config.disks().len(),
        forall|i: int|
            0 <= i < resolved@.len() ==> (#[trigger] resolved@[i])@ == config.disks()[i].1@,
        call_ensures(ArrayConfig::slot_for_raw_dev, (&config, target, &resolved), r),
    ensures
        r matches Some(s) ==> config.data_devs@.contains_key(s) && path::same_path(
            config.data_devs@[s]@,
            target@,
        ),
        r matches Some(s) ==> config.data_devs@.contains_key(slot) && path::same_path(
            config.data_devs@[slot]@,
            target@,
        ) ==> s <= slot,
{
    config::law_disks_are_listed(config);
    if let Some(s) = r {
        let i = choose|i: int|
            {
                &&& 0 <= i < resolved@.len()
                &&& path::same_path((#[trigger] resolved@[i])@, target@)
                &&& s == config.disks()[i].0
                &&& forall|j: int|
                    0 <= j < i ==> !path::same_path((#[trigger] resolved@[j])@, target@)
            };
        assert(config.data_devs@.contains_key(config.disks()[i].0));
        if config.data_devs@.contains_key(slot) && path::same_path(
            config.data_devs@[slot]@,
            target@,
        ) {
            assert(config::has_slot(config.disks(), slot));
            let m = choose|m: int|
                0 <= m < config.disks().len() && (#[trigger] config.disks()[m]).0 == slot;
            assert(path::same_path(resolved@[m]@, target@));
            assert(i <= m);
            if i < m {
                assert(config.disks()[i].0 < config.disks()[m].0);
            }
            assert(s <= slot);
        }
    }
}

// ---------------------------------------------------------------------------
// The array's layout
// ---------------------------------------------------------------------------

/// For every number: where the values name a slot's disk and list the number as
/// its offset, the entry of that slot has it.
pub proof fn law_entry_has_the_listed_offset(
    values: Vec<(String, String)>,
    r: Vec<StatEntry>,
    i: int,
    j: int,
    slot: u64,
    v: u64,
)
    requires
        nmdstat::keys_ascend(values@),
        call_ensures(nmdstat::stat_entries, (&values,), r),
        0 <= i < values@.len(),
        array::names_slot(values@[i].0@, slot),
        values@[i].1@.len() > 0,
        0 <= j < values@.len(),
        values@[j].0@ == array::offset_key(slot),
        array::is_number(values@[j].1@, v as int),
    ensures
        exists|m: int|
            {
                &&& 0 <= m < r@.len()
                &&& (#[trigger] r@[m]).slot == slot
                &&& r@[m].path@ == array::device_path(values@[i].1@)
                &&& r@[m].offset_sectors == v
            },
{
    array::law_listed_offset_is_the_disks_offset(r@, values@, i, j, slot, v);
}

/// The layout of the entries adds 512 bytes for each sector of a disk's offset,
/// wherever all offsets fit, and is refused where one does not.
pub proof fn law_layout_adds_the_listed_offset(
    entries: Vec<StatEntry>,
    r: Result<ArrayConfig, LoadError>,
    k: int,
)
    requires
        call_ensures(ArrayConfig::from_entries, (&entries,), r),
        0 <= k < entries@.len(),
        forall|j: int|
            k < j < entries@.len() ==> !path::same_path(
                (#[trigger] entries@[j]).path@,
                entries@[k].path@,
            ),
    ensures
        r matches Ok(c) ==> c.offset(entries@[k].path@) == entries@[k].offset_sectors * 512,
        entries@[k].offset_sectors * 512 > u64::MAX ==> r is Err,
        (forall|j: int|
            0 <= j < entries@.len() ==> (#[trigger] entries@[j]).offset_sectors * 512 <= u64::MAX)
            ==> r is Ok,
{
    if let Ok(c) = r {
        let configs = choose|configs: Seq<ArrayConfig>| #[trigger]
            nmdstat::built(configs, entries@) && configs.len() == entries@.len() + 1
                && configs.last() == c;
        array::law_layout_offset_is_512_bytes_a_sector(
            configs,
            entries@,
            k,
            entries@[k].path@,
        );
    }
}

// ---------------------------------------------------------------------------
// Chunks
// ---------------------------------------------------------------------------

/// Parsing a chunk item gives back what was laid out, for every length, type and
/// row of stripes.
pub proof fn law_parsed_chunk_is_what_was_laid_out(
    buf: &[u8],
    length: u64,
    stripe_len: u64,
    ty: u64,
    stripes: Seq<Stripe>,
    r: ChunkItem,
)
    requires
        disk_format::holds_chunk(buf@, 0, length, stripe_len, ty, stripes),
        call_ensures(ChunkItem::parse, (buf,), r),
    ensures
        r.length == length,
        r.stripe_len == stripe_len,
        r.ty == ty,
        r.num_stripes == stripes.len(),
        r.stripes@ == stripes,
{
    disk_format::law_chunk_item_is_read_back(buf@, length, stripe_len, ty, stripes, r);
}

/// Looking up an address of a chunk that was inserted gives the device of its
/// first stripe, and the stripe's offset moved as far as the address lies behind
/// the chunk's start; so for every copy.
pub proof fn law_lookup_gives_the_stripes_place(
    recs: Seq<ChunkRecord>,
    map: ChunkMap,
    k: int,
    logical: u64,
    one: Option<(u64, u64)>,
    all: Option<Vec<(u64, u64)>>,
    c: int,
)
    requires
        chunk::all_inserted(Seq::empty(), recs, map@),
        0 <= k < recs.len(),
        mapping::in_chunk(recs[k], logical),
        forall|m: int|
            0 <= m < recs.len() && m != k ==> !mapping::in_chunk(#[trigger] recs[m], logical),
        recs[k].chunk.stripes@.len() > 0,
        call_ensures(ChunkMap::lookup, (&map, logical), one),
        call_ensures(ChunkMap::lookup_stripes, (&map, logical), all),
    ensures
        one matches Some(at) && at.0 == recs[k].chunk.stripes@[0].devid && at.1
            == recs[k].chunk.stripes@[0].offset + (logical - recs[k].logical),
        all matches Some(row) && row@.len() == recs[k].chunk.stripes@.len() && (0 <= c
            < row@.len() ==> row@[c].0 == recs[k].chunk.stripes@[c].devid && row@[c].1
            == recs[k].chunk.stripes@[c].offset + (logical - recs[k].logical)),
{
    mapping::law_address_maps_into_its_chunk(recs, map, k, logical, 0, 0, (0, 0));
    let at = one.unwrap();
    let i = choose|i: int| #[trigger]
        map.found(logical, i) && chunk::is_copy(at, map@[i].copies(logical)[0]);
    mapping::law_address_maps_into_its_chunk(recs, map, k, logical, i, 0, at);
    let row = all.unwrap();
    let i = choose|i: int|
        {
            &&& #[trigger] map.found(logical, i)
            &&& row@.len() == map@[i].stripes@.len()
            &&& forall|k: int|
                0 <= k < row@.len() ==> chunk::is_copy(
                    #[trigger] row@[k],
                    map@[i].copies(logical)[k],
                )
        };
    mapping::law_address_maps_into_its_chunk(recs, map, k, logical, i, c, row@[c]);
}

/// A physical read is made on the reader's own device only, at the offset moved
/// by where the filesystem starts, and hints at what follows it.
pub proof fn law_physical_read_is_moved_by_the_base(
    reader: FsReader,
    devid: u64,
    phys: u64,
    n: usize,
    r: Result<PhysicalRead, ReadError>,
)
    requires
        call_ensures(FsReader::read_physical, (&reader, devid, phys, n), r),
    ensures
        r is Ok <==> (reader.devid is None || reader.devid == Some(devid)) && reader.base_offset
            + phys + n <= u64::MAX,
        r matches Ok(p) ==> {
            &&& p.position == reader.base_offset + phys
            &&& p.ahead_position == p.position + n
            &&& p.ahead_len <= n
            &&& p.ahead_len == n || p.ahead_len == 64 * 1024 * 1024
        },
{
}

// ---------------------------------------------------------------------------
// The scrub
// ---------------------------------------------------------------------------

/// An extent is scrubbed just where a chunk of odd type maps it, and then from
/// its chunk's address on, for its length.
pub proof fn law_data_extent_is_scrubbed_whole(
    chunk_map: ChunkMap,
    dext: DevExtent,
    r: ExtentPlan,
)
    requires
        call_ensures(scrub::extent_plan, (&chunk_map, &dext), r),
    ensures
        r matches ExtentPlan::Scrub { logical_lo, logical_hi } ==> {
            &&& logical_lo == dext.chunk_offset
            &&& logical_hi - logical_lo == dext.length
        },
        r is NoChunk <==> chunk_map.unmapped(dext.chunk_offset),
        r is OutOfRange ==> dext.chunk_offset + dext.length > u64::MAX,
        r is NotData ==> !scrub::maps_data(chunk_map, dext.chunk_offset),
        r is Scrub || r is OutOfRange ==> scrub::maps_data(chunk_map, dext.chunk_offset),
{
    if r is Scrub || r is OutOfRange {
        let i = choose|i: int| #[trigger] chunk_map.found(dext.chunk_offset, i);
        assert(chunk_map@[i].covers(dext.chunk_offset));
    }
}

/// The event of a finding is for the same sector, and its verifier accepts just
/// the blocks whose checksum is the stored one.
pub proof fn law_event_is_for_the_finding(
    found: SectorResult,
    strategy: CsumStrategy,
    ev: ScrubEvent,
    candidate: &[u8],
    accepted: bool,
)
    requires
        call_ensures(scrub_driver::event_of, (&found, &strategy), ev),
        0 <= strategy.csum_type <= 3,
    ensures
        ev.array_phys == found.array_phys,
        ev.block_size == strategy.sector_size,
        ev.unreadable == found.unreadable,
        ev.verify is None <==> found.stored_csum is None,
        ev.reconfirm is None <==> found.stored_csum is None,
        ev.reconfirm matches Some(q) ==> q.token == found.logical && q.stored_csum@
            == found.stored_csum.unwrap()@,
        ev.verify matches Some(v) ==> call_ensures(
            SectorVerifier::accepts,
            (&v, candidate),
            accepted,
        ) ==> (accepted <==> checksums::hashed(candidate@, strategy.csum_type as int)
            == found.stored_csum.unwrap()@),
{
    checksums::law_checksum_types(strategy.csum_type, candidate@);
}

/// A read is cut off by a fault just where some byte of it lies in the faulty
/// range.
pub proof fn law_fault_hits_what_it_covers(fault: (u64, u64), offset: u64, n: u64, r: bool)
    requires
        call_ensures(util::fault_hits, (fault, offset, n), r),
        fault.0 + fault.1 <= u64::MAX,
        offset + n <= u64::MAX,
        n > 0,
        fault.1 > 0,
    ensures
        r <==> exists|at: int|
            offset <= at < offset + n && #[trigger] in_fault(fault, at),
{
    if r {
        let at: int = if offset > fault.0 {
            offset as int
        } else {
            fault.0 as int
        };
        assert(in_fault(fault, at));
    }
}

/// The byte lies in the faulty range.
pub open spec fn in_fault(fault: (u64, u64), at: int) -> bool {
    fault.0 <= at < fault.0 + fault.1
}

// ---------------------------------------------------------------------------
// Superblocks
// ---------------------------------------------------------------------------

/// A superblock is read just where some copy is good; the primary copy, where it
/// is good, gives the same fields as reading it alone.
pub proof fn law_some_good_copy_suffices<E>(
    copies: Vec<CopyRead<E>>,
    r: Result<Superblock, SuperblockError<E>>,
    alone: Result<Superblock, SuperblockError<E>>,
)
    requires
        copies@.len() > 0,
        call_ensures(Superblock::read::<E>, (copies,), r),
        call_ensures(Superblock::read_primary::<E>, (copies@[0],), alone),
    ensures
        r is Ok <==> exists|i: int|
            0 <= i < copies@.len() && superblock::copy_good(#[trigger] copies@[i]),
        alone is Ok ==> r is Ok,
        alone matches Ok(a) ==> r matches Ok(b) ==> {
            &&& a.generation == b.generation
            &&& a.root == b.root
            &&& a.chunk_root == b.chunk_root
            &&& a.total_bytes == b.total_bytes
            &&& a.node_size == b.node_size
            &&& a.sector_size == b.sector_size
            &&& a.csum_type == b.csum_type
            &&& a.devid == b.devid
            &&& a.fsid@ == b.fsid@
        },
{
    if r is Err && r->Err_0 is NoneFound {
        assert forall|i: int| 0 <= i < copies@.len() implies !superblock::copy_good(
            #[trigger] copies@[i],
        ) by {
            assert(copies@[i] is PastEnd);
        }
    }
    assert(superblock::copy_good(copies@[0]) == (alone is Ok));
}

/// The primary superblock is read just where its block was read and is valid; where
/// it was not read, the failure is the read's.
pub proof fn law_primary_fails_as_its_read<E>(
    copy: CopyRead<E>,
    r: Result<Superblock, SuperblockError<E>>,
    x: E,
)
    requires
        call_ensures(Superblock::read_primary::<E>, (copy,), r),
    ensures
        r is Ok <==> (copy matches CopyRead::Block(b) && superblock::copy_valid(b@)),
        copy is PastEnd ==> r matches Err(SuperblockError::PastEnd),
        copy == CopyRead::Failed(x) ==> (r matches Err(SuperblockError::Read(y)) && y == x),
        copy is Block ==> (r matches Err(e) ==> e is Fault),
{
}

// ---------------------------------------------------------------------------
// The command line
// ---------------------------------------------------------------------------

/// The exit code is 0 if and only if none of the seven counters of what went
/// wrong, or was not verified, has moved.
pub proof fn law_exit_code_is_zero_iff_all_is_well(
    stats: ScrubStats,
    batch: BatchStats,
    had_writer: bool,
    r: u8,
)
    requires
        call_ensures(cli::exit_code, (&stats, &batch, had_writer), r),
    ensures
        r == 0 <==> stats.sectors_mismatch == 0 && batch.mismatch == 0
            && stats.sectors_read_error == 0 && stats.metadata_header_errors == 0
            && stats.metadata_read_errors == 0 && stats.stale_csum_branches == 0
            && batch.skipped == 0,
        r == 6 <==> stats.metadata_header_errors > 0,
        r == 0 || r == 3 || r == 4 || r == 5 || r == 6,
        r == 4 || r == 5 ==> had_writer,
        r == 4 ==> batch.failed == 0 && batch.skipped == 0 && batch.not_frozen == 0
            && batch.readback_failed == 0 && batch.not_corrupt == 0,
{
}

/// The accounts balance if and only if every candidate that was sent is in just
/// one of the four buckets, and every mismatch has just one outcome.
pub proof fn law_accounts_balance(stats: BatchStats, sent: u64, r: Result<(), Imbalance>)
    requires
        call_ensures(cli::reconcile, (&stats, sent), r),
    ensures
        r is Ok <==> {
            &&& stats.mismatch + stats.stale + stats.skipped + stats.deduped == sent
            &&& stats.recovered + stats.failed + stats.not_corrupt + stats.not_frozen
                + stats.readback_failed == stats.mismatch
        },
{
}

/// Something is frozen only for repairs, only where freezing is on, and then it
/// is the mount that was named.
pub proof fn law_only_repairs_freeze(o: Options, r: Option<String>)
    requires
        call_ensures(cli::freeze_target, (&o,), r),
    ensures
        r is Some <==> !o.dry_run && o.freeze_enabled && o.freeze_mount is Some,
        r matches Some(m) ==> m@ == o.freeze_mount.unwrap()@,
{
}

} // verus!
