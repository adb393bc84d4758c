//! Where the library stops: at the ends of the address space and of its counters,
//! and nowhere before.

use vstd::prelude::*;

use crate::array::config::ArrayConfig;
use crate::array::stripe;
use crate::btrfs::chunk::{ChunkMap, ChunkRecord};
use crate::btrfs::csum::CsumEntry;
use crate::btrfs::dev_extent::DevExtent;
use crate::btrfs::reader::FsReader;
use crate::btrfs::scrub;
use crate::btrfs::scrub::ScrubStats;
use crate::btrfs::scrub_driver;
use crate::btrfs::scrub_driver::BtrfsScrub;
use crate::btrfs::tree::WalkCounts;

verus! {

/// The position is an address.
pub open spec fn is_address(at: int) -> bool {
    0 <= at < 0x1_0000_0000_0000_0000
}

/// A stripe is in range if and only if its position on every disk, the disk's own
/// offset added, is an address.
pub proof fn law_stripe_is_in_range_iff_its_places_are(
    config: ArrayConfig,
    array_phys: u64,
    r: bool,
)
    requires
        call_ensures(stripe::in_range, (&config, array_phys), r),
    ensures
        r <==> {
            &&& forall|k: int|
                0 <= k < config.disks().len() ==> is_address(
                    array_phys + config.offset((#[trigger] config.disks()[k]).1@),
                )
            &&& config.parity_p matches Some(p) ==> is_address(array_phys + config.offset(p@))
            &&& config.parity_q matches Some(q) ==> is_address(array_phys + config.offset(q@))
        },
{
    assert(stripe::offset_fits(config, array_phys) ==> r);
}

/// A chunk is in range if and only if its last byte is an address, or it has none.
pub proof fn law_chunk_is_in_range_iff_it_ends_there(rec: ChunkRecord)
    ensures
        rec.in_range() <==> rec.logical + rec.chunk.length < 0x1_0000_0000_0000_0000,
{
}

/// The copies of an address are in range if and only if each stripe has an address
/// for it.
pub proof fn law_copies_are_in_range_iff_the_stripes_reach(
    map: ChunkMap,
    logical: u64,
    i: int,
)
    requires
        map.found(logical, i),
        forall|j: int| #[trigger] map.found(logical, j) ==> j == i,
    ensures
        map.copies_fit(logical) <==> forall|k: int|
            0 <= k < map@[i].stripes@.len() ==> is_address(
                (#[trigger] map@[i].stripes@[k]).offset + (logical - map@[i].begin),
            ),
{
    let e = map@[i];
    if map.copies_fit(logical) {
        assert forall|k: int| 0 <= k < e.stripes@.len() implies is_address(
            (#[trigger] e.stripes@[k]).offset + (logical - e.begin),
        ) by {
            assert(map@[i].copies(logical)[k].1 <= u64::MAX);
        }
    }
    if forall|k: int|
        0 <= k < e.stripes@.len() ==> is_address(
            (#[trigger] e.stripes@[k]).offset + (logical - e.begin),
        ) {
        assert forall|j: int, k: int|
            #![trigger map@[j].copies(logical)[k]]
            map.found(logical, j) && 0 <= k < map@[j].stripes@.len() implies map@[j].copies(
            logical,
        )[k].1 <= u64::MAX by {
            assert(is_address(e.stripes@[k].offset + (logical - e.begin)));
        }
    }
}

/// A node's copies are out of range only where the filesystem's start and a stripe
/// put one of them past the last address.
pub proof fn law_copy_is_out_of_range_only_past_the_end(
    reader: FsReader,
    map: ChunkMap,
    logical: u64,
) -> (at: (int, int))
    requires
        reader.copy_out_of_range(map, logical),
    ensures
        map.found(logical, at.0),
        0 <= at.1 < map@[at.0].stripes@.len(),
        !is_address(
            reader.base_offset + map@[at.0].stripes@[at.1].offset + (logical - map@[at.0].begin),
        ),
{
    let (i, k) = choose|i: int, k: int|
        map.found(logical, i) && 0 <= k < map@[i].stripes@.len() && reader.base_offset
            + #[trigger] map@[i].copies(logical)[k].1 > u64::MAX;
    (i, k)
}

/// The sectors of an extent are in range if and only if each of them ends at an
/// address, where the extent puts it on the disk.
pub proof fn law_sectors_are_in_range_iff_they_end_there(
    dext: DevExtent,
    entries: Vec<CsumEntry>,
    sector_size: u64,
    i: int,
)
    requires
        0 <= i < entries@.len(),
        dext.chunk_offset <= entries@[i].logical,
    ensures
        scrub::ends_in_range(dext, entries@[i].logical, sector_size) <==> dext.phys_start + (
        entries@[i].logical - dext.chunk_offset) + sector_size < 0x1_0000_0000_0000_0000,
        scrub::in_extent(dext, entries@[i].logical) <==> is_address(
            dext.phys_start + (entries@[i].logical - dext.chunk_offset),
        ),
{
}

/// Counters that can be added to stop only at what 64 bits hold.
pub proof fn law_counters_stop_only_at_their_end(
    a: ScrubStats,
    b: ScrubStats,
    counts: WalkCounts,
    s: BtrfsScrub,
    v: int,
)
    ensures
        a.can_add(b) <==> {
            &&& a.sectors_checked + b.sectors_checked <= u64::MAX
            &&& a.sectors_ok + b.sectors_ok <= u64::MAX
            &&& a.sectors_mismatch + b.sectors_mismatch <= u64::MAX
            &&& a.sectors_no_csum + b.sectors_no_csum <= u64::MAX
            &&& a.sectors_read_error + b.sectors_read_error <= u64::MAX
            &&& a.sectors_stale + b.sectors_stale <= u64::MAX
            &&& a.stale_csum_branches + b.stale_csum_branches <= u64::MAX
            &&& a.isolation_truncated + b.isolation_truncated <= u64::MAX
            &&& a.bytes_checked + b.bytes_checked <= u64::MAX
            &&& a.metadata_header_errors + b.metadata_header_errors <= u64::MAX
        },
        counts.has_room() <==> counts.header_errors < u64::MAX && counts.mirror_mismatches
            < u64::MAX && counts.read_errors < u64::MAX,
        scrub_driver::fits(v) <==> is_address(v),
        s.totals_fit() <==> {
            &&& s.counts.header_errors + s.csum_provider.header_nodes().len() <= u64::MAX
            &&& s.counts.mirror_mismatches + s.csum_provider.mirror_nodes().len() <= u64::MAX
            &&& s.counts.read_errors + s.csum_provider.read_nodes().len() <= u64::MAX
        },
{
}

} // verus!
