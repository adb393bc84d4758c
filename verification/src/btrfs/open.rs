//! Opening a single-device btrfs filesystem: superblock, chunk map, well-known
//! tree roots, and open-time metadata-error accounting.

use vstd::prelude::*;

use crate::btrfs::chunk;
use crate::btrfs::chunk::{ChunkItem, ChunkMap, ChunkRecord, ProfileError};
use crate::btrfs::csum_strategy;
use crate::btrfs::csum_strategy::{CsumError, CsumStrategy};
use crate::btrfs::key::key_type;
use crate::btrfs::key::objectid;
use crate::btrfs::node::Leaf;
use crate::btrfs::reader;
use crate::btrfs::reader::FsReader;
use crate::btrfs::root;
use crate::btrfs::root::RootItem;
use crate::btrfs::superblock::Superblock;
use crate::btrfs::tree;
use crate::btrfs::tree::{NodeRef, WalkCounts, WalkStep};
use crate::btrfs::walk;
use crate::btrfs::walk::{Visit, WalkTell};
use crate::status::MetadataKind;

verus! {

/// Logical addresses of the well-known tree roots the scrub needs.
#[derive(Debug, Clone, Copy, PartialEq, Eq, Structural)]
pub struct TreeRoots {
    pub fs_root: u64,
    pub csum_root: u64,
    /// Present only when the root-tree walk found the tree's ROOT_ITEM.
    pub dev_tree_root: Option<u64>,
    /// Present only when the root-tree walk found the tree's ROOT_ITEM.
    pub extent_tree_root: Option<u64>,
}

/// Everything a scrub needs to read the filesystem.
pub struct BtrfsContext {
    pub reader: FsReader,
    pub chunk_map: ChunkMap,
    pub superblock: Superblock,
    pub roots: TreeRoots,
    /// Checksum algorithm selected by the superblock.
    pub strategy: CsumStrategy,
    /// Metadata nodes whose every mirror copy failed header verification during
    /// open.
    pub metadata_header_errors: u64,
    /// Mirror copies that disagreed during open (a good copy was recovered).
    pub metadata_mirror_mismatches: u64,
    /// Metadata nodes that failed with a read error during open.
    pub metadata_read_errors: u64,
}

impl BtrfsContext {
    /// Nodes are verified with the checksum algorithm of the superblock, and the
    /// chunk map is in order.
    pub open spec fn wf(&self) -> bool {
        &&& self.chunk_map.wf()
        &&& self.strategy.wf()
        &&& self.reader.wf()
        &&& self.reader.strategy == Some(self.strategy)
        &&& self.reader.node_size == self.superblock.node_size
    }

    /// The failures counted while opening.
    pub open spec fn counts(&self) -> WalkCounts {
        WalkCounts {
            header_errors: self.metadata_header_errors,
            mirror_mismatches: self.metadata_mirror_mismatches,
            read_errors: self.metadata_read_errors,
        }
    }
}

/// Why a filesystem was not opened.
#[derive(Debug, Clone, Copy, PartialEq, Eq, Structural)]
pub enum OpenError {
    /// A member of a multi-device pool would be misread via its striped
    /// geometry.
    MultiDevice { num_devices: u64 },
    /// The device is shorter than the superblock declares.
    DeviceTooShort { dev_size: u64, total_bytes: u64, base_offset: u64 },
    /// No checksum strategy.
    Csum(CsumError),
    /// Nodes too small to hold a header.
    NodeTooSmall { node_size: u32 },
    /// A chunk ends outside the address space.
    ChunkOutOfRange { logical: u64 },
    /// An item runs past its leaf, or is shorter than its fields.
    ItemOutOfBounds,
    /// A node announces more items than it has room for.
    NodeMalformed { logical: u64 },
    /// The metadata failures do not fit in a counter.
    TooManyFailures,
    /// A data chunk with a striped profile.
    Profile(ProfileError),
    FsTreeNotFound,
    CsumTreeNotFound,
}

/// A filesystem being opened: the chunk tree is walked first, then the root
/// tree.
pub struct OpenScan {
    pub reader: FsReader,
    pub chunk_map: ChunkMap,
    pub superblock: Superblock,
    pub strategy: CsumStrategy,
    pub counts: WalkCounts,
    pub records: Vec<ChunkRecord>,
    pub fs_root: Option<u64>,
    pub csum_root: Option<u64>,
    pub dev_tree_root: Option<u64>,
    pub extent_tree_root: Option<u64>,
}

/// The checks that come before any tree is read, in order; `None` if all pass.
pub open spec fn refusal(sb: Superblock, dev_size: u64, base_offset: u64) -> Option<OpenError> {
    if sb.num_devices != 1 {
        Some(OpenError::MultiDevice { num_devices: sb.num_devices })
    } else if dev_size > 0 && dev_size < base_offset + sb.total_bytes {
        Some(
            OpenError::DeviceTooShort { dev_size, total_bytes: sb.total_bytes, base_offset },
        )
    } else if !csum_strategy::supported(sb.csum_type) {
        Some(OpenError::Csum(CsumError::UnsupportedType(sb.csum_type)))
    } else if sb.sector_size == 0 {
        Some(OpenError::Csum(CsumError::ZeroSectorSize))
    } else if sb.node_size < 101 {
        Some(OpenError::NodeTooSmall { node_size: sb.node_size })
    } else {
        None
    }
}

/// Record `k` is the first that ends outside the address space.
pub open spec fn first_out_of_range(recs: Seq<ChunkRecord>, k: int) -> bool {
    &&& 0 <= k < recs.len()
    &&& !recs[k].in_range()
    &&& forall|j: int| 0 <= j < k ==> (#[trigger] recs[j]).in_range()
}

/// Inserts every record, or stops at the first that ends outside the address
/// space.
fn insert_all(chunk_map: &mut ChunkMap, recs: &Vec<ChunkRecord>) -> (r: Result<(), OpenError>)
    requires
        old(chunk_map).wf(),
    ensures
        final(chunk_map).wf(),
        match r {
            Ok(_) => {
                &&& forall|k: int| 0 <= k < recs@.len() ==> (#[trigger] recs@[k]).in_range()
                &&& chunk::all_inserted(old(chunk_map)@, recs@, final(chunk_map)@)
            },
            Err(e) => exists|k: int|
                {
                    &&& #[trigger] first_out_of_range(recs@, k)
                    &&& e == (OpenError::ChunkOutOfRange { logical: recs@[k].logical })
                    &&& chunk::all_inserted(old(chunk_map)@, recs@.take(k), final(chunk_map)@)
                },
        },
{
    let n: usize = recs.len();
    let mut k: usize = 0;
    while k < n
        invariant
            k <= n,
            n == recs@.len(),
            chunk_map.wf(),
            forall|j: int| 0 <= j < k ==> (#[trigger] recs@[j]).in_range(),
            chunk::all_inserted(old(chunk_map)@, recs@.take(k as int), chunk_map@),
        decreases n - k,
    {
        if !recs[k].fits() {
            assert(first_out_of_range(recs@, k as int));
            return Err(OpenError::ChunkOutOfRange { logical: recs[k].logical });
        }
        let ghost before = chunk_map@;
        chunk_map.insert(&recs[k]);
        proof {
            let more = recs@.take(k + 1);
            assert(more.drop_last() =~= recs@.take(k as int));
            assert(more.last() == recs@[k as int]);
            assert(chunk::all_inserted(old(chunk_map)@, more.drop_last(), before));
        }
        k = k + 1;
    }
    assert(recs@.take(n as int) =~= recs@);
    Ok(())
}

/// What comes of starting to open. Either the checks refuse the superblock, or a
/// system chunk ends outside the address space, the first of which is reported,
/// or the map holds exactly the system chunks and nothing is counted but an unusable primary superblock.
pub open spec fn begun(
    superblock: Superblock,
    primary_ok: bool,
    dev_size: u64,
    base_offset: u64,
    r: Result<OpenScan, OpenError>,
) -> bool {
    match r {
        Ok(scan) => {
            &&& refusal(superblock, dev_size, base_offset) is None
            &&& scan.wf()
            &&& scan.superblock == superblock
            &&& scan.strategy.csum_type == superblock.csum_type
            &&& scan.strategy.sector_size == superblock.sector_size
            &&& scan.reader.node_size == superblock.node_size
            &&& scan.reader.base_offset == base_offset
            &&& scan.reader.devid == Some(superblock.devid)
            &&& scan.reader.fsid == Some(superblock.fsid)
            &&& scan.reader.strategy == Some(scan.strategy)
            &&& scan.counts == (WalkCounts {
                header_errors: 0,
                mirror_mismatches: if primary_ok { 0 } else { 1 },
                read_errors: 0,
            })
            &&& scan.records@.len() == 0
            &&& scan.fs_root is None
            &&& scan.csum_root is None
            &&& scan.dev_tree_root is None
            &&& scan.extent_tree_root is None
            &&& exists|sys: Seq<ChunkRecord>|
                {
                    &&& #[trigger] chunk::sys_chunks_from(sys, superblock.sys_chunks@, 0)
                    &&& chunk::all_inserted(Seq::empty(), sys, scan.chunk_map@)
                }
        },
        Err(OpenError::ChunkOutOfRange { logical }) => {
            &&& refusal(superblock, dev_size, base_offset) is None
            &&& exists|sys: Seq<ChunkRecord>, k: int|
                {
                    &&& #[trigger] chunk::sys_chunks_from(sys, superblock.sys_chunks@, 0)
                    &&& #[trigger] first_out_of_range(sys, k)
                    &&& logical == sys[k].logical
                }
        },
        Err(e) => refusal(superblock, dev_size, base_offset) == Some(e),
    }
}

/// Starts opening: checks the superblock against the device and bootstraps the
/// chunk map from the system chunk array, which maps the chunk tree. A primary
/// superblock that was not usable is a recoverable divergence: it is counted,
/// not fatal.
pub fn begin(superblock: Superblock, primary_ok: bool, dev_size: u64, base_offset: u64) -> (r:
    Result<OpenScan, OpenError>)
    requires
        superblock.sys_chunks@.len() <= 4096,
    ensures
        begun(superblock, primary_ok, dev_size, base_offset, r),
{
    if superblock.num_devices != 1 {
        return Err(OpenError::MultiDevice { num_devices: superblock.num_devices });
    }
    let total_bytes: u64 = superblock.total_bytes;
    let too_short = dev_size > 0 && match base_offset.checked_add(total_bytes) {
        Some(end) => dev_size < end,
        None => true,
    };
    if too_short {
        return Err(OpenError::DeviceTooShort { dev_size, total_bytes, base_offset });
    }
    let strategy = match CsumStrategy::from_superblock(&superblock) {
        Ok(s) => s,
        Err(e) => {
            return Err(OpenError::Csum(e));
        },
    };
    if superblock.node_size < 101 {
        return Err(OpenError::NodeTooSmall { node_size: superblock.node_size });
    }
    let sys_chunks = chunk::parse_sys_chunks(superblock.sys_chunks.as_slice());
    let mut chunk_map = ChunkMap::default();
    assert(chunk_map@ =~= Seq::empty());
    match insert_all(&mut chunk_map, &sys_chunks) {
        Ok(_) => {},
        Err(e) => {
            assert(chunk::sys_chunks_from(sys_chunks@, superblock.sys_chunks@, 0));
            return Err(e);
        },
    }
    assert(chunk::sys_chunks_from(sys_chunks@, superblock.sys_chunks@, 0));
    let reader = FsReader::new(
        superblock.node_size as usize,
        base_offset,
        Some(strategy),
    ).with_devid(superblock.devid).with_fsid(superblock.fsid);
    let counts = WalkCounts {
        header_errors: 0,
        mirror_mismatches: if primary_ok { 0 } else { 1 },
        read_errors: 0,
    };
    Ok(
        OpenScan {
            reader,
            chunk_map,
            superblock,
            strategy,
            counts,
            records: Vec::new(),
            fs_root: None,
            csum_root: None,
            dev_tree_root: None,
            extent_tree_root: None,
        },
    )
}

/// Item `i` of a chunk-tree leaf is a chunk item that can be read.
pub open spec fn chunk_item_readable(leaf: Leaf, i: int) -> bool {
    leaf.item_in_bounds(i) && chunk::chunk_item_in_bounds(leaf.item(i))
}

/// `recs` are the chunk items among the first `k` items of a leaf.
pub open spec fn records_upto(leaf: Leaf, recs: Seq<ChunkRecord>, k: int) -> bool
    decreases k,
{
    if k <= 0 {
        recs.len() == 0
    } else if leaf.slots@[k - 1].key.ty == key_type::CHUNK_ITEM {
        &&& recs.len() > 0
        &&& recs.last().logical == leaf.slots@[k - 1].key.offset
        &&& chunk::chunk_item_of(recs.last().chunk, leaf.item(k - 1))
        &&& records_upto(leaf, recs.drop_last(), k - 1)
    } else {
        records_upto(leaf, recs, k - 1)
    }
}

/// Item `i` of a root-tree leaf is a root item that can be read.
pub open spec fn root_item_readable(leaf: Leaf, i: int) -> bool {
    leaf.item_in_bounds(i) && leaf.item(i).len() >= 239
}

/// The root that the first `k` items of a leaf give for tree `id`, the last one
/// winning; `before` where they give none.
pub open spec fn root_upto(leaf: Leaf, id: u64, before: Option<u64>, k: int) -> Option<u64>
    decreases k,
{
    if k <= 0 {
        before
    } else if leaf.slots@[k - 1].key.ty == key_type::ROOT_ITEM && leaf.slots@[k - 1].key.objectid
        == id {
        Some(root::root_item_at(leaf.item(k - 1)).bytenr)
    } else {
        root_upto(leaf, id, before, k - 1)
    }
}

/// The items of type `ty` are readable up to `k`.
pub open spec fn all_roots_readable(leaf: Leaf, k: int) -> bool {
    forall|i: int|
        0 <= i < k && (#[trigger] leaf.slots@[i]).key.ty == key_type::ROOT_ITEM
            ==> root_item_readable(leaf, i)
}

/// Every chunk item of the leaf can be read.
pub open spec fn chunk_leaf_readable(leaf: Leaf) -> bool {
    forall|i: int|
        0 <= i < leaf.slots@.len() && (#[trigger] leaf.slots@[i]).key.ty == key_type::CHUNK_ITEM
            ==> chunk_item_readable(leaf, i)
}

/// The node visited has room for what it announces, and the chunk items of a
/// leaf can be read.
pub open spec fn chunk_visit_ok(visit: Visit) -> bool {
    match visit.step {
        WalkStep::Malformed => false,
        WalkStep::Leaf { leaf, .. } => chunk_leaf_readable(leaf),
        _ => true,
    }
}

/// The node visited has room for what it announces, and the root items of a
/// leaf can be read.
pub open spec fn root_visit_ok(visit: Visit) -> bool {
    match visit.step {
        WalkStep::Malformed => false,
        WalkStep::Leaf { leaf, .. } => all_roots_readable(leaf, leaf.slots@.len() as int),
        _ => true,
    }
}

/// `added` are the chunk items that one visit gives.
pub open spec fn records_taken(visit: Visit, added: Seq<ChunkRecord>) -> bool {
    match visit.step {
        WalkStep::Leaf { leaf, .. } => records_upto(leaf, added, leaf.slots@.len() as int),
        _ => added.len() == 0,
    }
}

/// `recs` are the chunk items of the leaves visited, in order.
pub open spec fn visit_records(visits: Seq<Visit>, recs: Seq<ChunkRecord>) -> bool
    decreases visits.len(),
{
    if visits.len() == 0 {
        recs.len() == 0
    } else {
        exists|added: Seq<ChunkRecord>|
            {
                &&& #[trigger] records_taken(visits.last(), added)
                &&& added.len() <= recs.len()
                &&& recs.skip(recs.len() - added.len()) == added
                &&& visit_records(visits.drop_last(), recs.take(recs.len() - added.len()))
            }
    }
}

/// The root for tree `id` after one visit; `before` where it gives none.
pub open spec fn root_taken(visit: Visit, id: u64, before: Option<u64>) -> Option<u64> {
    match visit.step {
        WalkStep::Leaf { leaf, .. } => root_upto(leaf, id, before, leaf.slots@.len() as int),
        _ => before,
    }
}

/// The root that the leaves visited give for tree `id`, the last one winning;
/// `before` where they give none.
pub open spec fn root_found(visits: Seq<Visit>, id: u64, before: Option<u64>) -> Option<u64>
    decreases visits.len(),
{
    if visits.len() == 0 {
        before
    } else {
        root_taken(visits.last(), id, root_found(visits.drop_last(), id, before))
    }
}

/// The walk stopped at its last visit: the failures counted before it leave no
/// room, or the node there cannot be used.
pub open spec fn stopped(
    before: WalkCounts,
    visits: Seq<Visit>,
    after: WalkCounts,
    e: OpenError,
) -> bool {
    let visit = visits.last();
    &&& visits.len() > 0
    &&& match e {
        OpenError::TooManyFailures => {
            &&& walk::counted(before, visits.drop_last(), after)
            &&& !after.has_room()
        },
        OpenError::NodeMalformed { logical } => {
            &&& walk::counted(before, visits, after)
            &&& visit.step is Malformed
            &&& visit.logical == logical
        },
        OpenError::ItemOutOfBounds => {
            &&& walk::counted(before, visits, after)
            &&& visit.step is Leaf
        },
        _ => false,
    }
}

/// What walking the chunk tree comes to: the chunk items of every leaf are
/// collected and all failures counted, or the walk stops at a node that cannot
/// be used.
pub open spec fn chunks_walked(
    before: OpenScan,
    visits: Seq<Visit>,
    left: Seq<NodeRef>,
    after: OpenScan,
    r: Result<(), OpenError>,
) -> bool {
    &&& after == (OpenScan { records: after.records, counts: after.counts, ..before })
    &&& match r {
        Ok(_) => {
            &&& left.len() == 0
            &&& forall|k: int| 0 <= k < visits.len() ==> chunk_visit_ok(#[trigger] visits[k])
            &&& walk::counted(before.counts, visits, after.counts)
            &&& exists|added: Seq<ChunkRecord>| #[trigger]
                visit_records(visits, added) && after.records@ == before.records@ + added
        },
        Err(e) => {
            &&& stopped(before.counts, visits, after.counts, e)
            &&& e is ItemOutOfBounds ==> !chunk_visit_ok(visits.last())
            &&& forall|k: int|
                0 <= k < visits.len() - 1 ==> chunk_visit_ok(#[trigger] visits[k])
        },
    }
}

/// What walking the root tree comes to: the well-known roots as the leaves give
/// them and all failures counted, or the walk stops at a node that cannot be
/// used.
pub open spec fn roots_walked(
    before: OpenScan,
    visits: Seq<Visit>,
    left: Seq<NodeRef>,
    after: OpenScan,
    r: Result<(), OpenError>,
) -> bool {
    match r {
        Ok(_) => {
            &&& left.len() == 0
            &&& forall|k: int| 0 <= k < visits.len() ==> root_visit_ok(#[trigger] visits[k])
            &&& walk::counted(before.counts, visits, after.counts)
            &&& after == (OpenScan {
                counts: after.counts,
                fs_root: root_found(visits, objectid::FS_TREE, before.fs_root),
                csum_root: root_found(visits, objectid::CSUM_TREE, before.csum_root),
                dev_tree_root: root_found(visits, objectid::DEV_TREE, before.dev_tree_root),
                extent_tree_root: root_found(
                    visits,
                    objectid::EXTENT_TREE,
                    before.extent_tree_root,
                ),
                ..before
            })
        },
        Err(e) => {
            &&& stopped(before.counts, visits, after.counts, e)
            &&& e is ItemOutOfBounds ==> !root_visit_ok(visits.last())
            &&& forall|k: int|
                0 <= k < visits.len() - 1 ==> root_visit_ok(#[trigger] visits[k])
        },
    }
}

/// `after` is the scan once the chunk tree has been walked over the store.
pub open spec fn chunks_read<P: Fn(u64, usize) -> Option<Vec<u8>>, T: Fn(WalkTell)>(
    before: OpenScan,
    pread: P,
    tell: T,
    after: OpenScan,
    r: Result<(), OpenError>,
) -> bool {
    exists|visits: Seq<Visit>, left: Seq<NodeRef>|
        {
            &&& #[trigger] walk::walked_so_far(
                before.reader,
                before.chunk_map,
                pread,
                before.superblock.chunk_root,
                None,
                visits,
                left,
            )
            &&& walk::visits_told(before.reader, before.chunk_map, tell, visits)
            &&& chunks_walked(before, visits, left, after, r)
        }
}

/// `after` is the scan once the root tree has been walked over the store.
pub open spec fn roots_read<P: Fn(u64, usize) -> Option<Vec<u8>>, T: Fn(WalkTell)>(
    before: OpenScan,
    pread: P,
    tell: T,
    after: OpenScan,
    r: Result<(), OpenError>,
) -> bool {
    exists|visits: Seq<Visit>, left: Seq<NodeRef>|
        {
            &&& #[trigger] walk::walked_so_far(
                before.reader,
                before.chunk_map,
                pread,
                before.superblock.root,
                None,
                visits,
                left,
            )
            &&& walk::visits_told(before.reader, before.chunk_map, tell, visits)
            &&& roots_walked(before, visits, left, after, r)
        }
}

impl OpenScan {
    pub open spec fn wf(&self) -> bool {
        &&& self.chunk_map.wf()
        &&& self.strategy.wf()
        &&& self.reader.wf()
        &&& self.reader.strategy == Some(self.strategy)
    }

    /// All but the records is as before.
    pub open spec fn same_but_records(&self, other: &OpenScan) -> bool {
        *self == (OpenScan { records: self.records, ..*other })
    }

    /// Counts what one step of the walk met.
    pub fn note(&mut self, step: &WalkStep)
        requires
            old(self).counts.has_room(),
        ensures
            *final(self) == (OpenScan { counts: final(self).counts, ..*old(self) }),
            final(self).counts.header_errors == old(self).counts.header_errors + (
            if *step is MetadataError { 1int } else { 0 }),
            final(self).counts.mirror_mismatches == old(self).counts.mirror_mismatches + (
            if crate::btrfs::tree::step_disagrees(*step) { 1int } else { 0 }),
            final(self).counts.read_errors == old(self).counts.read_errors + (
            if *step is ReadError { 1int } else { 0 }),
    {
        self.counts.note(step);
    }

    /// Takes the chunk items of one leaf of the chunk tree.
    pub fn absorb_chunk_leaf(&mut self, leaf: &Leaf) -> (r: Result<(), OpenError>)
        ensures
            final(self).same_but_records(old(self)),
            match r {
                Ok(_) => {
                    &&& forall|i: int|
                        0 <= i < leaf.slots@.len() && (#[trigger] leaf.slots@[i]).key.ty
                            == key_type::CHUNK_ITEM ==> chunk_item_readable(*leaf, i)
                    &&& exists|added: Seq<ChunkRecord>|
                        {
                            &&& #[trigger] records_upto(*leaf, added, leaf.slots@.len() as int)
                            &&& final(self).records@ == old(self).records@ + added
                        }
                },
                Err(e) => e == OpenError::ItemOutOfBounds && exists|i: int|
                    {
                        &&& 0 <= i < leaf.slots@.len()
                        &&& (#[trigger] leaf.slots@[i]).key.ty == key_type::CHUNK_ITEM
                        &&& !chunk_item_readable(*leaf, i)
                    },
            },
    {
        let n: usize = leaf.slots.len();
        let mut i: usize = 0;
        let ghost mut added: Seq<ChunkRecord> = Seq::empty();
        assert(self.records@ =~= old(self).records@ + added);
        while i < n
            invariant
                i <= n,
                n == leaf.slots@.len(),
                self.same_but_records(old(self)),
                forall|k: int|
                    0 <= k < i && (#[trigger] leaf.slots@[k]).key.ty == key_type::CHUNK_ITEM
                        ==> chunk_item_readable(*leaf, k),
                records_upto(*leaf, added, i as int),
                self.records@ == old(self).records@ + added,
            decreases n - i,
        {
            let slot = leaf.slots[i];
            if slot.key.ty == key_type::CHUNK_ITEM {
                let data = match leaf.checked_item(i) {
                    Some(d) => d,
                    None => {
                        return Err(OpenError::ItemOutOfBounds);
                    },
                };
                if !ChunkItem::fits(data) {
                    return Err(OpenError::ItemOutOfBounds);
                }
                let rec = ChunkRecord { logical: slot.key.offset, chunk: ChunkItem::parse(data) };
                proof {
                    let before = added;
                    added = added.push(rec);
                    assert(added.drop_last() =~= before);
                    assert(old(self).records@ + added =~= (old(self).records@ + before).push(rec));
                }
                self.records.push(rec);
            }
            i = i + 1;
        }
        assert(records_upto(*leaf, added, leaf.slots@.len() as int));
        Ok(())
    }

    /// Takes in one visit of the chunk tree.
    fn take_chunk_visit(&mut self, visit: &Visit) -> (r: Result<(), OpenError>)
        ensures
            *final(self) == (OpenScan {
                records: final(self).records,
                counts: final(self).counts,
                ..*old(self)
            }),
            match r {
                Ok(_) => {
                    &&& chunk_visit_ok(*visit)
                    &&& walk::counted(old(self).counts, seq![*visit], final(self).counts)
                    &&& exists|added: Seq<ChunkRecord>| #[trigger]
                        records_taken(*visit, added) && final(self).records@ == old(self).records@
                            + added
                },
                Err(e) => {
                    &&& stopped(old(self).counts, seq![*visit], final(self).counts, e)
                    &&& e is ItemOutOfBounds ==> !chunk_visit_ok(*visit)
                },
            },
    {
        let ghost before = self.records@;
        proof {
            assert(seq![*visit].drop_last() =~= Seq::<Visit>::empty());
            assert(seq![*visit].last() == *visit);
            reveal_with_fuel(walk::tally, 2);
        }
        if !self.counts.room() {
            return Err(OpenError::TooManyFailures);
        }
        self.note(&visit.step);
        match &visit.step {
            WalkStep::Malformed => Err(OpenError::NodeMalformed { logical: visit.logical }),
            WalkStep::Leaf { leaf, .. } => {
                let r = self.absorb_chunk_leaf(leaf);
                proof {
                    if r is Ok {
                        let added = choose|added: Seq<ChunkRecord>|
                            {
                                &&& #[trigger] records_upto(
                                    *leaf,
                                    added,
                                    leaf.slots@.len() as int,
                                )
                                &&& self.records@ == before + added
                            };
                        assert(records_taken(*visit, added));
                    }
                }
                r
            },
            _ => {
                proof {
                    assert(records_taken(*visit, Seq::<ChunkRecord>::empty()));
                    assert(before + Seq::<ChunkRecord>::empty() =~= before);
                }
                Ok(())
            },
        }
    }

    /// Walks the chunk tree over the store and collects its chunk items.
    pub fn walk_chunks<P: Fn(u64, usize) -> Option<Vec<u8>>, T: Fn(WalkTell)>(
        &mut self,
        pread: &P,
        tell: &T,
    ) -> (r: Result<(), OpenError>)
        requires
            old(self).wf(),
            reader::store_ready(*pread, old(self).reader.node_size),
            walk::tells(*tell),
        ensures
            final(self).wf(),
            chunks_read(*old(self), *pread, *tell, *final(self), r),
    {
        let ghost root = self.superblock.chunk_root;
        let ghost before = *self;
        let mut walk = tree::walk_leaves(self.superblock.chunk_root);
        let ghost mut visits = Seq::<Visit>::empty();
        let ghost mut added = Seq::<ChunkRecord>::empty();
        proof {
            walk::lemma_walk_starts(self.reader, self.chunk_map, *pread, root, None);
            assert(before.records@ + added =~= before.records@);
        }
        loop
            invariant
                before == *old(self),
                before.wf(),
                root == before.superblock.chunk_root,
                reader::store_ready(*pread, before.reader.node_size),
                walk::tells(*tell),
                *self == (OpenScan { records: self.records, counts: self.counts, ..before }),
                walk.bounds() is None,
                walk::walked_so_far(
                    before.reader,
                    before.chunk_map,
                    *pread,
                    root,
                    None,
                    visits,
                    walk.queue(),
                ),
                walk::counted(before.counts, visits, self.counts),
                walk::visits_told(before.reader, before.chunk_map, *tell, visits),
                forall|k: int| 0 <= k < visits.len() ==> chunk_visit_ok(#[trigger] visits[k]),
                visit_records(visits, added),
                self.records@ == before.records@ + added,
            decreases walk::work(walk.queue(), before.reader.node_size as nat),
        {
            let ghost left = walk.queue();
            let visit = match walk::advance(
                &mut walk,
                &self.reader,
                &self.chunk_map,
                pread,
                tell,
            ) {
                Some(v) => v,
                None => {
                    return Ok(());
                },
            };
            let ghost earlier = visits;
            proof {
                walk::lemma_walk_goes_on(
                    before.reader,
                    before.chunk_map,
                    *pread,
                    root,
                    None,
                    visits,
                    left,
                    visit,
                    walk.queue(),
                );
                walk::lemma_told_on(before.reader, before.chunk_map, *tell, visits, visit);
                visits = visits.push(visit);
                assert(visits.drop_last() =~= earlier);
                assert(visits.last() == visit);
                assert forall|k: int| 0 <= k < visits.len() - 1 implies chunk_visit_ok(
                    #[trigger] visits[k],
                ) by {
                    assert(visits[k] == earlier[k]);
                }
            }
            let ghost noted = self.counts;
            let ghost held = self.records@;
            let taken = self.take_chunk_visit(&visit);
            proof {
                walk::lemma_counted_on(before.counts, earlier, noted, visit, self.counts);
            }
            match taken {
                Ok(_) => {},
                Err(e) => {
                    assert(stopped(before.counts, visits, self.counts, e));
                    return Err(e);
                },
            }
            proof {
                let more = choose|more: Seq<ChunkRecord>| #[trigger]
                    records_taken(visit, more) && self.records@ == held + more;
                let all = added + more;
                assert(all.skip(all.len() - more.len()) =~= more);
                assert(all.take(all.len() - more.len()) =~= added);
                assert(visit_records(visits, all));
                assert(self.records@ =~= before.records@ + all);
                added = all;
            }
        }
    }

    /// Takes in one visit of the root tree.
    fn take_root_visit(&mut self, visit: &Visit) -> (r: Result<(), OpenError>)
        ensures
            match r {
                Ok(_) => {
                    &&& root_visit_ok(*visit)
                    &&& walk::counted(old(self).counts, seq![*visit], final(self).counts)
                    &&& *final(self) == (OpenScan {
                        counts: final(self).counts,
                        fs_root: root_taken(*visit, objectid::FS_TREE, old(self).fs_root),
                        csum_root: root_taken(*visit, objectid::CSUM_TREE, old(self).csum_root),
                        dev_tree_root: root_taken(
                            *visit,
                            objectid::DEV_TREE,
                            old(self).dev_tree_root,
                        ),
                        extent_tree_root: root_taken(
                            *visit,
                            objectid::EXTENT_TREE,
                            old(self).extent_tree_root,
                        ),
                        ..*old(self)
                    })
                },
                Err(e) => {
                    &&& stopped(old(self).counts, seq![*visit], final(self).counts, e)
                    &&& e is ItemOutOfBounds ==> !root_visit_ok(*visit)
                },
            },
    {
        proof {
            assert(seq![*visit].drop_last() =~= Seq::<Visit>::empty());
            assert(seq![*visit].last() == *visit);
            reveal_with_fuel(walk::tally, 2);
        }
        if !self.counts.room() {
            return Err(OpenError::TooManyFailures);
        }
        self.note(&visit.step);
        match &visit.step {
            WalkStep::Malformed => Err(OpenError::NodeMalformed { logical: visit.logical }),
            WalkStep::Leaf { leaf, .. } => {
                let ghost counts = self.counts;
                let r = self.absorb_root_leaf(leaf);
                assert(self.counts == counts);
                r
            },
            _ => Ok(()),
        }
    }

    /// Walks the root tree over the store for the well-known roots.
    pub fn walk_roots<P: Fn(u64, usize) -> Option<Vec<u8>>, T: Fn(WalkTell)>(
        &mut self,
        pread: &P,
        tell: &T,
    ) -> (r: Result<(), OpenError>)
        requires
            old(self).wf(),
            reader::store_ready(*pread, old(self).reader.node_size),
            walk::tells(*tell),
        ensures
            roots_read(*old(self), *pread, *tell, *final(self), r),
    {
        let ghost root = self.superblock.root;
        let ghost before = *self;
        let mut walk = tree::walk_leaves(self.superblock.root);
        let ghost mut visits = Seq::<Visit>::empty();
        proof {
            walk::lemma_walk_starts(self.reader, self.chunk_map, *pread, root, None);
        }
        loop
            invariant
                before == *old(self),
                before.wf(),
                root == before.superblock.root,
                reader::store_ready(*pread, before.reader.node_size),
                walk::tells(*tell),
                *self == (OpenScan {
                    counts: self.counts,
                    fs_root: root_found(visits, objectid::FS_TREE, before.fs_root),
                    csum_root: root_found(visits, objectid::CSUM_TREE, before.csum_root),
                    dev_tree_root: root_found(visits, objectid::DEV_TREE, before.dev_tree_root),
                    extent_tree_root: root_found(
                        visits,
                        objectid::EXTENT_TREE,
                        before.extent_tree_root,
                    ),
                    ..before
                }),
                walk.bounds() is None,
                walk::walked_so_far(
                    before.reader,
                    before.chunk_map,
                    *pread,
                    root,
                    None,
                    visits,
                    walk.queue(),
                ),
                walk::counted(before.counts, visits, self.counts),
                walk::visits_told(before.reader, before.chunk_map, *tell, visits),
                forall|k: int| 0 <= k < visits.len() ==> root_visit_ok(#[trigger] visits[k]),
            decreases walk::work(walk.queue(), before.reader.node_size as nat),
        {
            let ghost left = walk.queue();
            let visit = match walk::advance(
                &mut walk,
                &self.reader,
                &self.chunk_map,
                pread,
                tell,
            ) {
                Some(v) => v,
                None => {
                    return Ok(());
                },
            };
            let ghost earlier = visits;
            proof {
                walk::lemma_walk_goes_on(
                    before.reader,
                    before.chunk_map,
                    *pread,
                    root,
                    None,
                    visits,
                    left,
                    visit,
                    walk.queue(),
                );
                walk::lemma_told_on(before.reader, before.chunk_map, *tell, visits, visit);
                visits = visits.push(visit);
                assert(visits.drop_last() =~= earlier);
                assert(visits.last() == visit);
                assert forall|k: int| 0 <= k < visits.len() - 1 implies root_visit_ok(
                    #[trigger] visits[k],
                ) by {
                    assert(visits[k] == earlier[k]);
                }
            }
            let ghost noted = self.counts;
            let taken = self.take_root_visit(&visit);
            proof {
                walk::lemma_counted_on(before.counts, earlier, noted, visit, self.counts);
            }
            match taken {
                Ok(_) => {},
                Err(e) => {
                    assert(stopped(before.counts, visits, self.counts, e));
                    return Err(e);
                },
            }
        }
    }

    /// What ending the walk of the chunk tree comes to: every record inserted,
    /// unless one ends outside the address space, or a data chunk in the map has
    /// a striped profile; the first such record, or entry, is reported.
    pub open spec fn chunks_finished(&self, after: OpenScan, r: Result<(), OpenError>) -> bool {
        &&& after == (OpenScan { chunk_map: after.chunk_map, ..*self })
        &&& match r {
            Ok(_) => {
                &&& chunk::all_inserted(self.chunk_map@, self.records@, after.chunk_map@)
                &&& after.chunk_map.wf()
                &&& forall|i: int|
                    0 <= i < after.chunk_map@.len() ==> !chunk::bad_data_profile(
                        #[trigger] after.chunk_map@[i],
                    )
            },
            Err(OpenError::Profile(p)) => {
                &&& chunk::all_inserted(self.chunk_map@, self.records@, after.chunk_map@)
                &&& after.chunk_map.wf()
                &&& exists|i: int|
                    {
                        &&& 0 <= i < after.chunk_map@.len()
                        &&& chunk::bad_data_profile(#[trigger] after.chunk_map@[i])
                        &&& p.logical == after.chunk_map@[i].begin
                        &&& p.profile == after.chunk_map@[i].ty & chunk::PROFILE_MASK
                        &&& forall|j: int|
                            0 <= j < i ==> !chunk::bad_data_profile(
                                #[trigger] after.chunk_map@[j],
                            )
                    }
            },
            Err(e) => exists|k: int|
                {
                    &&& #[trigger] first_out_of_range(self.records@, k)
                    &&& e == (OpenError::ChunkOutOfRange {
                        logical: self.records@[k].logical,
                    })
                    &&& chunk::all_inserted(
                        self.chunk_map@,
                        self.records@.take(k),
                        after.chunk_map@,
                    )
                },
        }
    }

    /// Ends the walk of the chunk tree: the map now holds every chunk, and data
    /// chunks with striped profiles are refused.
    pub fn finish_chunks(&mut self) -> (r: Result<(), OpenError>)
        requires
            old(self).wf(),
        ensures
            final(self).wf(),
            old(self).chunks_finished(*final(self), r),
    {
        match insert_all(&mut self.chunk_map, &self.records) {
            Ok(_) => {},
            Err(e) => {
                return Err(e);
            },
        }
        match self.chunk_map.validate_data_profiles() {
            Ok(_) => Ok(()),
            Err(p) => Err(OpenError::Profile(p)),
        }
    }

    /// Takes the well-known roots out of one leaf of the root tree.
    pub fn absorb_root_leaf(&mut self, leaf: &Leaf) -> (r: Result<(), OpenError>)
        ensures
            match r {
                Ok(_) => {
                    let n = leaf.slots@.len() as int;
                    &&& all_roots_readable(*leaf, n)
                    &&& *final(self) == (OpenScan {
                        fs_root: root_upto(*leaf, objectid::FS_TREE, old(self).fs_root, n),
                        csum_root: root_upto(*leaf, objectid::CSUM_TREE, old(self).csum_root, n),
                        dev_tree_root: root_upto(
                            *leaf,
                            objectid::DEV_TREE,
                            old(self).dev_tree_root,
                            n,
                        ),
                        extent_tree_root: root_upto(
                            *leaf,
                            objectid::EXTENT_TREE,
                            old(self).extent_tree_root,
                            n,
                        ),
                        ..*old(self)
                    })
                },
                Err(e) => {
                    &&& e == OpenError::ItemOutOfBounds
                    &&& !all_roots_readable(*leaf, leaf.slots@.len() as int)
                    &&& final(self).counts == old(self).counts
                },
            },
    {
        let n: usize = leaf.slots.len();
        let mut i: usize = 0;
        while i < n
            invariant
                i <= n,
                n == leaf.slots@.len(),
                all_roots_readable(*leaf, i as int),
                *self == (OpenScan {
                    fs_root: root_upto(*leaf, objectid::FS_TREE, old(self).fs_root, i as int),
                    csum_root: root_upto(
                        *leaf,
                        objectid::CSUM_TREE,
                        old(self).csum_root,
                        i as int,
                    ),
                    dev_tree_root: root_upto(
                        *leaf,
                        objectid::DEV_TREE,
                        old(self).dev_tree_root,
                        i as int,
                    ),
                    extent_tree_root: root_upto(
                        *leaf,
                        objectid::EXTENT_TREE,
                        old(self).extent_tree_root,
                        i as int,
                    ),
                    ..*old(self)
                }),
            decreases n - i,
        {
            if leaf.slots[i].key.ty == key_type::ROOT_ITEM {
                let data = match leaf.checked_item(i) {
                    Some(d) => d,
                    None => {
                        return Err(OpenError::ItemOutOfBounds);
                    },
                };
                if data.len() < 239 {
                    return Err(OpenError::ItemOutOfBounds);
                }
                let ri = RootItem::parse(data);
                let id: u64 = leaf.slots[i].key.objectid;
                if id == objectid::FS_TREE {
                    self.fs_root = Some(ri.bytenr);
                } else if id == objectid::CSUM_TREE {
                    self.csum_root = Some(ri.bytenr);
                } else if id == objectid::DEV_TREE {
                    self.dev_tree_root = Some(ri.bytenr);
                } else if id == objectid::EXTENT_TREE {
                    self.extent_tree_root = Some(ri.bytenr);
                }
            }
            i = i + 1;
        }
        Ok(())
    }

    /// What ending the walk of the root tree comes to.
    pub open spec fn finished(&self, r: Result<BtrfsContext, OpenError>) -> bool {
        match r {
            Ok(ctx) => {
                &&& self.fs_root == Some(ctx.roots.fs_root)
                &&& self.csum_root == Some(ctx.roots.csum_root)
                &&& ctx.roots.dev_tree_root == self.dev_tree_root
                &&& ctx.roots.extent_tree_root == self.extent_tree_root
                &&& ctx.reader == self.reader
                &&& ctx.chunk_map == self.chunk_map
                &&& ctx.superblock == self.superblock
                &&& ctx.strategy == self.strategy
                &&& ctx.metadata_header_errors == self.counts.header_errors
                &&& ctx.metadata_mirror_mismatches == self.counts.mirror_mismatches
                &&& ctx.metadata_read_errors == self.counts.read_errors
            },
            Err(e) => e == (if self.fs_root is None {
                OpenError::FsTreeNotFound
            } else {
                OpenError::CsumTreeNotFound
            }) && (self.fs_root is None || self.csum_root is None),
        }
    }

    /// Ends the walk of the root tree: the filesystem is open if its file and
    /// checksum trees were found.
    pub fn finish(self) -> (r: Result<BtrfsContext, OpenError>)
        ensures
            self.finished(r),
    {
        let fs_root: u64 = match self.fs_root {
            Some(b) => b,
            None => {
                return Err(OpenError::FsTreeNotFound);
            },
        };
        let csum_root: u64 = match self.csum_root {
            Some(b) => b,
            None => {
                return Err(OpenError::CsumTreeNotFound);
            },
        };
        Ok(
            BtrfsContext {
                reader: self.reader,
                chunk_map: self.chunk_map,
                superblock: self.superblock,
                roots: TreeRoots {
                    fs_root,
                    csum_root,
                    dev_tree_root: self.dev_tree_root,
                    extent_tree_root: self.extent_tree_root,
                },
                strategy: self.strategy,
                metadata_header_errors: self.counts.header_errors,
                metadata_mirror_mismatches: self.counts.mirror_mismatches,
                metadata_read_errors: self.counts.read_errors,
            },
        )
    }
}

/// What opening a filesystem comes to: the checks on the superblock, the walk of
/// the chunk tree, the completed chunk map, and the walk of the root tree, each
/// from what the one before left; the first that fails decides the error.
pub open spec fn opened<P: Fn(u64, usize) -> Option<Vec<u8>>, T: Fn(WalkTell)>(
    superblock: Superblock,
    primary_ok: bool,
    dev_size: u64,
    base_offset: u64,
    pread: P,
    tell: T,
    r: Result<BtrfsContext, OpenError>,
) -> bool {
    ||| exists|e: OpenError| #[trigger]
        begun(superblock, primary_ok, dev_size, base_offset, Err(e)) && r
            == Err::<BtrfsContext, OpenError>(e)
    ||| exists|scan: OpenScan| #[trigger]
        begun(superblock, primary_ok, dev_size, base_offset, Ok(scan)) && opened_from(
            scan,
            pread,
            tell,
            r,
        )
}

/// What opening comes to once the superblock has passed its checks.
pub open spec fn opened_from<P: Fn(u64, usize) -> Option<Vec<u8>>, T: Fn(WalkTell)>(
    scan: OpenScan,
    pread: P,
    tell: T,
    r: Result<BtrfsContext, OpenError>,
) -> bool {
    ||| exists|walked: OpenScan, e: OpenError| #[trigger]
        chunks_read(scan, pread, tell, walked, Err(e)) && r == Err::<BtrfsContext, OpenError>(e)
    ||| exists|walked: OpenScan, mapped: OpenScan, e: OpenError|
        chunks_read(scan, pread, tell, walked, Ok(())) && #[trigger] walked.chunks_finished(
            mapped,
            Err(e),
        ) && r == Err::<BtrfsContext, OpenError>(e)
    ||| exists|walked: OpenScan, mapped: OpenScan|
        chunks_read(scan, pread, tell, walked, Ok(())) && #[trigger] walked.chunks_finished(
            mapped,
            Ok(()),
        ) && rooted_from(mapped, pread, tell, r)
}

/// What opening comes to once the chunk map is complete.
pub open spec fn rooted_from<P: Fn(u64, usize) -> Option<Vec<u8>>, T: Fn(WalkTell)>(
    mapped: OpenScan,
    pread: P,
    tell: T,
    r: Result<BtrfsContext, OpenError>,
) -> bool {
    ||| exists|done: OpenScan, e: OpenError| #[trigger]
        roots_read(mapped, pread, tell, done, Err(e)) && r == Err::<BtrfsContext, OpenError>(e)
    ||| exists|done: OpenScan| #[trigger]
        roots_read(mapped, pread, tell, done, Ok(())) && done.finished(r)
}

/// Assembles the full read context of a filesystem from its superblock: chunk
/// map and tree roots, counting any metadata failures found along the way.
pub fn open<P: Fn(u64, usize) -> Option<Vec<u8>>, T: Fn(WalkTell)>(
    superblock: Superblock,
    primary_ok: bool,
    dev_size: u64,
    base_offset: u64,
    pread: &P,
    tell: &T,
) -> (r: Result<BtrfsContext, OpenError>)
    requires
        superblock.sys_chunks@.len() <= 4096,
        reader::store_ready(*pread, superblock.node_size as usize),
        walk::tells(*tell),
    ensures
        opened(superblock, primary_ok, dev_size, base_offset, *pread, *tell, r),
        r matches Ok(ctx) ==> ctx.wf() && ctx.superblock == superblock && ctx.reader.base_offset
            == base_offset,
{
    let mut scan = match begin(superblock, primary_ok, dev_size, base_offset) {
        Ok(scan) => scan,
        Err(e) => {
            assert(begun(superblock, primary_ok, dev_size, base_offset, Err(e)));
            return Err(e);
        },
    };
    let ghost first = scan;
    assert(begun(superblock, primary_ok, dev_size, base_offset, Ok(first)));
    match scan.walk_chunks(pread, tell) {
        Ok(_) => {},
        Err(e) => {
            assert(chunks_read(first, *pread, *tell, scan, Err(e)));
            return Err(e);
        },
    }
    let ghost walked = scan;
    assert(chunks_read(first, *pread, *tell, walked, Ok(())));
    match scan.finish_chunks() {
        Ok(_) => {},
        Err(e) => {
            assert(walked.chunks_finished(scan, Err(e)));
            return Err(e);
        },
    }
    let ghost mapped = scan;
    assert(walked.chunks_finished(mapped, Ok(())));
    match scan.walk_roots(pread, tell) {
        Ok(_) => {},
        Err(e) => {
            assert(roots_read(mapped, *pread, *tell, scan, Err(e)));
            return Err(e);
        },
    }
    assert(roots_read(mapped, *pread, *tell, scan, Ok(())));
    scan.finish()
}

/// The search of the live root tree for the EXTENT_TREE and CSUM_TREE roots.
#[derive(Debug, Clone, Copy, PartialEq, Eq, Structural)]
pub struct LiveRoots {
    pub extent_root: Option<u64>,
    pub csum_root: Option<u64>,
}

impl LiveRoots {
    pub fn new() -> (r: Self)
        ensures
            r == (LiveRoots { extent_root: None, csum_root: None }),
    {
        LiveRoots { extent_root: None, csum_root: None }
    }

    /// Both roots are known.
    pub open spec fn complete(&self) -> bool {
        self.extent_root is Some && self.csum_root is Some
    }

    /// What is known after the first `k` items of a leaf.
    pub open spec fn upto(&self, leaf: Leaf, k: int) -> LiveRoots {
        LiveRoots {
            extent_root: root_upto(leaf, objectid::EXTENT_TREE, self.extent_root, k),
            csum_root: root_upto(leaf, objectid::CSUM_TREE, self.csum_root, k),
        }
    }

    /// Takes the two roots out of one leaf of the live root tree, stopping at
    /// the item that completes them. Returns whether the walk can stop.
    pub fn absorb(&mut self, leaf: &Leaf) -> (r: Result<bool, OpenError>)
        requires
            !old(self).complete(),
        ensures
            match r {
                Ok(true) => {
                    &&& final(self).complete()
                    &&& exists|k: int|
                        {
                            &&& 0 < k <= leaf.slots@.len()
                            &&& all_roots_readable(*leaf, k)
                            &&& *final(self) == #[trigger] old(self).upto(*leaf, k)
                            &&& !old(self).upto(*leaf, k - 1).complete()
                        }
                },
                Ok(false) => {
                    &&& !final(self).complete()
                    &&& all_roots_readable(*leaf, leaf.slots@.len() as int)
                    &&& *final(self) == old(self).upto(*leaf, leaf.slots@.len() as int)
                },
                Err(e) => e == OpenError::ItemOutOfBounds && !all_roots_readable(
                    *leaf,
                    leaf.slots@.len() as int,
                ),
            },
    {
        let n: usize = leaf.slots.len();
        let mut i: usize = 0;
        assert(*self == old(self).upto(*leaf, 0));
        while i < n
            invariant
                i <= n,
                n == leaf.slots@.len(),
                all_roots_readable(*leaf, i as int),
                *self == old(self).upto(*leaf, i as int),
                !self.complete(),
            decreases n - i,
        {
            if leaf.slots[i].key.ty == key_type::ROOT_ITEM {
                let data = match leaf.checked_item(i) {
                    Some(d) => d,
                    None => {
                        return Err(OpenError::ItemOutOfBounds);
                    },
                };
                if data.len() < 239 {
                    return Err(OpenError::ItemOutOfBounds);
                }
                let ri = RootItem::parse(data);
                let id: u64 = leaf.slots[i].key.objectid;
                if id == objectid::EXTENT_TREE {
                    self.extent_root = Some(ri.bytenr);
                } else if id == objectid::CSUM_TREE {
                    self.csum_root = Some(ri.bytenr);
                }
                assert(*self == old(self).upto(*leaf, i + 1));
                assert(all_roots_readable(*leaf, i + 1));
                if self.extent_root.is_some() && self.csum_root.is_some() {
                    return Ok(true);
                }
            }
            assert(*self == old(self).upto(*leaf, i + 1));
            i = i + 1;
        }
        Ok(false)
    }

    /// The roots, once the walk is over; without both of them nothing can be
    /// re-confirmed, which counts as a header error.
    pub fn finish(&self) -> (r: Option<(u64, u64)>)
        ensures
            r is Some <==> self.complete(),
            r matches Some((extent, csum)) ==> self.extent_root == Some(extent) && self.csum_root
                == Some(csum),
    {
        match (self.extent_root, self.csum_root) {
            (Some(extent), Some(csum)) => Some((extent, csum)),
            _ => None,
        }
    }
}

/// The live EXTENT_TREE and CSUM_TREE roots, where both were found, and the
/// metadata failures met on the way, in order.
#[derive(Debug)]
pub struct LiveRead {
    pub roots: Option<(u64, u64)>,
    pub counted: Vec<MetadataKind>,
}

/// The failures met on these visits, in order. A stale node is skipped, not
/// counted.
pub open spec fn live_failures(visits: Seq<Visit>) -> Seq<MetadataKind>
    decreases visits.len(),
{
    if visits.len() == 0 {
        Seq::empty()
    } else {
        let before = live_failures(visits.drop_last());
        match tree::failure_of(visits.last().step) {
            None => before,
            Some(MetadataKind::StaleBranch) => before,
            Some(kind) => before.push(kind),
        }
    }
}

/// What the leaves visited give for the two roots.
pub open spec fn live_found(visits: Seq<Visit>) -> LiveRoots {
    LiveRoots {
        extent_root: root_found(visits, objectid::EXTENT_TREE, None),
        csum_root: root_found(visits, objectid::CSUM_TREE, None),
    }
}

/// The visit is to the leaf with the item that completes the roots known so far.
pub open spec fn completes(before: LiveRoots, visit: Visit, roots: (u64, u64)) -> bool {
    visit.step matches WalkStep::Leaf { leaf, .. } && exists|k: int|
        {
            &&& 0 < k <= leaf.slots@.len()
            &&& all_roots_readable(leaf, k)
            &&& (#[trigger] before.upto(leaf, k)) == (LiveRoots {
                extent_root: Some(roots.0),
                csum_root: Some(roots.1),
            })
            &&& !before.upto(leaf, k - 1).complete()
        }
}

/// The error for a visit that cannot be used.
pub open spec fn visit_error(visit: Visit) -> OpenError {
    if visit.step is Malformed {
        OpenError::NodeMalformed { logical: visit.logical }
    } else {
        OpenError::ItemOutOfBounds
    }
}

/// What the search of the live root tree comes to. It ends at the item that
/// completes the roots; a walk that ends without them counts as a header error.
pub open spec fn live_searched(
    visits: Seq<Visit>,
    left: Seq<NodeRef>,
    r: Result<LiveRead, OpenError>,
) -> bool {
    match r {
        Ok(read) => match read.roots {
            Some(roots) => {
                &&& visits.len() > 0
                &&& !live_found(visits.drop_last()).complete()
                &&& completes(live_found(visits.drop_last()), visits.last(), roots)
                &&& forall|k: int|
                    0 <= k < visits.len() - 1 ==> root_visit_ok(#[trigger] visits[k])
                &&& read.counted@ == live_failures(visits)
            },
            None => {
                &&& left.len() == 0
                &&& !live_found(visits).complete()
                &&& forall|k: int| 0 <= k < visits.len() ==> root_visit_ok(#[trigger] visits[k])
                &&& read.counted@ == live_failures(visits).push(MetadataKind::HeaderError)
            },
        },
        Err(e) => {
            &&& visits.len() > 0
            &&& !live_found(visits.drop_last()).complete()
            &&& !root_visit_ok(visits.last())
            &&& forall|k: int|
                0 <= k < visits.len() - 1 ==> root_visit_ok(#[trigger] visits[k])
            &&& e == visit_error(visits.last())
        },
    }
}

/// `r` is what the search of the live root tree at `root` gives over the store.
pub open spec fn live_resolved<P: Fn(u64, usize) -> Option<Vec<u8>>, T: Fn(WalkTell)>(
    reader: FsReader,
    chunk_map: ChunkMap,
    pread: P,
    tell: T,
    root: u64,
    r: Result<LiveRead, OpenError>,
) -> bool {
    exists|visits: Seq<Visit>, left: Seq<NodeRef>|
        {
            &&& #[trigger] walk::walked_so_far(
                reader,
                chunk_map,
                pread,
                root,
                None,
                visits,
                left,
            )
            &&& walk::visits_told(reader, chunk_map, tell, visits)
            &&& live_searched(visits, left, r)
        }
}

/// The failure that a step met, as far as the search counts it.
fn live_failure(step: &WalkStep) -> (r: Option<MetadataKind>)
    ensures
        r == (match tree::failure_of(*step) {
            Some(MetadataKind::StaleBranch) => None,
            f => f,
        }),
{
    match step {
        WalkStep::MetadataError => Some(MetadataKind::HeaderError),
        WalkStep::ReadError => Some(MetadataKind::ReadError),
        WalkStep::Leaf { mirror_mismatch: true, .. } => Some(MetadataKind::MirrorMismatch),
        WalkStep::Descended { mirror_mismatch: true, .. } => Some(MetadataKind::MirrorMismatch),
        _ => None,
    }
}

/// Takes in one visit of the live root tree. Returns the roots once both are
/// known.
fn take_live_visit(roots: &mut LiveRoots, visit: &Visit) -> (r: Result<
    Option<(u64, u64)>,
    OpenError,
>)
    requires
        !old(roots).complete(),
    ensures
        match r {
            Ok(Some(found)) => completes(*old(roots), *visit, found),
            Ok(None) => {
                &&& root_visit_ok(*visit)
                &&& !final(roots).complete()
                &&& *final(roots) == (LiveRoots {
                    extent_root: root_taken(
                        *visit,
                        objectid::EXTENT_TREE,
                        old(roots).extent_root,
                    ),
                    csum_root: root_taken(*visit, objectid::CSUM_TREE, old(roots).csum_root),
                })
            },
            Err(e) => !root_visit_ok(*visit) && e == visit_error(*visit),
        },
{
    match &visit.step {
        WalkStep::Malformed => Err(OpenError::NodeMalformed { logical: visit.logical }),
        WalkStep::Leaf { leaf, .. } => match roots.absorb(leaf) {
            Ok(complete) => if complete {
                let found = roots.finish();
                assert(completes(*old(roots), *visit, found.unwrap()));
                Ok(found)
            } else {
                Ok(None)
            },
            Err(e) => Err(e),
        },
        _ => Ok(None),
    }
}

/// Searches the live root tree for the EXTENT_TREE and CSUM_TREE roots, up to
/// the item that completes them.
pub fn resolve_live_tree_roots<P: Fn(u64, usize) -> Option<Vec<u8>>, T: Fn(WalkTell)>(
    reader: &FsReader,
    chunk_map: &ChunkMap,
    pread: &P,
    tell: &T,
    root: u64,
) -> (r: Result<LiveRead, OpenError>)
    requires
        walk::store_set(*reader, *chunk_map, *pread),
        walk::tells(*tell),
    ensures
        live_resolved(*reader, *chunk_map, *pread, *tell, root, r),
{
    let mut roots = LiveRoots::new();
    let mut counted: Vec<MetadataKind> = Vec::new();
    let mut walk = tree::walk_leaves(root);
    let ghost mut visits = Seq::<Visit>::empty();
    proof {
        walk::lemma_walk_starts(*reader, *chunk_map, *pread, root, None);
    }
    loop
        invariant
            walk::store_set(*reader, *chunk_map, *pread),
            walk::tells(*tell),
            walk.bounds() is None,
            walk::walked_so_far(*reader, *chunk_map, *pread, root, None, visits, walk.queue()),
            forall|k: int| 0 <= k < visits.len() ==> root_visit_ok(#[trigger] visits[k]),
            walk::visits_told(*reader, *chunk_map, *tell, visits),
            counted@ == live_failures(visits),
            roots == live_found(visits),
            !roots.complete(),
        decreases walk::work(walk.queue(), reader.node_size as nat),
    {
        let ghost left = walk.queue();
        let visit = match walk::advance(&mut walk, reader, chunk_map, pread, tell) {
            Some(v) => v,
            None => {
                counted.push(MetadataKind::HeaderError);
                return Ok(LiveRead { roots: None, counted });
            },
        };
        let ghost earlier = visits;
        proof {
            walk::lemma_walk_goes_on(
                *reader,
                *chunk_map,
                *pread,
                root,
                None,
                visits,
                left,
                visit,
                walk.queue(),
            );
            walk::lemma_told_on(*reader, *chunk_map, *tell, visits, visit);
            visits = visits.push(visit);
            assert(visits.drop_last() =~= earlier);
            assert(visits.last() == visit);
            assert forall|k: int| 0 <= k < visits.len() - 1 implies root_visit_ok(
                #[trigger] visits[k],
            ) by {
                assert(visits[k] == earlier[k]);
            }
        }
        match live_failure(&visit.step) {
            Some(kind) => {
                counted.push(kind);
            },
            None => {},
        }
        assert(counted@ == live_failures(visits));
        match take_live_visit(&mut roots, &visit) {
            Ok(Some(found)) => {
                return Ok(LiveRead { roots: Some(found), counted });
            },
            Ok(None) => {},
            Err(e) => {
                return Err(e);
            },
        }
    }
}

/// The live EXTENT_TREE and CSUM_TREE roots under the live superblock: what
/// write-time re-confirmation walks. A superblock that could not be read counts
/// as a read error and gives none.
pub fn live_data_tree_roots<P: Fn(u64, usize) -> Option<Vec<u8>>, T: Fn(WalkTell)>(
    reader: &FsReader,
    chunk_map: &ChunkMap,
    pread: &P,
    tell: &T,
    superblock: Option<&Superblock>,
) -> (r: Result<LiveRead, OpenError>)
    requires
        walk::store_set(*reader, *chunk_map, *pread),
        walk::tells(*tell),
    ensures
        live_roots_read(*reader, *chunk_map, *pread, *tell, superblock, r),
{
    match superblock {
        Some(sb) => resolve_live_tree_roots(reader, chunk_map, pread, tell, sb.root),
        None => {
            let mut counted: Vec<MetadataKind> = Vec::new();
            counted.push(MetadataKind::ReadError);
            assert(counted@ =~= seq![MetadataKind::ReadError]);
            Ok(LiveRead { roots: None, counted })
        },
    }
}

/// `r` are the live roots under the superblock.
pub open spec fn live_roots_read<P: Fn(u64, usize) -> Option<Vec<u8>>, T: Fn(WalkTell)>(
    reader: FsReader,
    chunk_map: ChunkMap,
    pread: P,
    tell: T,
    superblock: Option<&Superblock>,
    r: Result<LiveRead, OpenError>,
) -> bool {
    match superblock {
        Some(sb) => live_resolved(reader, chunk_map, pread, tell, sb.root, r),
        None => r matches Ok(read) && read.roots is None && read.counted@
            == seq![MetadataKind::ReadError],
    }
}

} // verus!
