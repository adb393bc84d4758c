//! Dev-extent parsing: enumerates a device's extents from the dev tree, mapping
//! physical device ranges to the logical chunks they back.

use vstd::prelude::*;

use crate::btrfs::chunk::ChunkMap;
use crate::btrfs::key::key_type;
use crate::btrfs::node::Leaf;
use crate::btrfs::reader::FsReader;
use crate::btrfs::tree;
use crate::btrfs::tree::{NodeRef, WalkCounts, WalkStep};
use crate::btrfs::util;
use crate::btrfs::walk;
use crate::btrfs::walk::{Visit, WalkTell};

verus! {

/// A dev extent: a contiguous run of physical space on one device backing part
/// of a chunk. The physical address of logical address L is
/// `phys_start + (L - chunk_offset)`.
#[derive(Debug, Clone, Copy, PartialEq, Eq, Structural)]
pub struct DevExtent {
    pub devid: u64,
    pub phys_start: u64,
    pub length: u64,
    pub chunk_offset: u64,
}

/// Why the dev tree could not be used.
#[derive(Debug, Clone, Copy, PartialEq, Eq, Structural)]
pub enum DevExtentError {
    /// A DEV_EXTENT item is shorter than its fields.
    TooShort { len: usize },
    /// An item runs past its leaf.
    OutOfBounds,
    /// A node announces more items than it has room for.
    NodeMalformed { logical: u64 },
    /// The metadata failures do not fit in a counter.
    TooManyFailures,
}

/// Item `i` is an extent of this device: the dev tree holds those of every
/// device, under keys (devid, DEV_EXTENT_KEY, physical start).
pub open spec fn is_extent_of(leaf: Leaf, i: int, devid: u64) -> bool {
    leaf.slots@[i].key.ty == key_type::DEV_EXTENT_KEY && leaf.slots@[i].key.objectid == devid
}

/// Item `i` can be read.
pub open spec fn extent_readable(leaf: Leaf, i: int) -> bool {
    leaf.item_in_bounds(i) && leaf.item(i).len() >= 32
}

/// The extent in item `i`: chunk offset at byte 16, length at byte 24; the
/// physical start comes from the key's offset.
pub open spec fn extent_at(leaf: Leaf, i: int, devid: u64) -> DevExtent {
    DevExtent {
        devid,
        phys_start: leaf.slots@[i].key.offset,
        length: util::le64(leaf.item(i), 24),
        chunk_offset: util::le64(leaf.item(i), 16),
    }
}

/// This device's extents among the first `k` items.
pub open spec fn extents_upto(leaf: Leaf, devid: u64, k: int) -> Seq<DevExtent>
    decreases k,
{
    if k <= 0 {
        Seq::empty()
    } else if is_extent_of(leaf, k - 1, devid) {
        extents_upto(leaf, devid, k - 1).push(extent_at(leaf, k - 1, devid))
    } else {
        extents_upto(leaf, devid, k - 1)
    }
}

/// Every extent of this device in the leaf can be read.
pub open spec fn extents_readable(leaf: Leaf, devid: u64) -> bool {
    forall|i: int|
        0 <= i < leaf.slots@.len() && #[trigger] is_extent_of(leaf, i, devid) ==> extent_readable(
            leaf,
            i,
        )
}

/// `e` says why the first extent of this device that cannot be read is so.
pub open spec fn unreadable_extent(leaf: Leaf, devid: u64, e: DevExtentError) -> bool {
    exists|i: int|
        {
            &&& 0 <= i < leaf.slots@.len()
            &&& #[trigger] is_extent_of(leaf, i, devid)
            &&& !extent_readable(leaf, i)
            &&& forall|j: int|
                0 <= j < i && is_extent_of(leaf, j, devid) ==> extent_readable(leaf, j)
            &&& e == (if leaf.item_in_bounds(i) {
                DevExtentError::TooShort { len: leaf.item(i).len() as usize }
            } else {
                DevExtentError::OutOfBounds
            })
        }
}

/// Adds every DEV_EXTENT item for `devid` in one leaf of the dev tree.
pub fn absorb_dev_leaf(leaf: &Leaf, devid: u64, out: &mut Vec<DevExtent>) -> (r: Result<
    (),
    DevExtentError,
>)
    ensures
        match r {
            Ok(_) => {
                &&& extents_readable(*leaf, devid)
                &&& final(out)@ == old(out)@ + extents_upto(
                    *leaf,
                    devid,
                    leaf.slots@.len() as int,
                )
            },
            Err(e) => unreadable_extent(*leaf, devid, e),
        },
{
    let n: usize = leaf.slots.len();
    let mut i: usize = 0;
    assert(out@ =~= old(out)@ + extents_upto(*leaf, devid, 0));
    while i < n
        invariant
            i <= n,
            n == leaf.slots@.len(),
            forall|j: int|
                0 <= j < i && is_extent_of(*leaf, j, devid) ==> extent_readable(*leaf, j),
            out@ == old(out)@ + extents_upto(*leaf, devid, i as int),
        decreases n - i,
    {
        let slot = leaf.slots[i];
        if slot.key.ty == key_type::DEV_EXTENT_KEY && slot.key.objectid == devid {
            assert(is_extent_of(*leaf, i as int, devid));
            let data = match leaf.checked_item(i) {
                Some(d) => d,
                None => {
                    return Err(DevExtentError::OutOfBounds);
                },
            };
            if data.len() < 32 {
                return Err(DevExtentError::TooShort { len: data.len() });
            }
            out.push(
                DevExtent {
                    devid,
                    phys_start: slot.key.offset,
                    length: util::le_u64(data, 24),
                    chunk_offset: util::le_u64(data, 16),
                },
            );
        }
        i = i + 1;
        assert(out@ =~= old(out)@ + extents_upto(*leaf, devid, i as int));
    }
    Ok(())
}

/// The extents of this device in the leaves visited, in order.
pub open spec fn visit_extents(visits: Seq<Visit>, devid: u64) -> Seq<DevExtent>
    decreases visits.len(),
{
    if visits.len() == 0 {
        Seq::empty()
    } else {
        let before = visit_extents(visits.drop_last(), devid);
        match visits.last().step {
            WalkStep::Leaf { leaf, .. } => before + extents_upto(
                leaf,
                devid,
                leaf.slots@.len() as int,
            ),
            _ => before,
        }
    }
}

/// The node visited has room for what it announces, and the extents of this
/// device in a leaf can be read.
pub open spec fn extent_visit_ok(visit: Visit, devid: u64) -> bool {
    match visit.step {
        WalkStep::Malformed => false,
        WalkStep::Leaf { leaf, .. } => extents_readable(leaf, devid),
        _ => true,
    }
}

/// What walking the dev tree comes to: this device's extents in every leaf, and
/// all failures counted; or the walk stops at a node that cannot be used.
pub open spec fn extents_walked(
    visits: Seq<Visit>,
    left: Seq<NodeRef>,
    devid: u64,
    before: WalkCounts,
    after: WalkCounts,
    r: Result<Vec<DevExtent>, DevExtentError>,
) -> bool {
    match r {
        Ok(extents) => {
            &&& left.len() == 0
            &&& forall|k: int|
                0 <= k < visits.len() ==> extent_visit_ok(#[trigger] visits[k], devid)
            &&& walk::counted(before, visits, after)
            &&& extents@ == visit_extents(visits, devid)
        },
        Err(e) => {
            &&& visits.len() > 0
            &&& forall|k: int|
                0 <= k < visits.len() - 1 ==> extent_visit_ok(#[trigger] visits[k], devid)
            &&& match e {
                DevExtentError::TooManyFailures => {
                    &&& walk::counted(before, visits.drop_last(), after)
                    &&& !after.has_room()
                },
                DevExtentError::NodeMalformed { logical } => {
                    &&& walk::counted(before, visits, after)
                    &&& visits.last().step is Malformed
                    &&& visits.last().logical == logical
                },
                _ => {
                    &&& walk::counted(before, visits, after)
                    &&& visits.last().step matches WalkStep::Leaf { leaf, .. }
                        && unreadable_extent(leaf, devid, e)
                },
            }
        },
    }
}

/// `r` is what walking the dev tree at `root` over the store gives.
pub open spec fn extents_read<P: Fn(u64, usize) -> Option<Vec<u8>>, T: Fn(WalkTell)>(
    reader: FsReader,
    chunk_map: ChunkMap,
    pread: P,
    tell: T,
    root: u64,
    devid: u64,
    before: WalkCounts,
    after: WalkCounts,
    r: Result<Vec<DevExtent>, DevExtentError>,
) -> bool {
    exists|visits: Seq<Visit>, left: Seq<NodeRef>|
        {
            &&& #[trigger] walk::walked_so_far(
                reader,
                chunk_map,
                pread,
                root,
                None,
                visits,
                left,
            )
            &&& walk::visits_told(reader, chunk_map, tell, visits)
            &&& extents_walked(visits, left, devid, before, after, r)
        }
}

/// Walks the dev tree over the store and collects every DEV_EXTENT item for
/// `devid`, counting the metadata failures met on the way.
pub fn build_dev_extents<P: Fn(u64, usize) -> Option<Vec<u8>>, T: Fn(WalkTell)>(
    reader: &FsReader,
    chunk_map: &ChunkMap,
    pread: &P,
    tell: &T,
    root: u64,
    devid: u64,
    counts: &mut WalkCounts,
) -> (r: Result<Vec<DevExtent>, DevExtentError>)
    requires
        walk::store_set(*reader, *chunk_map, *pread),
        walk::tells(*tell),
    ensures
        extents_read(
            *reader,
            *chunk_map,
            *pread,
            *tell,
            root,
            devid,
            *old(counts),
            *final(counts),
            r,
        ),
{
    let mut extents: Vec<DevExtent> = Vec::new();
    let mut walk = tree::walk_leaves(root);
    let ghost mut visits = Seq::<Visit>::empty();
    proof {
        walk::lemma_walk_starts(*reader, *chunk_map, *pread, root, None);
    }
    loop
        invariant
            walk::store_set(*reader, *chunk_map, *pread),
            walk::tells(*tell),
            walk.bounds() is None,
            walk::walked_so_far(*reader, *chunk_map, *pread, root, None, visits, walk.queue()),
            forall|k: int|
                0 <= k < visits.len() ==> extent_visit_ok(#[trigger] visits[k], devid),
            walk::visits_told(*reader, *chunk_map, *tell, visits),
            walk::counted(*old(counts), visits, *counts),
            extents@ == visit_extents(visits, devid),
        decreases walk::work(walk.queue(), reader.node_size as nat),
    {
        let ghost left = walk.queue();
        let visit = match walk::advance(&mut walk, reader, chunk_map, pread, tell) {
            Some(v) => v,
            None => {
                return Ok(extents);
            },
        };
        let ghost earlier = visits;
        proof {
            walk::lemma_walk_goes_on(
                *reader,
                *chunk_map,
                *pread,
                root,
                None,
                visits,
                left,
                visit,
                walk.queue(),
            );
            walk::lemma_told_on(*reader, *chunk_map, *tell, visits, visit);
            visits = visits.push(visit);
            assert(visits.drop_last() =~= earlier);
            assert(visits.last() == visit);
            assert forall|k: int| 0 <= k < visits.len() - 1 implies extent_visit_ok(
                #[trigger] visits[k],
                devid,
            ) by {
                assert(visits[k] == earlier[k]);
            }
        }
        if !counts.room() {
            return Err(DevExtentError::TooManyFailures);
        }
        counts.note(&visit.step);
        assert(walk::counted(*old(counts), visits, *counts));
        match &visit.step {
            WalkStep::Malformed => {
                return Err(DevExtentError::NodeMalformed { logical: visit.logical });
            },
            WalkStep::Leaf { leaf, .. } => {
                match absorb_dev_leaf(leaf, devid, &mut extents) {
                    Ok(_) => {},
                    Err(e) => {
                        return Err(e);
                    },
                }
            },
            _ => {},
        }
    }
}

} // verus!
