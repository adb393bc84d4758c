//! Live extent- and csum-tree lookups that re-classify mismatched sectors at
//! write time.

use vstd::prelude::*;
use vstd::slice::slice_to_vec;

use crate::btrfs::chunk::ChunkMap;
use crate::btrfs::key;
use crate::btrfs::key::key_type;
use crate::btrfs::key::objectid;
use crate::btrfs::key::{Key, KeyPtr};
use crate::btrfs::node::{Leaf, LeafItemSlot, Node};
use crate::btrfs::reader::{FsReader, ReadError, ReadNodeResult, GEN_DONT_CHECK};
use crate::btrfs::reader;
use crate::btrfs::util;
use crate::btrfs::walk;
use crate::bytes;
use crate::fs::Reconfirm;

pub mod covering;
pub mod extent_flag;

verus! {

pub const TYPE_INLINE: u8 = 0;

/// On-disk EXTENT_DATA extent of one inode.
#[derive(Debug, Clone, Copy, PartialEq, Eq, Structural)]
pub struct FileExtent {
    pub inode: u64,
    pub file_offset: u64,
    /// EXTENT_DATA type code (0 = inline, 1 = regular, 2 = prealloc).
    pub extent_type: u8,
    /// Logical address of the extent's data on disk.
    pub disk_bytenr: u64,
    /// Allocated on-disk size (may exceed `num_bytes`).
    pub disk_num_bytes: u64,
    /// Byte offset into the disk extent where the file data starts.
    pub offset: u64,
    /// Number of file bytes this extent covers.
    pub num_bytes: u64,
}

/// The item holds a whole regular or prealloc extent.
pub open spec fn is_disk_extent(buf: Seq<u8>) -> bool {
    buf.len() >= 53 && buf[20] != TYPE_INLINE
}

/// The extent stored in an EXTENT_DATA item.
pub open spec fn file_extent_at(buf: Seq<u8>, inode: u64, file_offset: u64) -> FileExtent {
    FileExtent {
        inode,
        file_offset,
        extent_type: buf[20],
        disk_bytenr: util::le64(buf, 21),
        disk_num_bytes: util::le64(buf, 29),
        offset: util::le64(buf, 37),
        num_bytes: util::le64(buf, 45),
    }
}

impl FileExtent {
    /// Parses a regular or prealloc extent; inline extents (data carried in the
    /// item itself) and short items give None.
    pub fn parse(buf: &[u8], inode: u64, file_offset: u64) -> (r: Option<Self>)
        ensures
            r is Some <==> is_disk_extent(buf@),
            r matches Some(e) ==> e == file_extent_at(buf@, inode, file_offset),
    {
        if buf.len() < 21 {
            return None;
        }
        let extent_type: u8 = buf[20];
        if extent_type == TYPE_INLINE {
            return None;
        }
        if buf.len() < 53 {
            return None;
        }
        Some(
            FileExtent {
                inode,
                file_offset,
                extent_type,
                disk_bytenr: util::le_u64(buf, 21),
                disk_num_bytes: util::le_u64(buf, 29),
                offset: util::le_u64(buf, 37),
                num_bytes: util::le_u64(buf, 45),
            },
        )
    }

    /// Logical address where the file data physically begins.
    pub fn disk_start(&self) -> (r: u64)
        requires
            self.disk_bytenr + self.offset <= u64::MAX,
        ensures
            r == self.disk_bytenr + self.offset,
    {
        self.disk_bytenr + self.offset
    }
}

/// What the extent tree says of a logical address.
#[derive(Debug, Clone, Copy, PartialEq, Eq, Structural)]
pub enum ExtentLive {
    /// A checksummed extent covers it.
    Live,
    /// No extent covers it.
    Hole,
    /// The covering extent was written without checksums.
    NoDataSum,
    /// The tree could not be read.
    Unreadable,
}

/// What the checksum tree says of a sector.
#[derive(Debug)]
pub enum CsumLive {
    /// The sector's checksum.
    Present(Vec<u8>),
    /// The sector has none.
    Absent,
    /// The tree could not be read.
    Unreadable,
}

/// One step of a descent for a key.
#[derive(Debug)]
pub enum Lookup<T> {
    /// The answer lies under this node.
    Descend(u64),
    Found(T),
    /// An item runs past its leaf.
    OutOfBounds,
}

/// What one node of the extent tree says of the extent covering an address.
#[derive(Debug)]
pub enum ExtentLookup {
    /// The covering item can stand only under these children, in key order, or
    /// in what comes before the node.
    Under(Vec<u64>),
    Found(ExtentLive),
    /// An item runs past its leaf.
    OutOfBounds,
}

/// `n` keys lead, all at or before `target`; the next one is after it.
pub open spec fn leads(keys: Seq<Key>, target: Key, n: int) -> bool {
    &&& 0 <= n <= keys.len()
    &&& forall|i: int| 0 <= i < n ==> key::key_le(#[trigger] keys[i], target)
    &&& n < keys.len() ==> !key::key_le(keys[n], target)
}

/// The keys of child pointers.
pub open spec fn ptr_keys(ptrs: Seq<KeyPtr>) -> Seq<Key> {
    Seq::new(ptrs.len(), |i: int| ptrs[i].key)
}

/// The keys of item slots.
pub open spec fn slot_keys(slots: Seq<LeafItemSlot>) -> Seq<Key> {
    Seq::new(slots.len(), |i: int| slots[i].key)
}

/// How many leading child pointers come at or before `target`.
fn count_ptrs(ptrs: &Vec<KeyPtr>, target: &Key) -> (n: usize)
    ensures
        leads(ptr_keys(ptrs@), *target, n as int),
{
    let len: usize = ptrs.len();
    let mut n: usize = 0;
    while n < len && ptrs[n].key.leq(target)
        invariant
            n <= len,
            len == ptrs@.len(),
            forall|i: int| 0 <= i < n ==> key::key_le(#[trigger] ptr_keys(ptrs@)[i], *target),
        decreases len - n,
    {
        n = n + 1;
    }
    n
}

/// How many leading item slots come at or before `target`.
fn count_slots(slots: &Vec<LeafItemSlot>, target: &Key) -> (n: usize)
    ensures
        leads(slot_keys(slots@), *target, n as int),
{
    let len: usize = slots.len();
    let mut n: usize = 0;
    while n < len && slots[n].key.leq(target)
        invariant
            n <= len,
            len == slots@.len(),
            forall|i: int| 0 <= i < n ==> key::key_le(#[trigger] slot_keys(slots@)[i], *target),
        decreases len - n,
    {
        n = n + 1;
    }
    n
}

/// At most one count leads.
pub proof fn law_lead_is_unique(keys: Seq<Key>, target: Key, m: int, n: int)
    requires
        leads(keys, target, m),
        leads(keys, target, n),
    ensures
        m == n,
{
    if m < n {
        assert(key::key_le(keys[m], target));
    } else if n < m {
        assert(key::key_le(keys[n], target));
    }
}

/// The key at or before which the covering EXTENT_ITEM stands.
pub open spec fn extent_target(logical: u64) -> Key {
    Key { objectid: logical, ty: key_type::EXTENT_ITEM, offset: u64::MAX }
}

/// Among the first `n` items, `i` is the last EXTENT_ITEM.
pub open spec fn last_extent_item(leaf: Leaf, n: int, i: int) -> bool {
    &&& 0 <= i < n
    &&& leaf.slots@[i].key.ty == key_type::EXTENT_ITEM
    &&& forall|j: int| i < j < n ==> (#[trigger] leaf.slots@[j]).key.ty != key_type::EXTENT_ITEM
}

/// There is no EXTENT_ITEM among the first `n` items.
pub open spec fn no_extent_item(leaf: Leaf, n: int) -> bool {
    forall|j: int| 0 <= j < n ==> (#[trigger] leaf.slots@[j]).key.ty != key_type::EXTENT_ITEM
}

/// The item's flags (bytes 16..24 of its data) carry NODATASUM.
pub open spec fn nodatasum(leaf: Leaf, i: int) -> bool {
    leaf.item(i).len() >= 24 && util::le64(leaf.item(i), 16) & extent_flag::NODATASUM != 0
}

/// Where the first `n` children lie.
pub open spec fn leading_children(ptrs: Seq<KeyPtr>, n: int) -> Seq<u64> {
    Seq::new(n as nat, |i: int| ptrs[i].blockptr)
}

/// What item `i` of a leaf says of the address at or after it: whether it
/// reaches it, and with checksums.
pub open spec fn item_answer(leaf: Leaf, i: int, logical: u64) -> ExtentLookup {
    if leaf.slots@[i].key.objectid + leaf.slots@[i].key.offset <= logical {
        ExtentLookup::Found(ExtentLive::Hole)
    } else if !leaf.item_in_bounds(i) {
        ExtentLookup::OutOfBounds
    } else if nodatasum(leaf, i) {
        ExtentLookup::Found(ExtentLive::NoDataSum)
    } else {
        ExtentLookup::Found(ExtentLive::Live)
    }
}

/// What a node says of the extent covering `logical`: an internal node, the
/// children whose keys are at or before the address; a leaf, what its last
/// EXTENT_ITEM at or before the address says, or that it has none (back
/// references and other items may fill it).
pub open spec fn extent_answer(node: Node, logical: u64, r: ExtentLookup) -> bool {
    match node {
        Node::Internal(internal) => exists|n: int|
            {
                &&& #[trigger] leads(ptr_keys(internal.ptrs@), extent_target(logical), n)
                &&& r matches ExtentLookup::Under(c) && c@ == leading_children(internal.ptrs@, n)
            },
        Node::Leaf(leaf) => exists|n: int|
            {
                &&& #[trigger] leads(slot_keys(leaf.slots@), extent_target(logical), n)
                &&& if no_extent_item(leaf, n) {
                    r matches ExtentLookup::Under(c) && c@.len() == 0
                } else {
                    exists|i: int| #[trigger]
                        last_extent_item(leaf, n, i) && r == item_answer(leaf, i, logical)
                }
            },
    }
}

/// Looks for the EXTENT_ITEM covering `logical` in one node of the extent tree.
pub fn extent_covers(node: &Node, logical: u64) -> (r: ExtentLookup)
    ensures
        extent_answer(*node, logical, r),
{
    let target = Key::new(logical, key_type::EXTENT_ITEM, u64::MAX);
    match node {
        Node::Internal(internal) => {
            let count: usize = count_ptrs(&internal.ptrs, &target);
            assert(leads(ptr_keys(internal.ptrs@), extent_target(logical), count as int));
            let mut children: Vec<u64> = Vec::new();
            let mut k: usize = 0;
            while k < count
                invariant
                    k <= count,
                    count <= internal.ptrs@.len(),
                    children@ == leading_children(internal.ptrs@, k as int),
                decreases count - k,
            {
                children.push(internal.ptrs[k].blockptr);
                k = k + 1;
            }
            ExtentLookup::Under(children)
        },
        Node::Leaf(leaf) => {
            let count: usize = count_slots(&leaf.slots, &target);
            assert(leads(slot_keys(leaf.slots@), extent_target(logical), count as int));
            let mut i: usize = count;
            while i > 0 && leaf.slots[i - 1].key.ty != key_type::EXTENT_ITEM
                invariant
                    i <= count,
                    count <= leaf.slots@.len(),
                    forall|j: int|
                        i <= j < count ==> (#[trigger] leaf.slots@[j]).key.ty
                            != key_type::EXTENT_ITEM,
                decreases i,
            {
                i = i - 1;
            }
            if i == 0 {
                assert(no_extent_item(*leaf, count as int));
                return ExtentLookup::Under(Vec::new());
            }
            let idx: usize = i - 1;
            proof {
                assert(last_extent_item(*leaf, count as int, idx as int));
                assert(!no_extent_item(*leaf, count as int)) by {
                    assert(leaf.slots@[idx as int].key.ty == key_type::EXTENT_ITEM);
                }
            }
            let start: u64 = leaf.slots[idx].key.objectid;
            let len: u64 = leaf.slots[idx].key.offset;
            let ends_before = match start.checked_add(len) {
                Some(end) => end <= logical,
                None => false,
            };
            if ends_before {
                return ExtentLookup::Found(ExtentLive::Hole);
            }
            match extent_is_nodatasum(leaf, idx) {
                None => ExtentLookup::OutOfBounds,
                Some(true) => ExtentLookup::Found(ExtentLive::NoDataSum),
                Some(false) => ExtentLookup::Found(ExtentLive::Live),
            }
        },
    }
}

/// Whether the extent item's flags carry NODATASUM; `None` where the item runs
/// past its leaf.
fn extent_is_nodatasum(leaf: &Leaf, slot_idx: usize) -> (r: Option<bool>)
    requires
        slot_idx < leaf.slots@.len(),
    ensures
        r is Some <==> leaf.item_in_bounds(slot_idx as int),
        r matches Some(b) ==> b == nodatasum(*leaf, slot_idx as int),
{
    match leaf.checked_item(slot_idx) {
        None => None,
        Some(data) => {
            if data.len() < 24 {
                return Some(false);
            }
            let flags: u64 = util::le_u64(data, 16);
            Some(flags & extent_flag::NODATASUM != 0)
        },
    }
}

/// The address of the sector containing `logical`.
pub open spec fn sector_of(logical: u64, sector_size: u64) -> int {
    (logical as int / sector_size as int) * sector_size as int
}

/// The key at or before which the EXTENT_CSUM item of a sector stands.
pub open spec fn csum_target(sector: u64) -> Key {
    Key {
        objectid: objectid::EXTENT_CSUM_OBJECTID,
        ty: key_type::EXTENT_CSUM,
        offset: sector,
    }
}

/// The run of checksums in item `i` has one for `sector`.
pub open spec fn run_covers(
    leaf: Leaf,
    i: int,
    sector: u64,
    hash_len: usize,
    sector_size: u64,
) -> bool {
    let run_start = leaf.slots@[i].key.offset;
    &&& leaf.item(i).len() as int % hash_len as int == 0
    &&& run_start <= sector
    &&& (sector - run_start) / (sector_size as int) < leaf.item(i).len() as int / (hash_len as int)
}

/// The checksum of `sector` in the run of item `i`.
pub open spec fn run_csum(
    leaf: Leaf,
    i: int,
    sector: u64,
    hash_len: usize,
    sector_size: u64,
) -> Seq<u8> {
    let idx = (sector - leaf.slots@[i].key.offset) / sector_size as int;
    leaf.item(i).subrange(idx * hash_len, idx * hash_len + hash_len)
}

/// What a node of the checksum tree says of a sector: an internal node, the
/// child to descend into, or none where the sector comes before the first key; a
/// leaf, the checksum in the last item at or before the sector, if its run
/// covers it.
pub open spec fn csum_answer(
    node: Node,
    logical: u64,
    hash_len: usize,
    sector_size: u64,
    r: Lookup<CsumLive>,
) -> bool {
    let sector = sector_of(logical, sector_size) as u64;
    match node {
        Node::Internal(internal) => exists|n: int|
            {
                &&& #[trigger] leads(ptr_keys(internal.ptrs@), csum_target(sector), n)
                &&& r == (if n == 0 {
                    Lookup::Found(CsumLive::Absent)
                } else {
                    Lookup::Descend(internal.ptrs@[n - 1].blockptr)
                })
            },
        Node::Leaf(leaf) => exists|n: int|
            {
                &&& #[trigger] leads(slot_keys(leaf.slots@), csum_target(sector), n)
                &&& if n == 0 || leaf.slots@[n - 1].key.ty != key_type::EXTENT_CSUM {
                    r == Lookup::Found(CsumLive::Absent)
                } else if !leaf.item_in_bounds(n - 1) {
                    r is OutOfBounds
                } else if run_covers(leaf, n - 1, sector, hash_len, sector_size) {
                    r matches Lookup::Found(CsumLive::Present(c)) && c@ == run_csum(
                        leaf,
                        n - 1,
                        sector,
                        hash_len,
                        sector_size,
                    )
                } else {
                    r == Lookup::Found(CsumLive::Absent)
                }
            },
    }
}

/// Looks for the live checksum of the sector containing `logical` in one node of
/// the CSUM_TREE.
pub fn csum_at(node: &Node, logical: u64, hash_len: usize, sector_size: u64) -> (r: Lookup<
    CsumLive,
>)
    requires
        hash_len > 0,
        sector_size > 0,
    ensures
        csum_answer(*node, logical, hash_len, sector_size, r),
{
    assert(0 <= sector_of(logical, sector_size) <= logical) by (nonlinear_arith)
        requires
            sector_size > 0,
            sector_of(logical, sector_size) == (logical as int / sector_size as int)
                * sector_size as int,
    ;
    let sector: u64 = (logical / sector_size) * sector_size;
    let target = Key::new(objectid::EXTENT_CSUM_OBJECTID, key_type::EXTENT_CSUM, sector);
    match node {
        Node::Internal(internal) => {
            let count: usize = count_ptrs(&internal.ptrs, &target);
            assert(leads(ptr_keys(internal.ptrs@), csum_target(sector), count as int));
            if count == 0 {
                Lookup::Found(CsumLive::Absent)
            } else {
                Lookup::Descend(internal.ptrs[count - 1].blockptr)
            }
        },
        Node::Leaf(leaf) => {
            let count: usize = count_slots(&leaf.slots, &target);
            assert(leads(slot_keys(leaf.slots@), csum_target(sector), count as int));
            if count == 0 {
                return Lookup::Found(CsumLive::Absent);
            }
            let i: usize = count - 1;
            if leaf.slots[i].key.ty != key_type::EXTENT_CSUM {
                return Lookup::Found(CsumLive::Absent);
            }
            let run_start: u64 = leaf.slots[i].key.offset;
            let data = match leaf.checked_item(i) {
                Some(d) => d,
                None => {
                    return Lookup::OutOfBounds;
                },
            };
            if data.len() % hash_len != 0 || sector < run_start {
                return Lookup::Found(CsumLive::Absent);
            }
            let n: usize = data.len() / hash_len;
            let idx: u64 = (sector - run_start) / sector_size;
            if idx >= n as u64 {
                return Lookup::Found(CsumLive::Absent);
            }
            assert((idx + 1) * hash_len <= data@.len()) by (nonlinear_arith)
                requires
                    idx < n,
                    n == data@.len() as int / hash_len as int,
                    hash_len > 0,
            ;
            assert(idx * hash_len + hash_len == (idx + 1) * hash_len) by (nonlinear_arith);
            let base: usize = (idx as usize) * hash_len;
            let csum = bytes::copy_range(data, base, base + hash_len);
            assert(csum@ == run_csum(*leaf, i as int, sector, hash_len, sector_size));
            Lookup::Found(CsumLive::Present(csum))
        },
    }
}

/// Most nodes read in one descent.
pub const MAX_DESCENT: usize = 16;

/// A branch of the extent tree: its topmost node, and how many nodes lie above
/// that.
#[derive(Debug, Clone, Copy, PartialEq, Eq, Structural)]
pub struct Branch {
    pub node: u64,
    pub depth: usize,
}

/// The branches under a node's children.
pub open spec fn branches(children: Seq<u64>, depth: int) -> Seq<Branch> {
    Seq::new(children.len(), |i: int| Branch { node: children[i], depth: depth as usize })
}

/// Where the search for the covering extent goes on when these branches are
/// left: the covering item is the last one, so the last branch comes first.
/// Where none is left, no extent covers the address; a branch too deep to be
/// read leaves that open.
pub open spec fn goes_on(left: Seq<Branch>) -> Phase {
    if left.len() == 0 {
        Phase::Done(Reconfirm::Stale)
    } else if left.last().depth < 16 {
        Phase::Extent { node: left.last().node, depth: left.last().depth }
    } else {
        Phase::Done(Reconfirm::Unverifiable)
    }
}

/// What is left of the branches when the last one is taken up.
pub open spec fn without_last(left: Seq<Branch>) -> Seq<Branch> {
    if left.len() == 0 {
        left
    } else {
        left.drop_last()
    }
}

/// The node is a leaf, or has at most `b` children.
pub open spec fn within(node: Option<Node>, b: nat) -> bool {
    node matches Some(Node::Internal(internal)) ==> internal.ptrs@.len() <= b
}

/// How many nodes a search under one node can read, with at most `b` children
/// to a node.
pub open spec fn weight(depth: int, b: nat) -> nat
    decreases 16 - depth,
{
    if depth >= 16 {
        1
    } else {
        1 + b * weight(depth + 1, b)
    }
}

/// How many nodes a search under these branches can read.
pub open spec fn load(left: Seq<Branch>, b: nat) -> nat
    decreases left.len(),
{
    if left.len() == 0 {
        0
    } else {
        load(left.drop_last(), b) + weight(left.last().depth as int, b)
    }
}

proof fn lemma_load_adds(left: Seq<Branch>, children: Seq<u64>, depth: int, b: nat)
    requires
        0 <= depth <= 16,
    ensures
        load(left + branches(children, depth), b) == load(left, b) + children.len() * weight(
            depth,
            b,
        ),
    decreases children.len(),
{
    let all = left + branches(children, depth);
    let n = children.len();
    let w = weight(depth, b);
    if n == 0 {
        assert(all == left);
        assert(0 * w == 0) by (nonlinear_arith);
    } else {
        lemma_load_adds(left, children.drop_last(), depth, b);
        assert(all.drop_last() == left + branches(children.drop_last(), depth));
        assert(all.last().depth == depth);
        assert(n * w == (n - 1) * w + w) by (nonlinear_arith);
    }
}

/// Where a re-confirmation stands.
#[derive(Debug, Clone, Copy, PartialEq, Eq, Structural)]
pub enum Phase {
    /// Searching the extent tree: the node wanted next, and how many lie above
    /// it.
    Extent { node: u64, depth: usize },
    /// Descending the checksum tree.
    Csum { node: u64, depth: usize },
    /// Settled.
    Done(Reconfirm),
    /// An item runs past its leaf.
    OutOfBounds,
}

/// The re-check of one mismatched sector against live metadata. It asks for
/// nodes one at a time.
#[derive(Debug)]
pub struct ReconfirmWalk {
    pub phase: Phase,
    /// The branches of the extent tree that come before the node wanted next,
    /// in key order: the covering item may stand under any of them.
    pub left: Vec<Branch>,
    pub logical: u64,
    pub stored: Vec<u8>,
    pub csum_root: u64,
    pub hash_len: usize,
    pub sector_size: u64,
}

impl ReconfirmWalk {
    /// Starts the re-check of one mismatched sector. It ends in Corruption
    /// (still bad: recover), Stale (freed or rewritten: skip), or Unverifiable
    /// (metadata unreadable: skip).
    pub fn new(
        extent_root: u64,
        csum_root: u64,
        logical: u64,
        stored: Vec<u8>,
        hash_len: usize,
        sector_size: u64,
    ) -> (r: Self)
        requires
            hash_len > 0,
            sector_size > 0,
        ensures
            r.wf(),
            r.left@.len() == 0,
            r == (ReconfirmWalk {
                phase: Phase::Extent { node: extent_root, depth: 0 },
                left: r.left,
                logical,
                stored,
                csum_root,
                hash_len,
                sector_size,
            }),
    {
        ReconfirmWalk {
            phase: Phase::Extent { node: extent_root, depth: 0 },
            left: Vec::new(),
            logical,
            stored,
            csum_root,
            hash_len,
            sector_size,
        }
    }

    pub open spec fn wf(&self) -> bool {
        &&& self.hash_len > 0
        &&& self.sector_size > 0
        &&& forall|i: int|
            0 <= i < self.left@.len() ==> (#[trigger] self.left@[i]).depth <= 16
        &&& match self.phase {
            Phase::Extent { depth, .. } => depth < 16,
            Phase::Csum { depth, .. } => depth < 16,
            _ => true,
        }
    }

    /// How many more nodes can be asked for, with at most `b` children to a
    /// node.
    pub open spec fn remaining(&self, b: nat) -> int {
        match self.phase {
            Phase::Extent { depth, .. } => 16 + (weight(depth as int, b) + load(
                self.left@,
                b,
            )) as int,
            Phase::Csum { depth, .. } => 16 - depth,
            _ => 0,
        }
    }

    /// The node to read next; `None` when settled.
    pub open spec fn wants(&self) -> Option<u64> {
        match self.phase {
            Phase::Extent { node, .. } => Some(node),
            Phase::Csum { node, .. } => Some(node),
            _ => None,
        }
    }

    /// The node to read next; `None` when settled.
    pub fn wanted(&self) -> (r: Option<u64>)
        ensures
            r == self.wants(),
    {
        match self.phase {
            Phase::Extent { node, .. } => Some(node),
            Phase::Csum { node, .. } => Some(node),
            _ => None,
        }
    }

    /// `after` follows when the extent tree's node is read. A node that cannot
    /// be read leaves the sector unverifiable; a hole or an extent without
    /// checksums means that it was freed or rewritten.
    pub open spec fn extent_next(
        self,
        depth: usize,
        node: Option<Node>,
        after: ReconfirmWalk,
    ) -> bool {
        match node {
            None => {
                &&& after.phase == Phase::Done(Reconfirm::Unverifiable)
                &&& after.left@ == self.left@
            },
            Some(node) => exists|a: ExtentLookup|
                {
                    &&& #[trigger] extent_answer(node, self.logical, a)
                    &&& self.extent_taken(depth, a, after)
                },
        }
    }

    /// `after` follows on what a node of the extent tree says.
    pub open spec fn extent_taken(
        self,
        depth: usize,
        a: ExtentLookup,
        after: ReconfirmWalk,
    ) -> bool {
        match a {
            ExtentLookup::Under(children) => {
                let left = self.left@ + branches(children@, depth + 1);
                &&& after.phase == goes_on(left)
                &&& after.left@ == without_last(left)
            },
            ExtentLookup::OutOfBounds => {
                &&& after.phase is OutOfBounds
                &&& after.left@ == self.left@
            },
            ExtentLookup::Found(live) => {
                &&& after.left@ == self.left@
                &&& after.phase == (match live {
                    ExtentLive::Hole => Phase::Done(Reconfirm::Stale),
                    ExtentLive::NoDataSum => Phase::Done(Reconfirm::Stale),
                    ExtentLive::Unreadable => Phase::Done(Reconfirm::Unverifiable),
                    ExtentLive::Live => Phase::Csum { node: self.csum_root, depth: 0 },
                })
            },
        }
    }

    /// `to` follows when the checksum tree's node is read: the live checksum
    /// decides corruption against churn.
    pub open spec fn csum_next(self, depth: usize, node: Option<Node>, to: Phase) -> bool {
        match node {
            None => to == Phase::Done(Reconfirm::Unverifiable),
            Some(node) => exists|a: Lookup<CsumLive>|
                {
                    &&& #[trigger] csum_answer(
                        node,
                        self.logical,
                        self.hash_len,
                        self.sector_size,
                        a,
                    )
                    &&& to == (match a {
                        Lookup::Descend(n) => if depth + 1 < 16 {
                            Phase::Csum { node: n, depth: (depth + 1) as usize }
                        } else {
                            Phase::Done(Reconfirm::Unverifiable)
                        },
                        Lookup::OutOfBounds => Phase::OutOfBounds,
                        Lookup::Found(CsumLive::Absent) => Phase::Done(Reconfirm::Stale),
                        Lookup::Found(CsumLive::Unreadable) => Phase::Done(
                            Reconfirm::Unverifiable,
                        ),
                        Lookup::Found(CsumLive::Present(live)) => if live@ == self.stored@ {
                            Phase::Done(Reconfirm::Corruption)
                        } else {
                            Phase::Done(Reconfirm::Stale)
                        },
                    })
                },
        }
    }

    /// `after` follows when the node asked for has been read. A walk that is
    /// settled stays as it is.
    pub open spec fn follows(self, node: Option<Node>, after: ReconfirmWalk) -> bool {
        &&& after == (ReconfirmWalk { phase: after.phase, left: after.left, ..self })
        &&& match self.phase {
            Phase::Extent { depth, .. } => self.extent_next(depth, node, after),
            Phase::Csum { depth, .. } => {
                &&& self.csum_next(depth, node, after.phase)
                &&& after.left@ == self.left@
            },
            p => after.phase == p && after.left@ == self.left@,
        }
    }

    /// Goes on under a node's children, or else under what comes before it.
    fn take_branches(&mut self, depth: usize, children: Vec<u64>)
        requires
            old(self).wf(),
            old(self).phase is Extent,
            old(self).phase->Extent_depth == depth,
        ensures
            final(self).wf(),
            *final(self) == (ReconfirmWalk {
                phase: final(self).phase,
                left: final(self).left,
                ..*old(self)
            }),
            old(self).extent_taken(depth, ExtentLookup::Under(children), *final(self)),
            forall|b: nat|
                children@.len() <= b ==> #[trigger] final(self).remaining(b) < old(
                    self,
                ).remaining(b),
    {
        let n: usize = children.len();
        let ghost was = self.left@;
        let mut i: usize = 0;
        while i < n
            invariant
                i <= n,
                n == children@.len(),
                depth < 16,
                was == old(self).left@,
                self.left@ == was + branches(children@.take(i as int), depth + 1),
                *self == (ReconfirmWalk { left: self.left, ..*old(self) }),
            decreases n - i,
        {
            self.left.push(Branch { node: children[i], depth: depth + 1 });
            i = i + 1;
            assert(self.left@ == was + branches(children@.take(i as int), depth + 1));
        }
        assert(children@.take(n as int) == children@);
        let ghost all = self.left@;
        assert(forall|j: int| 0 <= j < all.len() ==> (#[trigger] all[j]).depth <= 16) by {
            assert forall|j: int| 0 <= j < all.len() implies (#[trigger] all[j]).depth <= 16 by {
                if j < was.len() {
                    assert(all[j] == was[j]);
                }
            }
        }
        proof {
            assert forall|b: nat| children@.len() <= b implies load(all, b) < load(was, b)
                + #[trigger] weight(depth as int, b) by {
                lemma_load_adds(was, children@, depth + 1, b);
                let w = weight(depth + 1, b);
                assert(n * w <= b * w) by (nonlinear_arith)
                    requires
                        n <= b,
                ;
            }
        }
        match self.left.pop() {
            None => {
                self.phase = Phase::Done(Reconfirm::Stale);
            },
            Some(branch) => {
                assert(branch == all.last());
                assert(self.left@ == all.drop_last());
                if branch.depth < MAX_DESCENT {
                    self.phase = Phase::Extent { node: branch.node, depth: branch.depth };
                } else {
                    self.phase = Phase::Done(Reconfirm::Unverifiable);
                }
            },
        }
        assert forall|b: nat| children@.len() <= b implies #[trigger] self.remaining(b) < old(
            self,
        ).remaining(b) by {
            assert(load(all, b) < load(was, b) + weight(depth as int, b));
        }
    }

    /// Takes in the node last asked for; `None` where no copy of it could be
    /// read and verified.
    pub fn feed(&mut self, node: Option<Node>)
        requires
            old(self).wf(),
        ensures
            final(self).wf(),
            old(self).follows(node, *final(self)),
            forall|b: nat|
                old(self).wants() is Some && within(node, b) ==> #[trigger] final(self).remaining(b)
                    < old(self).remaining(b),
    {
        match self.phase {
            Phase::Extent { depth, .. } => {
                match node {
                    None => {
                        self.phase = Phase::Done(Reconfirm::Unverifiable);
                    },
                    Some(node) => {
                        let a = extent_covers(&node, self.logical);
                        assert(extent_answer(node, self.logical, a));
                        match a {
                            ExtentLookup::Under(children) => {
                                assert forall|b: nat| within(Some(node), b) implies children@.len()
                                    <= b by {}
                                self.take_branches(depth, children);
                            },
                            ExtentLookup::OutOfBounds => {
                                self.phase = Phase::OutOfBounds;
                            },
                            ExtentLookup::Found(live) => {
                                self.phase = match live {
                                    ExtentLive::Hole => Phase::Done(Reconfirm::Stale),
                                    ExtentLive::NoDataSum => Phase::Done(Reconfirm::Stale),
                                    ExtentLive::Unreadable => Phase::Done(Reconfirm::Unverifiable),
                                    ExtentLive::Live => Phase::Csum {
                                        node: self.csum_root,
                                        depth: 0,
                                    },
                                };
                            },
                        }
                        assert(old(self).extent_taken(depth, a, *self));
                    },
                }
            },
            Phase::Csum { depth, .. } => {
                self.phase = match node {
                    None => Phase::Done(Reconfirm::Unverifiable),
                    Some(node) => {
                        let a = csum_at(&node, self.logical, self.hash_len, self.sector_size);
                        assert(csum_answer(
                            node,
                            self.logical,
                            self.hash_len,
                            self.sector_size,
                            a,
                        ));
                        match a {
                            Lookup::Descend(n) => if depth + 1 < MAX_DESCENT {
                                Phase::Csum { node: n, depth: depth + 1 }
                            } else {
                                Phase::Done(Reconfirm::Unverifiable)
                            },
                            Lookup::OutOfBounds => Phase::OutOfBounds,
                            Lookup::Found(CsumLive::Absent) => Phase::Done(Reconfirm::Stale),
                            Lookup::Found(CsumLive::Unreadable) => Phase::Done(
                                Reconfirm::Unverifiable,
                            ),
                            Lookup::Found(CsumLive::Present(live)) => if bytes::bytes_equal(
                                live.as_slice(),
                                self.stored.as_slice(),
                            ) {
                                Phase::Done(Reconfirm::Corruption)
                            } else {
                                Phase::Done(Reconfirm::Stale)
                            },
                        }
                    },
                };
            },
            _ => {},
        }
    }

    /// The verdict, once settled.
    pub fn verdict(&self) -> (r: Option<Reconfirm>)
        ensures
            r == (match self.phase {
                Phase::Done(v) => Some(v),
                _ => None,
            }),
    {
        match self.phase {
            Phase::Done(v) => Some(v),
            _ => None,
        }
    }
}

/// The node that a read gave, if any.
pub open spec fn node_in(got: Result<ReadNodeResult, ReadError>) -> Option<Node> {
    match got {
        Ok(res) => res.node,
        Err(_) => None,
    }
}

/// `got` is what reading the live node at `logical` gives. Nothing but its
/// address is expected of it.
pub open spec fn live_node_read<P: Fn(u64, usize) -> Option<Vec<u8>>>(
    reader: FsReader,
    chunk_map: ChunkMap,
    pread: P,
    logical: u64,
    got: Result<ReadNodeResult, ReadError>,
) -> bool {
    reader.node_read(chunk_map, pread, logical, GEN_DONT_CHECK, None, None, got)
}

/// One node of the live trees is read and takes the re-check from one state to
/// the next.
pub open spec fn read_on<P: Fn(u64, usize) -> Option<Vec<u8>>>(
    reader: FsReader,
    chunk_map: ChunkMap,
    pread: P,
    before: ReconfirmWalk,
    after: ReconfirmWalk,
) -> bool {
    exists|got: Result<ReadNodeResult, ReadError>|
        {
            &&& before.wants() is Some
            &&& #[trigger] live_node_read(
                reader,
                chunk_map,
                pread,
                before.wants().unwrap(),
                got,
            )
            &&& before.follows(node_in(got), after)
        }
}

/// State `k` follows on the one before it.
pub open spec fn step_taken<P: Fn(u64, usize) -> Option<Vec<u8>>>(
    reader: FsReader,
    chunk_map: ChunkMap,
    pread: P,
    states: Seq<ReconfirmWalk>,
    k: int,
) -> bool {
    read_on(reader, chunk_map, pread, states[k - 1], states[k])
}

/// The states of a re-check in turn.
pub open spec fn descent<P: Fn(u64, usize) -> Option<Vec<u8>>>(
    reader: FsReader,
    chunk_map: ChunkMap,
    pread: P,
    states: Seq<ReconfirmWalk>,
) -> bool {
    &&& states.len() > 0
    &&& forall|k: int|
        1 <= k < states.len() ==> #[trigger] step_taken(reader, chunk_map, pread, states, k)
}

/// The state that a re-check of this sector starts in.
pub open spec fn start_of(
    extent_root: u64,
    csum_root: u64,
    logical: u64,
    stored: Seq<u8>,
    hash_len: usize,
    sector_size: u64,
    walk: ReconfirmWalk,
) -> bool {
    &&& walk.phase == (Phase::Extent { node: extent_root, depth: 0 })
    &&& walk.left@.len() == 0
    &&& walk.csum_root == csum_root
    &&& walk.logical == logical
    &&& walk.stored@ == stored
    &&& walk.hash_len == hash_len
    &&& walk.sector_size == sector_size
}

/// `r` is what the re-check comes to in its last state. `None` stands for
/// metadata that contradicts itself: an item that runs past its leaf, or a node
/// that announces more items than it has room for.
pub open spec fn settled<P: Fn(u64, usize) -> Option<Vec<u8>>>(
    reader: FsReader,
    chunk_map: ChunkMap,
    pread: P,
    last: ReconfirmWalk,
    r: Option<Reconfirm>,
) -> bool {
    match r {
        Some(verdict) => last.phase == Phase::Done(verdict),
        None => {
            ||| last.phase is OutOfBounds
            ||| last.wants() is Some && exists|logical: u64| #[trigger]
                live_node_read(
                    reader,
                    chunk_map,
                    pread,
                    last.wants().unwrap(),
                    Err(ReadError::Malformed { logical }),
                )
        },
    }
}

/// `r` is what the re-check of the sector under these roots comes to.
pub open spec fn rechecked<P: Fn(u64, usize) -> Option<Vec<u8>>>(
    reader: FsReader,
    chunk_map: ChunkMap,
    pread: P,
    extent_root: u64,
    csum_root: u64,
    logical: u64,
    stored: Seq<u8>,
    hash_len: usize,
    sector_size: u64,
    r: Option<Reconfirm>,
) -> bool {
    exists|states: Seq<ReconfirmWalk>|
        {
            &&& #[trigger] descent(reader, chunk_map, pread, states)
            &&& start_of(
                extent_root,
                csum_root,
                logical,
                stored,
                hash_len,
                sector_size,
                states[0],
            )
            &&& settled(reader, chunk_map, pread, states.last(), r)
        }
}

/// An internal node has fewer pointers than bytes.
proof fn lemma_live_node_is_small<P: Fn(u64, usize) -> Option<Vec<u8>>>(
    reader: FsReader,
    chunk_map: ChunkMap,
    pread: P,
    logical: u64,
    got: Result<ReadNodeResult, ReadError>,
)
    requires
        walk::store_set(reader, chunk_map, pread),
        live_node_read(reader, chunk_map, pread, logical, got),
    ensures
        within(node_in(got), reader.node_size as nat),
{
    if node_in(got) is Some {
        let (positions, copies) = choose|positions: Seq<u64>, copies: Seq<Option<Vec<u8>>>|
            {
                &&& #[trigger] reader::copies_read(pread, reader.node_size, positions, copies)
                &&& reader.copy_offsets(chunk_map, logical, positions)
                &&& reader.judged(copies, logical, GEN_DONT_CHECK, None, None, got)
            };
        let kinds = reader.copy_kinds(copies, logical, GEN_DONT_CHECK, None, None);
        let i = choose|i: int|
            {
                &&& #[trigger] reader::chosen(kinds, i)
                &&& crate::btrfs::node::node_in_bounds(copies[i].unwrap()@)
                &&& crate::btrfs::node::node_of(got->Ok_0.node.unwrap(), copies[i].unwrap()@)
            };
        assert(call_ensures(pread, (positions[i], reader.node_size), copies[i]));
        assert(copies[i].unwrap()@.len() == reader.node_size);
    }
}

/// Re-checks one mismatched sector against live metadata at write time. Returns
/// Corruption (still bad: recover), Stale (freed or rewritten: skip), or
/// Unverifiable (metadata unreadable: skip).
pub fn reconfirm_mismatch<P: Fn(u64, usize) -> Option<Vec<u8>>>(
    reader: &FsReader,
    chunk_map: &ChunkMap,
    pread: &P,
    extent_root: u64,
    csum_root: u64,
    logical: u64,
    stored: &[u8],
    hash_len: usize,
    sector_size: u64,
) -> (r: Option<Reconfirm>)
    requires
        hash_len > 0,
        sector_size > 0,
        walk::store_set(*reader, *chunk_map, *pread),
    ensures
        rechecked(
            *reader,
            *chunk_map,
            *pread,
            extent_root,
            csum_root,
            logical,
            stored@,
            hash_len,
            sector_size,
            r,
        ),
{
    let mut walk = ReconfirmWalk::new(
        extent_root,
        csum_root,
        logical,
        slice_to_vec(stored),
        hash_len,
        sector_size,
    );
    let ghost mut states = seq![walk];
    assert(descent(*reader, *chunk_map, *pread, states));
    loop
        invariant
            walk::store_set(*reader, *chunk_map, *pread),
            walk.wf(),
            descent(*reader, *chunk_map, *pread, states),
            states.last() == walk,
            start_of(
                extent_root,
                csum_root,
                logical,
                stored@,
                hash_len,
                sector_size,
                states[0],
            ),
        decreases walk.remaining(reader.node_size as nat),
    {
        let at: u64 = match walk.wanted() {
            Some(at) => at,
            None => {
                return walk.verdict();
            },
        };
        let (got, _mirrors) = reader.fetch_node(
            chunk_map,
            pread,
            at,
            GEN_DONT_CHECK,
            None,
            None,
        );
        assert(live_node_read(*reader, *chunk_map, *pread, at, got));
        let ghost before = walk;
        let node: Option<Node> = match got {
            Ok(res) => res.node,
            Err(ReadError::Malformed { .. }) => {
                return None;
            },
            Err(_) => None,
        };
        proof {
            lemma_live_node_is_small(*reader, *chunk_map, *pread, at, got);
        }
        walk.feed(node);
        proof {
            assert(read_on(*reader, *chunk_map, *pread, before, walk));
            let more = states.push(walk);
            assert forall|k: int| 1 <= k < more.len() implies #[trigger] step_taken(
                *reader,
                *chunk_map,
                *pread,
                more,
                k,
            ) by {
                if k < states.len() {
                    assert(step_taken(*reader, *chunk_map, *pread, states, k));
                }
            }
            states = more;
        }
    }
}

/// The node is a leaf that holds exactly this checksum for the sector.
pub open spec fn holds_checksum(
    node: Option<Node>,
    logical: u64,
    stored: Seq<u8>,
    hash_len: usize,
    sector_size: u64,
) -> bool {
    let sector = sector_of(logical, sector_size) as u64;
    node matches Some(Node::Leaf(leaf)) && exists|n: int|
        #![trigger leaf.slots@[n]]
        {
            &&& 0 <= n < leaf.slots@.len()
            &&& leaf.slots@[n].key.ty == key_type::EXTENT_CSUM
            &&& run_covers(leaf, n, sector, hash_len, sector_size)
            &&& run_csum(leaf, n, sector, hash_len, sector_size) == stored
        }
}

/// A sector is called corrupt only on evidence: the checksum tree was read down
/// to a leaf that holds, for this sector, exactly the checksum that the scrub
/// saw.
pub proof fn law_corruption_is_confirmed(
    walk: ReconfirmWalk,
    depth: usize,
    node: Option<Node>,
    to: Phase,
)
    requires
        walk.csum_next(depth, node, to),
        to == Phase::Done(Reconfirm::Corruption),
    ensures
        holds_checksum(
            node,
            walk.logical,
            walk.stored@,
            walk.hash_len,
            walk.sector_size,
        ),
{
    let sector = sector_of(walk.logical, walk.sector_size) as u64;
    let found = node.unwrap();
    let a = choose|a: Lookup<CsumLive>|
        #[trigger] csum_answer(found, walk.logical, walk.hash_len, walk.sector_size, a) && to == (
        match a {
            Lookup::Descend(n) => if depth + 1 < 16 {
                Phase::Csum { node: n, depth: (depth + 1) as usize }
            } else {
                Phase::Done(Reconfirm::Unverifiable)
            },
            Lookup::OutOfBounds => Phase::OutOfBounds,
            Lookup::Found(CsumLive::Absent) => Phase::Done(Reconfirm::Stale),
            Lookup::Found(CsumLive::Unreadable) => Phase::Done(Reconfirm::Unverifiable),
            Lookup::Found(CsumLive::Present(live)) => if live@ == walk.stored@ {
                Phase::Done(Reconfirm::Corruption)
            } else {
                Phase::Done(Reconfirm::Stale)
            },
        });
    match found {
        Node::Leaf(leaf) => {
            let n = choose|n: int|
                {
                    &&& #[trigger] leads(slot_keys(leaf.slots@), csum_target(sector), n)
                    &&& if n == 0 || leaf.slots@[n - 1].key.ty != key_type::EXTENT_CSUM {
                        a == Lookup::Found(CsumLive::Absent)
                    } else if !leaf.item_in_bounds(n - 1) {
                        a is OutOfBounds
                    } else if run_covers(leaf, n - 1, sector, walk.hash_len, walk.sector_size) {
                        a matches Lookup::Found(CsumLive::Present(c)) && c@ == run_csum(
                            leaf,
                            n - 1,
                            sector,
                            walk.hash_len,
                            walk.sector_size,
                        )
                    } else {
                        a == Lookup::Found(CsumLive::Absent)
                    }
                };
            assert(leaf.slots@[n - 1].key.ty == key_type::EXTENT_CSUM);
        },
        _ => {},
    }
}

/// The sector asked about does not change on the way.
pub(crate) proof fn lemma_same_sector<P: Fn(u64, usize) -> Option<Vec<u8>>>(
    reader: FsReader,
    chunk_map: ChunkMap,
    pread: P,
    states: Seq<ReconfirmWalk>,
    k: int,
)
    requires
        descent(reader, chunk_map, pread, states),
        0 <= k < states.len(),
    ensures
        states[k] == (ReconfirmWalk {
            phase: states[k].phase,
            left: states[k].left,
            ..states[0]
        }),
    decreases k,
{
    if k > 0 {
        lemma_same_sector(reader, chunk_map, pread, states, k - 1);
        assert(step_taken(reader, chunk_map, pread, states, k));
    }
}

/// Some live node says that the sector belongs to an extent with checksums.
pub open spec fn extent_is_live<P: Fn(u64, usize) -> Option<Vec<u8>>>(
    reader: FsReader,
    chunk_map: ChunkMap,
    pread: P,
    logical: u64,
) -> bool {
    exists|at: u64, got: Result<ReadNodeResult, ReadError>|
        {
            &&& #[trigger] live_node_read(reader, chunk_map, pread, at, got)
            &&& node_in(got) is Some
            &&& extent_answer(node_in(got).unwrap(), logical, ExtentLookup::Found(ExtentLive::Live))
        }
}

/// Some live node holds exactly this checksum for the sector.
pub open spec fn checksum_is_live<P: Fn(u64, usize) -> Option<Vec<u8>>>(
    reader: FsReader,
    chunk_map: ChunkMap,
    pread: P,
    logical: u64,
    stored: Seq<u8>,
    hash_len: usize,
    sector_size: u64,
) -> bool {
    exists|at: u64, got: Result<ReadNodeResult, ReadError>|
        {
            &&& #[trigger] live_node_read(reader, chunk_map, pread, at, got)
            &&& holds_checksum(node_in(got), logical, stored, hash_len, sector_size)
        }
}

/// The checksum tree is read only for a sector of a live extent.
proof fn lemma_checksums_need_an_extent<P: Fn(u64, usize) -> Option<Vec<u8>>>(
    reader: FsReader,
    chunk_map: ChunkMap,
    pread: P,
    states: Seq<ReconfirmWalk>,
    k: int,
)
    requires
        descent(reader, chunk_map, pread, states),
        states[0].phase is Extent,
        0 <= k < states.len(),
        states[k].phase is Csum,
    ensures
        extent_is_live(reader, chunk_map, pread, states[0].logical),
    decreases k,
{
    assert(k > 0);
    let before = states[k - 1];
    lemma_same_sector(reader, chunk_map, pread, states, k - 1);
    assert(step_taken(reader, chunk_map, pread, states, k));
    let got = choose|got: Result<ReadNodeResult, ReadError>|
        {
            &&& before.wants() is Some
            &&& #[trigger] live_node_read(
                reader,
                chunk_map,
                pread,
                before.wants().unwrap(),
                got,
            )
            &&& before.follows(node_in(got), states[k])
        };
    match before.phase {
        Phase::Extent { depth, .. } => {
            assert(before.extent_next(depth, node_in(got), states[k]));
            assert(node_in(got) is Some);
            assert(extent_answer(
                node_in(got).unwrap(),
                before.logical,
                ExtentLookup::Found(ExtentLive::Live),
            ));
        },
        _ => {
            lemma_checksums_need_an_extent(reader, chunk_map, pread, states, k - 1);
        },
    }
}

/// A verdict of corruption rests on live metadata: a node of the extent tree
/// said that the sector belongs to an extent with checksums, and a leaf of the
/// checksum tree holds for it exactly the checksum that the scrub saw.
pub proof fn law_corruption_rests_on_live_metadata<P: Fn(u64, usize) -> Option<Vec<u8>>>(
    reader: FsReader,
    chunk_map: ChunkMap,
    pread: P,
    extent_root: u64,
    csum_root: u64,
    logical: u64,
    stored: Seq<u8>,
    hash_len: usize,
    sector_size: u64,
)
    requires
        rechecked(
            reader,
            chunk_map,
            pread,
            extent_root,
            csum_root,
            logical,
            stored,
            hash_len,
            sector_size,
            Some(Reconfirm::Corruption),
        ),
    ensures
        extent_is_live(reader, chunk_map, pread, logical),
        checksum_is_live(reader, chunk_map, pread, logical, stored, hash_len, sector_size),
{
    let states = choose|states: Seq<ReconfirmWalk>|
        {
            &&& #[trigger] descent(reader, chunk_map, pread, states)
            &&& start_of(
                extent_root,
                csum_root,
                logical,
                stored,
                hash_len,
                sector_size,
                states[0],
            )
            &&& settled(
                reader,
                chunk_map,
                pread,
                states.last(),
                Some(Reconfirm::Corruption),
            )
        };
    let k = states.len() - 1;
    assert(k > 0);
    let before = states[k - 1];
    lemma_same_sector(reader, chunk_map, pread, states, k - 1);
    assert(step_taken(reader, chunk_map, pread, states, k));
    let got = choose|got: Result<ReadNodeResult, ReadError>|
        {
            &&& before.wants() is Some
            &&& #[trigger] live_node_read(
                reader,
                chunk_map,
                pread,
                before.wants().unwrap(),
                got,
            )
            &&& before.follows(node_in(got), states[k])
        };
    match before.phase {
        Phase::Csum { depth, .. } => {
            law_corruption_is_confirmed(before, depth, node_in(got), states[k].phase);
            lemma_checksums_need_an_extent(reader, chunk_map, pread, states, k - 1);
        },
        _ => {
            assert(false);
        },
    }
}

} // verus!
