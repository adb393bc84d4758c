//! Lazy CSUM_TREE walking: on-demand checksum ranges with bounded memory.

use std::collections::HashSet;

use vstd::prelude::*;

use crate::btrfs::chunk::ChunkMap;
use crate::btrfs::csum_strategy::CsumStrategy;
use crate::btrfs::key::key_type;
use crate::btrfs::key::objectid;
use crate::btrfs::key::Key;
use crate::btrfs::node::Leaf;
use crate::btrfs::reader::FsReader;
use crate::btrfs::tree;
use crate::btrfs::tree::{NodeRef, TreeWalk, WalkStep};
use crate::btrfs::walk;
use crate::btrfs::walk::{Visit, WalkTell};
use crate::bytes;
use crate::status::MetadataKind;

verus! {

/// On-demand CSUM_TREE walker: a range streams the checksums covering a logical
/// span in bounded memory, and the metadata failures met on the way are counted,
/// each node once.
pub struct LazyCsumProvider {
    strategy: CsumStrategy,
    node_size: usize,
    csum_root: u64,
    /// Nodes whose every mirror copy failed the header checksum.
    reported_header: HashSet<u64>,
    /// Mirrored nodes whose copies disagreed (a good copy existed).
    reported_mirror: HashSet<u64>,
    /// Nodes that failed with a read error.
    reported_read: HashSet<u64>,
    /// Nodes skipped as stale (freed or repurposed): a coverage gap, not an
    /// error.
    reported_stale: HashSet<u64>,
}

/// One (logical address, stored checksum bytes) pair from the CSUM_TREE.
#[derive(Debug)]
pub struct CsumEntry {
    pub logical: u64,
    pub csum: Vec<u8>,
}

/// An item of the checksum tree that cannot be used: it runs past its leaf or
/// past the end of the address space.
#[derive(Debug, Clone, Copy, PartialEq, Eq, Structural)]
pub struct ItemOutOfRange {
    pub index: usize,
}

/// The checksums of a range, in ascending logical order, and the metadata
/// failures that were counted for the first time on the way, in that order.
#[derive(Debug)]
pub struct RangeRead {
    pub entries: Vec<CsumEntry>,
    pub counted: Vec<MetadataKind>,
}

/// Why a range cannot be read.
#[derive(Debug, Clone, Copy, PartialEq, Eq, Structural)]
pub enum RangeError {
    /// The node announces more items than it has room for.
    Node { logical: u64 },
    /// An item of the leaf cannot be used.
    Item { logical: u64, index: usize },
}

/// Entries as plain pairs.
pub open spec fn pairs(entries: Seq<CsumEntry>) -> Seq<(u64, Seq<u8>)> {
    Seq::new(entries.len(), |i: int| (entries[i].logical, entries[i].csum@))
}

/// The widest span that one EXTENT_CSUM item can cover.
pub open spec fn max_item_span(node_size: usize, hash_len: usize, sector_size: u64) -> int {
    (node_size as int / hash_len as int) * sector_size as int
}

/// The lower key of a range: widened by the largest span of an item, so that an
/// item that starts before the range but reaches into it is not pruned.
pub open spec fn range_low(lo: u64, span: int) -> u64 {
    if span > lo { 0 } else { (lo - span) as u64 }
}

/// The first `s` checksums of an item that starts at `item_lo`, as far as they
/// lie in `[lo, hi)`.
pub open spec fn item_pairs(
    item_lo: u64,
    data: Seq<u8>,
    hash_len: int,
    sector_size: int,
    lo: u64,
    hi: u64,
    s: int,
) -> Seq<(u64, Seq<u8>)>
    decreases s,
{
    if s <= 0 {
        Seq::empty()
    } else {
        let before = item_pairs(item_lo, data, hash_len, sector_size, lo, hi, s - 1);
        let logical = item_lo + (s - 1) * sector_size;
        if lo <= logical < hi {
            before.push(
                (
                    logical as u64,
                    data.subrange((s - 1) * hash_len, (s - 1) * hash_len + hash_len),
                ),
            )
        } else {
            before
        }
    }
}

/// Item `i` can be used: its data lies in the leaf and its run ends inside the
/// address space.
pub open spec fn item_usable(leaf: Leaf, i: int, hash_len: int, sector_size: int) -> bool {
    &&& leaf.item_in_bounds(i)
    &&& leaf.slots@[i].key.offset + (leaf.item(i).len() as int / hash_len) * sector_size
        <= u64::MAX
}

/// The checksums of the first `k` items of a leaf that lie in `[lo, hi)`.
pub open spec fn leaf_pairs(
    leaf: Leaf,
    hash_len: int,
    sector_size: int,
    lo: u64,
    hi: u64,
    k: int,
) -> Seq<(u64, Seq<u8>)>
    decreases k,
{
    if k <= 0 {
        Seq::empty()
    } else {
        let before = leaf_pairs(leaf, hash_len, sector_size, lo, hi, k - 1);
        if leaf.slots@[k - 1].key.ty == key_type::EXTENT_CSUM {
            before + item_pairs(
                leaf.slots@[k - 1].key.offset,
                leaf.item(k - 1),
                hash_len,
                sector_size,
                lo,
                hi,
                leaf.item(k - 1).len() as int / hash_len,
            )
        } else {
            before
        }
    }
}

/// The nodes counted `before`, and those at which these visits met a failure of
/// this kind.
pub open spec fn met(before: Set<u64>, visits: Seq<Visit>, kind: MetadataKind) -> Set<u64>
    decreases visits.len(),
{
    if visits.len() == 0 {
        before
    } else if tree::failure_of(visits.last().step) == Some(kind) {
        met(before, visits.drop_last(), kind).insert(visits.last().logical)
    } else {
        met(before, visits.drop_last(), kind)
    }
}

/// The checksums in `[lo, hi)` of the leaves visited, in the order of the visits.
pub open spec fn visit_pairs(
    visits: Seq<Visit>,
    hash_len: int,
    sector_size: int,
    lo: u64,
    hi: u64,
) -> Seq<(u64, Seq<u8>)>
    decreases visits.len(),
{
    if visits.len() == 0 {
        Seq::empty()
    } else {
        let before = visit_pairs(visits.drop_last(), hash_len, sector_size, lo, hi);
        match visits.last().step {
            WalkStep::Leaf { leaf, .. } => before + leaf_pairs(
                leaf,
                hash_len,
                sector_size,
                lo,
                hi,
                leaf.slots@.len() as int,
            ),
            _ => before,
        }
    }
}

/// Every checksum item of the leaf can be used.
pub open spec fn leaf_usable(leaf: Leaf, hash_len: int, sector_size: int) -> bool {
    forall|i: int|
        0 <= i < leaf.slots@.len() && (#[trigger] leaf.slots@[i]).key.ty == key_type::EXTENT_CSUM
            ==> item_usable(leaf, i, hash_len, sector_size)
}

/// The node visited has room for what it announces, and the items of a leaf can
/// be used.
pub open spec fn visit_usable(visit: Visit, hash_len: int, sector_size: int) -> bool {
    match visit.step {
        WalkStep::Malformed => false,
        WalkStep::Leaf { leaf, .. } => leaf_usable(leaf, hash_len, sector_size),
        _ => true,
    }
}

/// All nodes visited can be used.
pub open spec fn all_usable(visits: Seq<Visit>, hash_len: int, sector_size: int) -> bool {
    forall|k: int|
        0 <= k < visits.len() ==> visit_usable(#[trigger] visits[k], hash_len, sector_size)
}

/// The pair put behind the last one that is not after it.
pub open spec fn placed(s: Seq<(u64, Seq<u8>)>, p: (u64, Seq<u8>)) -> Seq<(u64, Seq<u8>)>
    decreases s.len(),
{
    if s.len() == 0 || s.last().0 <= p.0 {
        s.push(p)
    } else {
        placed(s.drop_last(), p).push(s.last())
    }
}

/// The pairs in ascending logical order; pairs of one address keep their order.
pub open spec fn in_logical_order(s: Seq<(u64, Seq<u8>)>) -> Seq<(u64, Seq<u8>)>
    decreases s.len(),
{
    if s.len() == 0 {
        s
    } else {
        placed(in_logical_order(s.drop_last()), s.last())
    }
}

/// The entries are these pairs, put in ascending logical order; pairs that are
/// in order already stay as they are.
pub open spec fn sorted_pairs(entries: Seq<CsumEntry>, of: Seq<(u64, Seq<u8>)>) -> bool {
    &&& ascending(entries)
    &&& pairs(entries) == in_logical_order(of)
    &&& exists|taken: Seq<CsumEntry>|
        {
            &&& #[trigger] pairs(taken) == of
            &&& entries.to_multiset() == taken.to_multiset()
            &&& ascending(taken) ==> entries == taken
        }
}

/// In ascending logical order.
pub open spec fn ascending(entries: Seq<CsumEntry>) -> bool {
    forall|i: int, j: int|
        0 <= i <= j < entries.len() ==> (#[trigger] entries[i]).logical <= (
        #[trigger] entries[j]).logical
}

impl LazyCsumProvider {
    /// Nodes whose every mirror copy failed the header checksum.
    pub closed spec fn header_nodes(&self) -> Set<u64> {
        self.reported_header@
    }

    /// Mirrored nodes whose copies disagreed.
    pub closed spec fn mirror_nodes(&self) -> Set<u64> {
        self.reported_mirror@
    }

    /// Nodes that could not be read.
    pub closed spec fn read_nodes(&self) -> Set<u64> {
        self.reported_read@
    }

    /// Nodes skipped as stale.
    pub closed spec fn stale_nodes(&self) -> Set<u64> {
        self.reported_stale@
    }

    /// The nodes at which a failure of this kind was counted.
    pub open spec fn nodes_of(&self, kind: MetadataKind) -> Set<u64> {
        match kind {
            MetadataKind::HeaderError => self.header_nodes(),
            MetadataKind::MirrorMismatch => self.mirror_nodes(),
            MetadataKind::ReadError => self.read_nodes(),
            MetadataKind::StaleBranch => self.stale_nodes(),
        }
    }

    pub closed spec fn strategy(&self) -> CsumStrategy {
        self.strategy
    }

    pub closed spec fn node_size(&self) -> usize {
        self.node_size
    }

    pub closed spec fn csum_root(&self) -> u64 {
        self.csum_root
    }

    /// Same tree, read the same way.
    pub open spec fn same_tree(&self, other: &LazyCsumProvider) -> bool {
        &&& self.strategy() == other.strategy()
        &&& self.node_size() == other.node_size()
        &&& self.csum_root() == other.csum_root()
    }

    /// A walker that has counted nothing.
    pub fn new(node_size: usize, strategy: CsumStrategy, csum_root: u64) -> (r: Self)
        ensures
            r.strategy() == strategy,
            r.node_size() == node_size,
            r.csum_root() == csum_root,
            r.header_nodes() == Set::<u64>::empty(),
            r.mirror_nodes() == Set::<u64>::empty(),
            r.read_nodes() == Set::<u64>::empty(),
            r.stale_nodes() == Set::<u64>::empty(),
    {
        LazyCsumProvider {
            strategy,
            node_size,
            csum_root,
            reported_header: HashSet::new(),
            reported_mirror: HashSet::new(),
            reported_read: HashSet::new(),
            reported_stale: HashSet::new(),
        }
    }

    /// Distinct nodes whose every mirror copy failed the header checksum.
    pub fn metadata_errors(&self) -> (r: u64)
        ensures
            r == self.header_nodes().len(),
    {
        broadcast use vstd::std_specs::hash::group_hash_axioms;

        self.reported_header.len() as u64
    }

    /// Distinct mirrored nodes whose copies disagreed.
    pub fn mirror_mismatches(&self) -> (r: u64)
        ensures
            r == self.mirror_nodes().len(),
    {
        broadcast use vstd::std_specs::hash::group_hash_axioms;

        self.reported_mirror.len() as u64
    }

    /// Distinct nodes that could not be read.
    pub fn metadata_read_errors(&self) -> (r: u64)
        ensures
            r == self.read_nodes().len(),
    {
        broadcast use vstd::std_specs::hash::group_hash_axioms;

        self.reported_read.len() as u64
    }

    /// Distinct nodes skipped as stale.
    pub fn stale_branches(&self) -> (r: u64)
        ensures
            r == self.stale_nodes().len(),
    {
        broadcast use vstd::std_specs::hash::group_hash_axioms;

        self.reported_stale.len() as u64
    }

    /// The keys that a walk for the range is pruned to.
    pub open spec fn key_range(&self, logical_lo: u64, logical_hi: u64) -> (Key, Key) {
        let span = max_item_span(
            self.node_size(),
            self.strategy().hash_len,
            self.strategy().sector_size,
        );
        (
            Key {
                objectid: objectid::EXTENT_CSUM_OBJECTID,
                ty: key_type::EXTENT_CSUM,
                offset: range_low(logical_lo, span),
            },
            Key {
                objectid: objectid::EXTENT_CSUM_OBJECTID,
                ty: key_type::EXTENT_CSUM,
                offset: logical_hi,
            },
        )
    }

    /// Starts the walk for the half-open range `[logical_lo, logical_hi)`.
    pub fn range_walk(&self, logical_lo: u64, logical_hi: u64) -> (r: TreeWalk)
        requires
            self.strategy().wf(),
            max_item_span(
                self.node_size(),
                self.strategy().hash_len,
                self.strategy().sector_size,
            ) <= u64::MAX,
        ensures
            r.queue() == seq![tree::root_ref(self.csum_root())],
            r.bounds() == Some(self.key_range(logical_lo, logical_hi)),
    {
        let span: u64 = (self.node_size as u64 / self.strategy.hash_len as u64)
            * self.strategy.sector_size;
        let key_lo = Key::new(
            objectid::EXTENT_CSUM_OBJECTID,
            key_type::EXTENT_CSUM,
            logical_lo.saturating_sub(span),
        );
        let key_hi = Key::new(
            objectid::EXTENT_CSUM_OBJECTID,
            key_type::EXTENT_CSUM,
            logical_hi,
        );
        tree::walk_leaves_range(self.csum_root, key_lo, key_hi)
    }

    /// Counts what one step of the walk met at `logical`, once per distinct
    /// node. Returns what was counted now.
    pub fn note(&mut self, logical: u64, step: &WalkStep) -> (r: Option<MetadataKind>)
        ensures
            final(self).same_tree(old(self)),
            final(self).header_nodes() == (if tree::failure_of(*step) == Some(
                MetadataKind::HeaderError,
            ) {
                old(self).header_nodes().insert(logical)
            } else {
                old(self).header_nodes()
            }),
            final(self).mirror_nodes() == (if tree::failure_of(*step) == Some(
                MetadataKind::MirrorMismatch,
            ) {
                old(self).mirror_nodes().insert(logical)
            } else {
                old(self).mirror_nodes()
            }),
            final(self).read_nodes() == (if tree::failure_of(*step) == Some(MetadataKind::ReadError) {
                old(self).read_nodes().insert(logical)
            } else {
                old(self).read_nodes()
            }),
            final(self).stale_nodes() == (if tree::failure_of(*step) == Some(
                MetadataKind::StaleBranch,
            ) {
                old(self).stale_nodes().insert(logical)
            } else {
                old(self).stale_nodes()
            }),
            r == (if old(self).counted(tree::failure_of(*step), logical) {
                None::<MetadataKind>
            } else {
                tree::failure_of(*step)
            }),
    {
        broadcast use vstd::std_specs::hash::group_hash_axioms;

        let kind = match step {
            WalkStep::MetadataError => MetadataKind::HeaderError,
            WalkStep::ReadError => MetadataKind::ReadError,
            WalkStep::Stale => MetadataKind::StaleBranch,
            WalkStep::Leaf { mirror_mismatch: true, .. } => MetadataKind::MirrorMismatch,
            WalkStep::Descended { mirror_mismatch: true, .. } => MetadataKind::MirrorMismatch,
            _ => {
                return None;
            },
        };
        let first = match kind {
            MetadataKind::HeaderError => self.reported_header.insert(logical),
            MetadataKind::ReadError => self.reported_read.insert(logical),
            MetadataKind::StaleBranch => self.reported_stale.insert(logical),
            MetadataKind::MirrorMismatch => self.reported_mirror.insert(logical),
        };
        if first {
            Some(kind)
        } else {
            None
        }
    }

    /// The failure at this node was counted before (or there is none).
    pub open spec fn counted(&self, kind: Option<MetadataKind>, logical: u64) -> bool {
        match kind {
            None => true,
            Some(kind) => self.nodes_of(kind).contains(logical),
        }
    }

    /// Takes the checksums in one leaf that lie in `[logical_lo, logical_hi)`.
    pub fn absorb_leaf(
        &self,
        leaf: &Leaf,
        logical_lo: u64,
        logical_hi: u64,
        entries: &mut Vec<CsumEntry>,
    ) -> (r: Result<(), ItemOutOfRange>)
        requires
            self.strategy().wf(),
        ensures
            ({
                let hash_len = self.strategy().hash_len as int;
                let sector_size = self.strategy().sector_size as int;
                match r {
                    Ok(_) => {
                        &&& forall|i: int|
                            0 <= i < leaf.slots@.len() && (#[trigger] leaf.slots@[i]).key.ty
                                == key_type::EXTENT_CSUM ==> item_usable(
                                *leaf,
                                i,
                                hash_len,
                                sector_size,
                            )
                        &&& pairs(final(entries)@) == pairs(old(entries)@) + leaf_pairs(
                            *leaf,
                            hash_len,
                            sector_size,
                            logical_lo,
                            logical_hi,
                            leaf.slots@.len() as int,
                        )
                    },
                    Err(e) => {
                        &&& e.index < leaf.slots@.len()
                        &&& leaf.slots@[e.index as int].key.ty == key_type::EXTENT_CSUM
                        &&& !item_usable(*leaf, e.index as int, hash_len, sector_size)
                        &&& forall|i: int|
                            0 <= i < e.index && (#[trigger] leaf.slots@[i]).key.ty
                                == key_type::EXTENT_CSUM ==> item_usable(
                                *leaf,
                                i,
                                hash_len,
                                sector_size,
                            )
                    },
                }
            }),
    {
        let hash_len: usize = self.strategy.hash_len;
        let sector_size: u64 = self.strategy.sector_size;
        let count: usize = leaf.slots.len();
        let ghost start = pairs(entries@);
        let mut i: usize = 0;
        assert(pairs(entries@) =~= start + leaf_pairs(
            *leaf,
            hash_len as int,
            sector_size as int,
            logical_lo,
            logical_hi,
            0,
        ));
        while i < count
            invariant
                i <= count,
                count == leaf.slots@.len(),
                hash_len > 0,
                sector_size > 0,
                hash_len == self.strategy().hash_len,
                sector_size == self.strategy().sector_size,
                forall|k: int|
                    0 <= k < i && (#[trigger] leaf.slots@[k]).key.ty == key_type::EXTENT_CSUM
                        ==> item_usable(*leaf, k, hash_len as int, sector_size as int),
                pairs(entries@) == start + leaf_pairs(
                    *leaf,
                    hash_len as int,
                    sector_size as int,
                    logical_lo,
                    logical_hi,
                    i as int,
                ),
            decreases count - i,
        {
            if leaf.slots[i].key.ty == key_type::EXTENT_CSUM {
                let data = match leaf.checked_item(i) {
                    Some(d) => d,
                    None => {
                        return Err(ItemOutOfRange { index: i });
                    },
                };
                let n: usize = data.len() / hash_len;
                let item_lo: u64 = leaf.slots[i].key.offset;
                assert(0 <= n * sector_size <= u128::MAX - u64::MAX) by (nonlinear_arith)
                    requires
                        0 <= n <= u64::MAX,
                        0 <= sector_size <= u64::MAX,
                ;
                let span: u128 = (n as u128) * (sector_size as u128);
                if item_lo as u128 + span > u64::MAX as u128 {
                    return Err(ItemOutOfRange { index: i });
                }
                let ghost before = pairs(entries@);
                take_item(data, item_lo, hash_len, sector_size, logical_lo, logical_hi, n, entries);
                assert(pairs(entries@) =~= start + leaf_pairs(
                    *leaf,
                    hash_len as int,
                    sector_size as int,
                    logical_lo,
                    logical_hi,
                    i + 1,
                ));
            }
            i = i + 1;
        }
        Ok(())
    }

    /// Puts the checksums of a range in ascending logical order.
    pub fn finish_range(entries: Vec<CsumEntry>) -> (r: Vec<CsumEntry>)
        ensures
            ascending(r@),
            pairs(r@) == in_logical_order(pairs(entries@)),
            r@.to_multiset() == entries@.to_multiset(),
            ascending(entries@) ==> r@ == entries@,
    {
        broadcast use vstd::multiset::group_multiset_axioms;

        let mut v = entries;
        let n: usize = v.len();
        let mut i: usize = 0;
        while i < n
            invariant
                i <= n,
                n == v@.len(),
                ascending(v@.take(i as int)),
                n == entries@.len(),
                forall|k: int| i <= k < n ==> #[trigger] v@[k] == entries@[k],
                pairs(v@.take(i as int)) == in_logical_order(pairs(entries@).take(i as int)),
                v@.to_multiset() == entries@.to_multiset(),
                ascending(entries@) ==> v@ == entries@,
            decreases n - i,
        {
            let ghost was = v@;
            let key: u64 = v[i].logical;
            let mut j: usize = i;
            while j > 0 && v[j - 1].logical > key
                invariant
                    j <= i < n,
                    n == v@.len(),
                    v@ == was,
                    key == v@[i as int].logical,
                    ascending(v@.take(i as int)),
                    forall|k: int| j <= k < i ==> (#[trigger] v@[k]).logical > key,
                    ascending(entries@) ==> v@ == entries@,
                decreases j,
            {
                j = j - 1;
            }
            if j < i {
                let ghost s = v@;
                proof {
                    if ascending(entries@) {
                        assert(s[j as int].logical <= s[i as int].logical);
                        assert(false);
                    }
                    vstd::seq_lib::to_multiset_remove(s, i as int);
                    vstd::seq_lib::to_multiset_insert(s.remove(i as int), j as int, s[i as int]);
                    broadcast use vstd::seq_lib::group_to_multiset_ensures;

                    assert(s.contains(s[i as int]));
                    assert(s.to_multiset().remove(s[i as int]).insert(s[i as int])
                        =~= s.to_multiset());
                }
                let e = v.remove(i);
                v.insert(j, e);
                proof {
                    assert forall|a: int, b: int| 0 <= a <= b < i + 1 implies (#[trigger] v@.take(
                        i + 1,
                    )[a]).logical <= (#[trigger] v@.take(i + 1)[b]).logical by {
                        lemma_insert_keeps_order(s, i as int, j as int, a, b);
                    }
                }
            } else {
                proof {
                    assert forall|a: int, b: int| 0 <= a <= b < i + 1 implies (#[trigger] v@.take(
                        i + 1,
                    )[a]).logical <= (#[trigger] v@.take(i + 1)[b]).logical by {
                        if b < i {
                            assert(v@.take(i as int)[a].logical <= v@.take(i as int)[b].logical);
                        } else if a < i {
                            assert(v@.take(i as int)[a].logical <= v@.take(i as int)[i
                                - 1].logical);
                        }
                    }
                }
            }
            proof {
                let all = pairs(entries@);
                let front = pairs(was.take(i as int));
                let pair = all[i as int];
                assert(v@.take(i + 1) =~= was.take(i as int).insert(j as int, was[i as int]));
                assert(pairs(v@.take(i + 1)) =~= front.take(j as int).push(pair) + front.skip(
                    j as int,
                ));
                assert(front =~= front.take(j as int) + front.skip(j as int));
                if j > 0 {
                    assert(was[j - 1].logical <= key);
                }
                lemma_placed_between(front.take(j as int), front.skip(j as int), pair);
                assert(all.take(i + 1).drop_last() =~= all.take(i as int));
                assert(all.take(i + 1).last() == pair);
            }
            i = i + 1;
        }
        assert(v@.take(n as int) =~= v@);
        assert(pairs(entries@).take(n as int) =~= pairs(entries@));
        v
    }

    /// The failures counted for the first time on these visits.
    pub open spec fn newly_counted(&self, visits: Seq<Visit>) -> Seq<MetadataKind>
        decreases visits.len(),
    {
        if visits.len() == 0 {
            Seq::empty()
        } else {
            let before = visits.drop_last();
            match tree::failure_of(visits.last().step) {
                None => self.newly_counted(before),
                Some(kind) => if met(self.nodes_of(kind), before, kind).contains(
                    visits.last().logical,
                ) {
                    self.newly_counted(before)
                } else {
                    self.newly_counted(before).push(kind)
                },
            }
        }
    }

    /// Every failure met on these visits is counted, in addition to what was
    /// counted `before`.
    pub open spec fn counted_over(&self, before: LazyCsumProvider, visits: Seq<Visit>) -> bool {
        forall|kind: MetadataKind| #[trigger]
            self.nodes_of(kind) == met(before.nodes_of(kind), visits, kind)
    }

    /// What a range gives after these visits. All of the walk was made, and the
    /// checksums of every leaf it visited are there; or the last visit is the
    /// node that cannot be used.
    pub open spec fn range_result(
        &self,
        visits: Seq<Visit>,
        left: Seq<NodeRef>,
        lo: u64,
        hi: u64,
        r: Result<RangeRead, RangeError>,
    ) -> bool {
        let hash_len = self.strategy().hash_len as int;
        let sector_size = self.strategy().sector_size as int;
        match r {
            Ok(read) => {
                &&& left.len() == 0
                &&& all_usable(visits, hash_len, sector_size)
                &&& read.counted@ == self.newly_counted(visits)
                &&& sorted_pairs(
                    read.entries@,
                    visit_pairs(visits, hash_len, sector_size, lo, hi),
                )
            },
            Err(e) => {
                &&& visits.len() > 0
                &&& all_usable(visits.drop_last(), hash_len, sector_size)
                &&& match e {
                    RangeError::Node { logical } => {
                        &&& visits.last().logical == logical
                        &&& visits.last().step is Malformed
                    },
                    RangeError::Item { logical, index } => {
                        &&& visits.last().logical == logical
                        &&& visits.last().step matches WalkStep::Leaf { leaf, .. }
                        &&& index < leaf.slots@.len()
                        &&& leaf.slots@[index as int].key.ty == key_type::EXTENT_CSUM
                        &&& !item_usable(leaf, index as int, hash_len, sector_size)
                        &&& forall|i: int|
                            0 <= i < index && (#[trigger] leaf.slots@[i]).key.ty
                                == key_type::EXTENT_CSUM ==> item_usable(
                                leaf,
                                i,
                                hash_len,
                                sector_size,
                            )
                    },
                }
            },
        }
    }

    /// The checksums of the half-open range `[logical_lo, logical_hi)`, in
    /// ascending logical order, counting metadata failures met along the way,
    /// each node once.
    pub fn range<P: Fn(u64, usize) -> Option<Vec<u8>>, T: Fn(WalkTell)>(
        &mut self,
        reader: &FsReader,
        chunk_map: &ChunkMap,
        pread: &P,
        tell: &T,
        logical_lo: u64,
        logical_hi: u64,
    ) -> (r: Result<RangeRead, RangeError>)
        requires
            old(self).strategy().wf(),
            max_item_span(
                old(self).node_size(),
                old(self).strategy().hash_len,
                old(self).strategy().sector_size,
            ) <= u64::MAX,
            walk::store_set(*reader, *chunk_map, *pread),
            walk::tells(*tell),
        ensures
            final(self).same_tree(old(self)),
            exists|visits: Seq<Visit>, left: Seq<NodeRef>|
                {
                    &&& #[trigger] walk::walked_so_far(
                        *reader,
                        *chunk_map,
                        *pread,
                        old(self).csum_root(),
                        Some(old(self).key_range(logical_lo, logical_hi)),
                        visits,
                        left,
                    )
                    &&& walk::visits_told(*reader, *chunk_map, *tell, visits)
                    &&& final(self).counted_over(*old(self), visits)
                    &&& old(self).range_result(visits, left, logical_lo, logical_hi, r)
                },
    {
        let ghost bounds = Some(self.key_range(logical_lo, logical_hi));
        let ghost root = self.csum_root();
        let ghost hash_len = self.strategy().hash_len as int;
        let ghost sector_size = self.strategy().sector_size as int;
        let mut walk = self.range_walk(logical_lo, logical_hi);
        let mut entries: Vec<CsumEntry> = Vec::new();
        let mut counted: Vec<MetadataKind> = Vec::new();
        let ghost mut visits = Seq::<Visit>::empty();
        proof {
            walk::lemma_walk_starts(*reader, *chunk_map, *pread, root, bounds);
            assert(pairs(entries@) =~= visit_pairs(
                visits,
                hash_len,
                sector_size,
                logical_lo,
                logical_hi,
            ));
        }
        loop
            invariant
                walk::store_set(*reader, *chunk_map, *pread),
                walk::tells(*tell),
                self.same_tree(old(self)),
                old(self).strategy().wf(),
                root == old(self).csum_root(),
                bounds == Some(old(self).key_range(logical_lo, logical_hi)),
                hash_len == old(self).strategy().hash_len,
                sector_size == old(self).strategy().sector_size,
                walk.bounds() == bounds,
                walk::walked_so_far(
                    *reader,
                    *chunk_map,
                    *pread,
                    root,
                    bounds,
                    visits,
                    walk.queue(),
                ),
                walk::visits_told(*reader, *chunk_map, *tell, visits),
                self.counted_over(*old(self), visits),
                counted@ == old(self).newly_counted(visits),
                all_usable(visits, hash_len, sector_size),
                pairs(entries@) == visit_pairs(
                    visits,
                    hash_len,
                    sector_size,
                    logical_lo,
                    logical_hi,
                ),
            decreases walk::work(walk.queue(), reader.node_size as nat),
        {
            let ghost left = walk.queue();
            let visit = match walk::advance(&mut walk, reader, chunk_map, pread, tell) {
                Some(v) => v,
                None => {
                    let ghost taken = entries@;
                    let sorted = Self::finish_range(entries);
                    assert(pairs(taken) == visit_pairs(
                        visits,
                        hash_len,
                        sector_size,
                        logical_lo,
                        logical_hi,
                    ));
                    assert(sorted_pairs(sorted@, pairs(taken)));
                    return Ok(RangeRead { entries: sorted, counted });
                },
            };
            let ghost before = visits;
            proof {
                walk::lemma_walk_goes_on(
                    *reader,
                    *chunk_map,
                    *pread,
                    root,
                    bounds,
                    visits,
                    left,
                    visit,
                    walk.queue(),
                );
                walk::lemma_told_on(*reader, *chunk_map, *tell, visits, visit);
                visits = visits.push(visit);
                assert(visits.drop_last() =~= before);
            }
            let ghost known = *self;
            match self.note(visit.logical, &visit.step) {
                Some(kind) => {
                    counted.push(kind);
                },
                None => {},
            }
            assert(self.counted_over(*old(self), visits)) by {
                assert forall|kind: MetadataKind| #[trigger]
                    self.nodes_of(kind) == met(old(self).nodes_of(kind), visits, kind) by {
                    assert(known.nodes_of(kind) == met(old(self).nodes_of(kind), before, kind));
                }
            }
            proof {
                match tree::failure_of(visit.step) {
                    Some(kind) => {
                        assert(known.nodes_of(kind) == met(
                            old(self).nodes_of(kind),
                            before,
                            kind,
                        ));
                    },
                    None => {},
                }
            }
            match &visit.step {
                WalkStep::Malformed => {
                    return Err(RangeError::Node { logical: visit.logical });
                },
                WalkStep::Leaf { leaf, .. } => {
                    match self.absorb_leaf(leaf, logical_lo, logical_hi, &mut entries) {
                        Ok(_) => {},
                        Err(e) => {
                            return Err(
                                RangeError::Item { logical: visit.logical, index: e.index },
                            );
                        },
                    }
                },
                _ => {},
            }
            assert forall|k: int| 0 <= k < visits.len() implies visit_usable(
                #[trigger] visits[k],
                hash_len,
                sector_size,
            ) by {
                if k < before.len() {
                    assert(visits[k] == before[k]);
                }
            }
        }
    }
}

/// A pair goes between those that are not after it and those that are.
proof fn lemma_placed_between(
    a: Seq<(u64, Seq<u8>)>,
    b: Seq<(u64, Seq<u8>)>,
    p: (u64, Seq<u8>),
)
    requires
        a.len() > 0 ==> a.last().0 <= p.0,
        forall|k: int| 0 <= k < b.len() ==> (#[trigger] b[k]).0 > p.0,
    ensures
        placed(a + b, p) == a.push(p) + b,
    decreases b.len(),
{
    if b.len() == 0 {
        assert(a + b =~= a);
        assert(a.push(p) + b =~= a.push(p));
    } else {
        lemma_placed_between(a, b.drop_last(), p);
        assert(b[b.len() - 1].0 > p.0);
        assert((a + b).last() == b.last());
        assert((a + b).drop_last() =~= a + b.drop_last());
        assert((a.push(p) + b.drop_last()).push(b.last()) =~= a.push(p) + b);
    }
}

/// Moving element `i` down to `j` keeps the front in order.
proof fn lemma_insert_keeps_order(s: Seq<CsumEntry>, i: int, j: int, a: int, b: int)
    requires
        0 <= j < i < s.len(),
        0 <= a <= b <= i,
        ascending(s.take(i)),
        forall|k: int| j <= k < i ==> (#[trigger] s[k]).logical > s[i].logical,
        j > 0 ==> s[j - 1].logical <= s[i].logical,
    ensures
        s.remove(i).insert(j, s[i])[a].logical <= s.remove(i).insert(j, s[i])[b].logical,
{
    let t = s.remove(i).insert(j, s[i]);
    let sa = if a < j {
        a
    } else {
        a - 1
    };
    let sb = if b < j {
        b
    } else {
        b - 1
    };
    let f = s.take(i);
    if a != j && b != j {
        assert(t[a] == f[sa] && t[b] == f[sb]);
        assert(f[sa].logical <= f[sb].logical);
    } else if a == j && b != j {
        assert(t[b] == s[sb]);
        assert(s[sb].logical > s[i].logical);
    } else if a != j && b == j {
        assert(t[a] == f[a]);
        assert(f[a].logical <= f[j - 1].logical);
        assert(f[j - 1] == s[j - 1]);
    }
}

/// Takes the checksums of one item that lie in the range.
fn take_item(
    data: &[u8],
    item_lo: u64,
    hash_len: usize,
    sector_size: u64,
    logical_lo: u64,
    logical_hi: u64,
    n: usize,
    entries: &mut Vec<CsumEntry>,
)
    requires
        hash_len > 0,
        n == data@.len() as int / hash_len as int,
        item_lo + n * sector_size <= u64::MAX,
    ensures
        pairs(final(entries)@) == pairs(old(entries)@) + item_pairs(
            item_lo,
            data@,
            hash_len as int,
            sector_size as int,
            logical_lo,
            logical_hi,
            n as int,
        ),
{
    let ghost start = pairs(entries@);
    let mut s: usize = 0;
    assert(pairs(entries@) =~= start + item_pairs(
        item_lo,
        data@,
        hash_len as int,
        sector_size as int,
        logical_lo,
        logical_hi,
        0,
    ));
    while s < n
        invariant
            s <= n,
            hash_len > 0,
            n == data@.len() as int / hash_len as int,
            item_lo + n * sector_size <= u64::MAX,
            pairs(entries@) == start + item_pairs(
                item_lo,
                data@,
                hash_len as int,
                sector_size as int,
                logical_lo,
                logical_hi,
                s as int,
            ),
        decreases n - s,
    {
        assert(s * sector_size <= n * sector_size) by (nonlinear_arith)
            requires
                s <= n,
        ;
        assert((s + 1) * hash_len <= data@.len()) by (nonlinear_arith)
            requires
                s < n,
                n == data@.len() as int / hash_len as int,
                hash_len > 0,
        ;
        assert(s * hash_len + hash_len == (s + 1) * hash_len) by (nonlinear_arith);
        assert(data@.len() == data.len());
        let logical: u64 = item_lo + (s as u64) * sector_size;
        if logical >= logical_lo && logical < logical_hi {
            let from: usize = s * hash_len;
            let csum = bytes::copy_range(data, from, from + hash_len);
            let ghost before = entries@;
            let ghost bytes = csum@;
            entries.push(CsumEntry { logical, csum });
            assert(pairs(entries@) =~= pairs(before).push((logical, bytes)));
        }
        proof {
            let ghost_s = s + 1;
            assert(ghost_s - 1 == s);
            assert(item_pairs(
                item_lo,
                data@,
                hash_len as int,
                sector_size as int,
                logical_lo,
                logical_hi,
                ghost_s,
            ) == ({
                let before = item_pairs(
                    item_lo,
                    data@,
                    hash_len as int,
                    sector_size as int,
                    logical_lo,
                    logical_hi,
                    s as int,
                );
                if logical_lo <= logical < logical_hi {
                    before.push((logical, data@.subrange(s * hash_len, s * hash_len + hash_len)))
                } else {
                    before
                }
            }));
        }
        s = s + 1;
        assert(pairs(entries@) =~= start + item_pairs(
            item_lo,
            data@,
            hash_len as int,
            sector_size as int,
            logical_lo,
            logical_hi,
            s as int,
        ));
    }
}

/// No checksum of a range is pruned away: the item that holds the checksum of an
/// address in `[lo, hi)` has its key between the keys that the walk is pruned
/// to, however far before `lo` it starts.
pub proof fn law_range_keeps_reaching_items(
    node_size: usize,
    hash_len: usize,
    sector_size: u64,
    lo: u64,
    hi: u64,
    item_lo: u64,
    item_len: nat,
    logical: u64,
)
    requires
        hash_len > 0,
        sector_size > 0,
        item_len <= node_size,
        lo <= logical < hi,
        item_lo <= logical < item_lo + (item_len as int / hash_len as int) * sector_size as int,
    ensures
        range_low(lo, max_item_span(node_size, hash_len, sector_size)) <= item_lo < hi,
{
    let n = item_len as int / hash_len as int;
    let m = node_size as int / hash_len as int;
    assert(n <= m) by (nonlinear_arith)
        requires
            n == item_len as int / hash_len as int,
            m == node_size as int / hash_len as int,
            item_len <= node_size,
            hash_len > 0,
    ;
    assert(n * sector_size <= m * sector_size) by (nonlinear_arith)
        requires
            n <= m,
            sector_size > 0,
    ;
}

/// `p` is checksum `s` of item `i` of the leaf, and lies in `[lo, hi)`.
pub open spec fn checksum_in_leaf(
    leaf: Leaf,
    i: int,
    s: int,
    hash_len: int,
    sector_size: int,
    lo: u64,
    hi: u64,
    p: (u64, Seq<u8>),
) -> bool {
    let logical = leaf.slots@[i].key.offset + s * sector_size;
    &&& 0 <= i < leaf.slots@.len()
    &&& leaf.slots@[i].key.ty == key_type::EXTENT_CSUM
    &&& 0 <= s < leaf.item(i).len() as int / hash_len
    &&& lo <= logical < hi
    &&& p == (
        logical as u64,
        leaf.item(i).subrange(s * hash_len, s * hash_len + hash_len),
    )
}

/// Some leaf that was visited holds the checksum.
pub open spec fn checksum_visited(
    visits: Seq<Visit>,
    hash_len: int,
    sector_size: int,
    lo: u64,
    hi: u64,
    p: (u64, Seq<u8>),
) -> bool {
    exists|k: int, i: int, s: int|
        0 <= k < visits.len() && visits[k].step is Leaf && #[trigger] checksum_in_leaf(
            visits[k].step->leaf,
            i,
            s,
            hash_len,
            sector_size,
            lo,
            hi,
            p,
        )
}

proof fn lemma_item_pairs(
    leaf: Leaf,
    i: int,
    hash_len: int,
    sector_size: int,
    lo: u64,
    hi: u64,
    n: int,
    p: (u64, Seq<u8>),
)
    requires
        0 <= i < leaf.slots@.len(),
        leaf.slots@[i].key.ty == key_type::EXTENT_CSUM,
        n <= leaf.item(i).len() as int / hash_len,
    ensures
        item_pairs(
            leaf.slots@[i].key.offset,
            leaf.item(i),
            hash_len,
            sector_size,
            lo,
            hi,
            n,
        ).contains(p) <==> exists|s: int|
            s < n && #[trigger] checksum_in_leaf(leaf, i, s, hash_len, sector_size, lo, hi, p),
    decreases n,
{
    let item_lo = leaf.slots@[i].key.offset;
    let all = item_pairs(item_lo, leaf.item(i), hash_len, sector_size, lo, hi, n);
    if n > 0 {
        lemma_item_pairs(leaf, i, hash_len, sector_size, lo, hi, n - 1, p);
        let before = item_pairs(item_lo, leaf.item(i), hash_len, sector_size, lo, hi, n - 1);
        let logical = item_lo + (n - 1) * sector_size;
        if lo <= logical < hi {
            let last = (
                logical as u64,
                leaf.item(i).subrange((n - 1) * hash_len, (n - 1) * hash_len + hash_len),
            );
            assert(all == before.push(last));
            lemma_push_contains(before, last, p);
            if p == last {
                assert(checksum_in_leaf(leaf, i, n - 1, hash_len, sector_size, lo, hi, p));
            }
        }
    }
}

proof fn lemma_push_contains(
    before: Seq<(u64, Seq<u8>)>,
    last: (u64, Seq<u8>),
    p: (u64, Seq<u8>),
)
    ensures
        before.push(last).contains(p) <==> before.contains(p) || p == last,
{
    let all = before.push(last);
    if before.contains(p) {
        let j = choose|j: int| 0 <= j < before.len() && before[j] == p;
        assert(all[j] == p);
    }
    if p == last {
        assert(all[before.len() as int] == p);
    }
    if all.contains(p) {
        let j = choose|j: int| 0 <= j < all.len() && all[j] == p;
        if j < before.len() {
            assert(before[j] == p);
        }
    }
}

proof fn lemma_joined_contains(
    a: Seq<(u64, Seq<u8>)>,
    b: Seq<(u64, Seq<u8>)>,
    p: (u64, Seq<u8>),
)
    ensures
        (a + b).contains(p) <==> a.contains(p) || b.contains(p),
{
    let all = a + b;
    if a.contains(p) {
        let j = choose|j: int| 0 <= j < a.len() && a[j] == p;
        assert(all[j] == p);
    }
    if b.contains(p) {
        let j = choose|j: int| 0 <= j < b.len() && b[j] == p;
        assert(all[a.len() + j] == p);
    }
    if all.contains(p) {
        let j = choose|j: int| 0 <= j < all.len() && all[j] == p;
        if j < a.len() {
            assert(a[j] == p);
        } else {
            assert(b[j - a.len()] == p);
        }
    }
}

proof fn lemma_leaf_pairs(
    leaf: Leaf,
    hash_len: int,
    sector_size: int,
    lo: u64,
    hi: u64,
    k: int,
    p: (u64, Seq<u8>),
)
    requires
        k <= leaf.slots@.len(),
    ensures
        leaf_pairs(leaf, hash_len, sector_size, lo, hi, k).contains(p) <==> exists|i: int, s: int|
            i < k && #[trigger] checksum_in_leaf(leaf, i, s, hash_len, sector_size, lo, hi, p),
    decreases k,
{
    if k > 0 {
        lemma_leaf_pairs(leaf, hash_len, sector_size, lo, hi, k - 1, p);
        if leaf.slots@[k - 1].key.ty == key_type::EXTENT_CSUM {
            let n = leaf.item(k - 1).len() as int / hash_len;
            let before = leaf_pairs(leaf, hash_len, sector_size, lo, hi, k - 1);
            let item = item_pairs(
                leaf.slots@[k - 1].key.offset,
                leaf.item(k - 1),
                hash_len,
                sector_size,
                lo,
                hi,
                n,
            );
            lemma_item_pairs(leaf, k - 1, hash_len, sector_size, lo, hi, n, p);
            lemma_joined_contains(before, item, p);
        }
    }
}

proof fn lemma_visit_pairs(
    visits: Seq<Visit>,
    hash_len: int,
    sector_size: int,
    lo: u64,
    hi: u64,
    p: (u64, Seq<u8>),
)
    ensures
        visit_pairs(visits, hash_len, sector_size, lo, hi).contains(p) <==> checksum_visited(
            visits,
            hash_len,
            sector_size,
            lo,
            hi,
            p,
        ),
    decreases visits.len(),
{
    if visits.len() > 0 {
        let rest = visits.drop_last();
        let last = visits.len() - 1;
        lemma_visit_pairs(rest, hash_len, sector_size, lo, hi, p);
        match visits.last().step {
            WalkStep::Leaf { leaf, .. } => {
                lemma_leaf_pairs(
                    leaf,
                    hash_len,
                    sector_size,
                    lo,
                    hi,
                    leaf.slots@.len() as int,
                    p,
                );
                lemma_joined_contains(
                    visit_pairs(rest, hash_len, sector_size, lo, hi),
                    leaf_pairs(leaf, hash_len, sector_size, lo, hi, leaf.slots@.len() as int),
                    p,
                );
            },
            _ => {},
        }
        if checksum_visited(rest, hash_len, sector_size, lo, hi, p) {
            let (k, i, s) = choose|k: int, i: int, s: int|
                0 <= k < rest.len() && rest[k].step is Leaf && #[trigger] checksum_in_leaf(
                    rest[k].step->leaf,
                    i,
                    s,
                    hash_len,
                    sector_size,
                    lo,
                    hi,
                    p,
                );
            assert(visits[k] == rest[k]);
            assert(checksum_in_leaf(
                visits[k].step->leaf,
                i,
                s,
                hash_len,
                sector_size,
                lo,
                hi,
                p,
            ));
        }
        if checksum_visited(visits, hash_len, sector_size, lo, hi, p) {
            let (k, i, s) = choose|k: int, i: int, s: int|
                0 <= k < visits.len() && visits[k].step is Leaf && #[trigger] checksum_in_leaf(
                    visits[k].step->leaf,
                    i,
                    s,
                    hash_len,
                    sector_size,
                    lo,
                    hi,
                    p,
                );
            if k < last {
                assert(rest[k] == visits[k]);
                assert(checksum_in_leaf(
                    rest[k].step->leaf,
                    i,
                    s,
                    hash_len,
                    sector_size,
                    lo,
                    hi,
                    p,
                ));
            }
        }
        if visits.last().step is Leaf && visit_pairs(
            visits,
            hash_len,
            sector_size,
            lo,
            hi,
        ).contains(p) && !checksum_visited(rest, hash_len, sector_size, lo, hi, p) {
            let leaf = visits.last().step->leaf;
            let (i, s) = choose|i: int, s: int|
                i < leaf.slots@.len() && #[trigger] checksum_in_leaf(
                    leaf,
                    i,
                    s,
                    hash_len,
                    sector_size,
                    lo,
                    hi,
                    p,
                );
            assert(checksum_in_leaf(
                visits[last].step->leaf,
                i,
                s,
                hash_len,
                sector_size,
                lo,
                hi,
                p,
            ));
        }
    }
}

/// A range is what the tree holds for it: an address and a checksum are among
/// the entries exactly where a leaf that was visited holds that checksum for
/// that address, and the address lies in the range.
pub proof fn law_range_is_what_the_leaves_hold(
    visits: Seq<Visit>,
    hash_len: int,
    sector_size: int,
    lo: u64,
    hi: u64,
    entries: Seq<CsumEntry>,
    p: (u64, Seq<u8>),
)
    requires
        sorted_pairs(entries, visit_pairs(visits, hash_len, sector_size, lo, hi)),
    ensures
        pairs(entries).contains(p) <==> checksum_visited(
            visits,
            hash_len,
            sector_size,
            lo,
            hi,
            p,
        ),
{
    broadcast use vstd::seq_lib::group_to_multiset_ensures;

    lemma_visit_pairs(visits, hash_len, sector_size, lo, hi, p);
    let of = visit_pairs(visits, hash_len, sector_size, lo, hi);
    let taken = choose|taken: Seq<CsumEntry>|
        {
            &&& #[trigger] pairs(taken) == of
            &&& entries.to_multiset() == taken.to_multiset()
            &&& ascending(taken) ==> entries == taken
        };
    if pairs(entries).contains(p) {
        lemma_same_pairs(entries, taken, p);
    }
    if pairs(taken).contains(p) {
        lemma_same_pairs(taken, entries, p);
    }
}

proof fn lemma_same_pairs(a: Seq<CsumEntry>, b: Seq<CsumEntry>, p: (u64, Seq<u8>))
    requires
        a.to_multiset() == b.to_multiset(),
        pairs(a).contains(p),
    ensures
        pairs(b).contains(p),
{
    broadcast use vstd::seq_lib::group_to_multiset_ensures;

    let j = choose|j: int| 0 <= j < pairs(a).len() && pairs(a)[j] == p;
    assert(a.contains(a[j]));
    assert(a.to_multiset().count(a[j]) > 0);
    assert(b.to_multiset().count(a[j]) > 0);
    assert(b.contains(a[j]));
    let k = choose|k: int| 0 <= k < b.len() && b[k] == a[j];
    assert(pairs(b)[k] == p);
}

/// A range leaves no stored checksum out: over a store that stands still, with
/// the checksum tree a search tree, the walk for `[lo, hi)` visits every
/// EXTENT_CSUM item that holds the checksum of an address in the range, however
/// far before the range the item starts.
pub proof fn law_range_reads_every_stored_checksum<P: Fn(u64, usize) -> Option<Vec<u8>>>(
    provider: LazyCsumProvider,
    reader: FsReader,
    chunk_map: ChunkMap,
    pread: P,
    reads: tree::Reads,
    lo: u64,
    hi: u64,
    visits: Seq<Visit>,
    depth: nat,
    item_lo: u64,
    item_len: nat,
    logical: u64,
)
    requires
        provider.strategy().wf(),
        walk::store_set(reader, chunk_map, pread),
        walk::stands_still(reader, chunk_map, pread, reads),
        walk::walked_so_far(
            reader,
            chunk_map,
            pread,
            provider.csum_root(),
            Some(provider.key_range(lo, hi)),
            visits,
            Seq::<NodeRef>::empty(),
        ),
        tree::in_key_order(reads, tree::root_ref(provider.csum_root()), depth),
        tree::key_under(
            reads,
            None,
            tree::root_ref(provider.csum_root()),
            depth,
            csum_key(item_lo),
        ),
        item_len <= provider.node_size(),
        lo <= logical < hi,
        item_lo <= logical < item_lo + (item_len as int / provider.strategy().hash_len as int)
            * provider.strategy().sector_size as int,
    ensures
        walk::key_visited(visits, csum_key(item_lo)),
{
    let root = tree::root_ref(provider.csum_root());
    let (key_lo, key_hi) = provider.key_range(lo, hi);
    law_range_keeps_reaching_items(
        provider.node_size(),
        provider.strategy().hash_len,
        provider.strategy().sector_size,
        lo,
        hi,
        item_lo,
        item_len,
        logical,
    );
    tree::law_pruned_walk_keeps_the_range(
        reads,
        key_lo,
        key_hi,
        root,
        depth,
        csum_key(item_lo),
    );
    walk::law_walk_of_store_meets_every_key(
        reader,
        chunk_map,
        pread,
        provider.csum_root(),
        Some((key_lo, key_hi)),
        visits,
        reads,
        depth,
        csum_key(item_lo),
    );
}

/// The key of the EXTENT_CSUM item that starts at an address.
pub open spec fn csum_key(item_lo: u64) -> Key {
    Key {
        objectid: objectid::EXTENT_CSUM_OBJECTID,
        ty: key_type::EXTENT_CSUM,
        offset: item_lo,
    }
}

/// Leaves with the same contents hold the same checksums.
proof fn lemma_same_leaf(
    a: Leaf,
    b: Leaf,
    hash_len: int,
    sector_size: int,
    lo: u64,
    hi: u64,
    k: int,
)
    requires
        a.slots@ == b.slots@,
        a.buf@ == b.buf@,
    ensures
        leaf_pairs(a, hash_len, sector_size, lo, hi, k) == leaf_pairs(
            b,
            hash_len,
            sector_size,
            lo,
            hi,
            k,
        ),
    decreases k,
{
    if k > 0 {
        lemma_same_leaf(a, b, hash_len, sector_size, lo, hi, k - 1);
        assert(a.item(k - 1) == b.item(k - 1));
    }
}

/// Visits that came to the same give the same checksums.
proof fn lemma_same_visits(
    a: Seq<Visit>,
    b: Seq<Visit>,
    hash_len: int,
    sector_size: int,
    lo: u64,
    hi: u64,
)
    requires
        a.len() == b.len(),
        forall|j: int| 0 <= j < a.len() ==> walk::same_visit(#[trigger] a[j], b[j]),
    ensures
        visit_pairs(a, hash_len, sector_size, lo, hi) == visit_pairs(
            b,
            hash_len,
            sector_size,
            lo,
            hi,
        ),
    decreases a.len(),
{
    if a.len() > 0 {
        let x = a.drop_last();
        let y = b.drop_last();
        assert forall|j: int| 0 <= j < x.len() implies walk::same_visit(#[trigger] x[j], y[j]) by {
            assert(walk::same_visit(a[j], b[j]));
        }
        lemma_same_visits(x, y, hash_len, sector_size, lo, hi);
        assert(walk::same_visit(a[a.len() - 1], b[b.len() - 1]));
        if a.last().step is Leaf {
            let p = a.last().step->leaf;
            let q = b.last().step->leaf;
            lemma_same_leaf(p, q, hash_len, sector_size, lo, hi, p.slots@.len() as int);
        }
    }
}

/// A failure that was met is counted.
proof fn lemma_met_counts(before: Set<u64>, visits: Seq<Visit>, kind: MetadataKind, k: int)
    requires
        0 <= k < visits.len(),
        tree::failure_of(visits[k].step) == Some(kind),
    ensures
        met(before, visits, kind).contains(visits[k].logical),
    decreases visits.len(),
{
    if k < visits.len() - 1 {
        assert(visits.drop_last()[k] == visits[k]);
        lemma_met_counts(before, visits.drop_last(), kind, k);
    }
}

/// Failures that are counted already change nothing.
proof fn lemma_met_again(before: Set<u64>, visits: Seq<Visit>, kind: MetadataKind)
    requires
        forall|k: int|
            0 <= k < visits.len() && tree::failure_of((#[trigger] visits[k]).step) == Some(kind)
                ==> before.contains(visits[k].logical),
    ensures
        met(before, visits, kind) == before,
    decreases visits.len(),
{
    if visits.len() > 0 {
        let rest = visits.drop_last();
        assert forall|k: int|
            0 <= k < rest.len() && tree::failure_of((#[trigger] rest[k]).step) == Some(
                kind,
            ) implies before.contains(rest[k].logical) by {
            assert(rest[k] == visits[k]);
        }
        lemma_met_again(before, rest, kind);
        let last = visits[visits.len() - 1];
        if tree::failure_of(last.step) == Some(kind) {
            assert(before.insert(last.logical) =~= before);
        }
    }
}

/// Nothing is counted for the first time where every failure is counted already.
proof fn lemma_none_counted(provider: LazyCsumProvider, visits: Seq<Visit>)
    requires
        forall|k: int, kind: MetadataKind|
            0 <= k < visits.len() && tree::failure_of((#[trigger] visits[k]).step) == Some(kind)
                ==> (#[trigger] provider.nodes_of(kind)).contains(visits[k].logical),
    ensures
        provider.newly_counted(visits).len() == 0,
    decreases visits.len(),
{
    if visits.len() > 0 {
        let rest = visits.drop_last();
        assert forall|k: int, kind: MetadataKind|
            0 <= k < rest.len() && tree::failure_of((#[trigger] rest[k]).step) == Some(
                kind,
            ) implies (#[trigger] provider.nodes_of(kind)).contains(rest[k].logical) by {
            assert(rest[k] == visits[k]);
        }
        lemma_none_counted(provider, rest);
        let last = visits[visits.len() - 1];
        match tree::failure_of(last.step) {
            Some(kind) => {
                assert(provider.nodes_of(kind).contains(last.logical));
                lemma_met_again(provider.nodes_of(kind), rest, kind);
            },
            None => {},
        }
    }
}

/// A range that cannot be used stays so: where one of two agreeing walks was cut
/// short at a visit, the other one goes as far and no further.
proof fn lemma_same_length(
    provider: LazyCsumProvider,
    other: LazyCsumProvider,
    a: Seq<Visit>,
    left_a: Seq<NodeRef>,
    b: Seq<Visit>,
    left_b: Seq<NodeRef>,
    lo: u64,
    hi: u64,
    first: Result<RangeRead, RangeError>,
    second: Result<RangeRead, RangeError>,
)
    requires
        other.same_tree(&provider),
        forall|j: int| 0 <= j < a.len() && j < b.len() ==> walk::same_visit(#[trigger] a[j], b[j]),
        left_b.len() == 0 ==> a.len() <= b.len(),
        provider.range_result(a, left_a, lo, hi, first),
        other.range_result(b, left_b, lo, hi, second),
    ensures
        a.len() <= b.len(),
{
    if b.len() < a.len() {
        let hash_len = provider.strategy().hash_len as int;
        let sector_size = provider.strategy().sector_size as int;
        // The second walk was cut short at a visit that the first one went past.
        assert(second is Err);
        let k = b.len() - 1;
        assert(walk::same_visit(a[k], b[k]));
        assert(visit_usable(a[k], hash_len, sector_size)) by {
            if first is Err {
                assert(a.drop_last()[k] == a[k]);
            }
        }
        match second->Err_0 {
            RangeError::Node { .. } => {},
            RangeError::Item { index, .. } => {
                let x = a[k].step->leaf;
                let y = b[k].step->leaf;
                assert(x.slots@[index as int].key.ty == key_type::EXTENT_CSUM);
                assert(x.item(index as int) == y.item(index as int));
                assert(item_usable(x, index as int, hash_len, sector_size));
                assert(item_usable(y, index as int, hash_len, sector_size));
            },
        }
    }
}

/// Two results of one range are the same: the same checksums, or the same
/// refusal.
pub open spec fn same_range(
    a: Result<RangeRead, RangeError>,
    b: Result<RangeRead, RangeError>,
) -> bool {
    match (a, b) {
        (Ok(x), Ok(y)) => pairs(x.entries@) == pairs(y.entries@),
        (Err(x), Err(y)) => x == y,
        _ => false,
    }
}

/// Over a store that stands still, a range asked for again gives what it gave
/// before, and counts nothing anew: each failing node counts once, however often
/// ranges overlap.
pub proof fn law_repeated_range_counts_nothing<P: Fn(u64, usize) -> Option<Vec<u8>>>(
    reader: FsReader,
    chunk_map: ChunkMap,
    pread: P,
    reads: tree::Reads,
    start: LazyCsumProvider,
    between: LazyCsumProvider,
    end: LazyCsumProvider,
    lo: u64,
    hi: u64,
    a: Seq<Visit>,
    left_a: Seq<NodeRef>,
    first: Result<RangeRead, RangeError>,
    b: Seq<Visit>,
    left_b: Seq<NodeRef>,
    second: Result<RangeRead, RangeError>,
)
    requires
        walk::store_set(reader, chunk_map, pread),
        walk::stands_still(reader, chunk_map, pread, reads),
        between.same_tree(&start),
        walk::walked_so_far(
            reader,
            chunk_map,
            pread,
            start.csum_root(),
            Some(start.key_range(lo, hi)),
            a,
            left_a,
        ),
        between.counted_over(start, a),
        start.range_result(a, left_a, lo, hi, first),
        walk::walked_so_far(
            reader,
            chunk_map,
            pread,
            between.csum_root(),
            Some(between.key_range(lo, hi)),
            b,
            left_b,
        ),
        end.counted_over(between, b),
        between.range_result(b, left_b, lo, hi, second),
    ensures
        same_range(first, second),
        forall|kind: MetadataKind| #[trigger] end.nodes_of(kind) == between.nodes_of(kind),
        second matches Ok(read) ==> read.counted@.len() == 0,
{
    let hash_len = start.strategy().hash_len as int;
    let sector_size = start.strategy().sector_size as int;
    walk::law_walks_of_still_store_agree(
        reader,
        chunk_map,
        pread,
        start.csum_root(),
        Some(start.key_range(lo, hi)),
        reads,
        a,
        left_a,
        b,
        left_b,
    );
    assert forall|j: int| 0 <= j < b.len() && j < a.len() implies walk::same_visit(
        #[trigger] b[j],
        a[j],
    ) by {
        assert(walk::same_visit(a[j], b[j]));
    }
    lemma_same_length(start, between, a, left_a, b, left_b, lo, hi, first, second);
    lemma_same_length(between, start, b, left_b, a, left_a, lo, hi, second, first);
    lemma_same_visits(a, b, hash_len, sector_size, lo, hi);
    assert forall|k: int, kind: MetadataKind|
        0 <= k < b.len() && tree::failure_of((#[trigger] b[k]).step) == Some(kind) implies (
    #[trigger] between.nodes_of(kind)).contains(b[k].logical) by {
        assert(walk::same_visit(a[k], b[k]));
        lemma_met_counts(start.nodes_of(kind), a, kind, k);
    }
    assert forall|kind: MetadataKind| #[trigger] end.nodes_of(kind) == between.nodes_of(kind) by {
        lemma_met_again(between.nodes_of(kind), b, kind);
    }
    lemma_none_counted(between, b);
    if a.len() > 0 {
        assert(walk::same_visit(a[a.len() - 1], b[b.len() - 1]));
    }
    lemma_same_refusal(start, between, a, left_a, b, left_b, lo, hi, first, second);
}

/// Agreeing walks of the same length are refused alike.
proof fn lemma_same_refusal(
    provider: LazyCsumProvider,
    other: LazyCsumProvider,
    a: Seq<Visit>,
    left_a: Seq<NodeRef>,
    b: Seq<Visit>,
    left_b: Seq<NodeRef>,
    lo: u64,
    hi: u64,
    first: Result<RangeRead, RangeError>,
    second: Result<RangeRead, RangeError>,
)
    requires
        other.same_tree(&provider),
        a.len() == b.len(),
        forall|j: int| 0 <= j < a.len() ==> walk::same_visit(#[trigger] a[j], b[j]),
        provider.range_result(a, left_a, lo, hi, first),
        other.range_result(b, left_b, lo, hi, second),
        first is Ok && second is Ok ==> same_range(first, second),
    ensures
        same_range(first, second),
{
    let hash_len = provider.strategy().hash_len as int;
    let sector_size = provider.strategy().sector_size as int;
    if a.len() > 0 {
        let k = a.len() - 1;
        assert(walk::same_visit(a[k], b[k]));
        if a[k].step is Leaf {
            let x = a[k].step->leaf;
            let y = b[k].step->leaf;
            assert forall|i: int| 0 <= i < x.slots@.len() implies #[trigger] item_usable(
                x,
                i,
                hash_len,
                sector_size,
            ) == item_usable(y, i, hash_len, sector_size) by {
                assert(x.item(i) == y.item(i));
            }
            match (first, second) {
                (
                    Err(RangeError::Item { index: i, .. }),
                    Err(RangeError::Item { index: j, .. }),
                ) => {
                    assert(x.slots@[i as int] == y.slots@[i as int]);
                    assert(x.slots@[j as int] == y.slots@[j as int]);
                },
                (Err(RangeError::Item { index: i, .. }), Ok(_)) => {
                    assert(visit_usable(b[k], hash_len, sector_size));
                    assert(y.slots@[i as int].key.ty == key_type::EXTENT_CSUM);
                },
                (Ok(_), Err(RangeError::Item { index: j, .. })) => {
                    assert(visit_usable(a[k], hash_len, sector_size));
                    assert(x.slots@[j as int].key.ty == key_type::EXTENT_CSUM);
                },
                _ => {},
            }
        } else {
            if first is Ok {
                assert(visit_usable(a[k], hash_len, sector_size));
            }
            if second is Ok {
                assert(visit_usable(b[k], hash_len, sector_size));
            }
        }
    }
}

} // verus!
