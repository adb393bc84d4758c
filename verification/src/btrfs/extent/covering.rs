//! Which item of the extent tree decides whether an address is covered.

use vstd::prelude::*;

use crate::btrfs::chunk::ChunkMap;
use crate::btrfs::extent;
use crate::btrfs::extent::extent_flag;
use crate::btrfs::extent::{Branch, ExtentLookup, Phase, ReconfirmWalk};
use crate::btrfs::key;
use crate::btrfs::key::key_type;
use crate::btrfs::key::{Key, KeyPtr};
use crate::btrfs::node::{Leaf, LeafItemSlot, Node};
use crate::btrfs::reader::{FsReader, ReadError, ReadNodeResult};
use crate::btrfs::util;
use crate::fs::Reconfirm;

verus! {

/// What a node of the tree holds: child pointers, or item slots and the bytes
/// they point into.
pub enum Contents {
    Internal(Seq<KeyPtr>),
    Leaf(Seq<LeafItemSlot>, Seq<u8>),
}

/// An item of the tree. One that runs past its leaf has no data.
pub struct Item {
    pub key: Key,
    pub data: Option<Seq<u8>>,
}

/// What is held at each address.
pub type Tree = spec_fn(u64) -> Contents;

/// The entries of a node, and a leaf's bytes; the search does not read headers.
pub open spec fn contents(node: Node) -> Contents {
    match node {
        Node::Internal(internal) => Contents::Internal(internal.ptrs@),
        Node::Leaf(leaf) => Contents::Leaf(leaf.slots@, leaf.buf@),
    }
}

pub open spec fn item_of(slots: Seq<LeafItemSlot>, buf: Seq<u8>, i: int) -> Item {
    let start = 101 + slots[i].data_offset;
    Item {
        key: slots[i].key,
        data: if start + slots[i].data_size <= buf.len() {
            Some(buf.subrange(start, start + slots[i].data_size))
        } else {
            None
        },
    }
}

/// The items under a node at most `h` levels above its leaves, in the order of
/// the tree.
pub open spec fn items_under(tree: Tree, at: u64, h: nat) -> Seq<Item>
    decreases h, 0nat,
{
    match tree(at) {
        Contents::Leaf(slots, buf) => Seq::new(slots.len(), |i: int| item_of(slots, buf, i)),
        Contents::Internal(ptrs) => if h == 0 {
            Seq::empty()
        } else {
            items_upto(tree, ptrs, (h - 1) as nat, ptrs.len())
        },
    }
}

/// The items under the first `n` of these children.
pub open spec fn items_upto(tree: Tree, ptrs: Seq<KeyPtr>, h: nat, n: nat) -> Seq<Item>
    decreases h, n + 1,
{
    if n == 0 {
        Seq::empty()
    } else {
        items_upto(tree, ptrs, h, (n - 1) as nat) + items_under(tree, ptrs[n - 1].blockptr, h)
    }
}

/// The store holds this tree under `at`, in key order and with its leaves at most
/// `h` levels down: every read of a node gives what the tree holds there, the
/// keys of a node ascend, and what stands under a child pointer comes at or
/// after its key.
pub open spec fn holds_tree<P: Fn(u64, usize) -> Option<Vec<u8>>>(
    reader: FsReader,
    chunk_map: ChunkMap,
    pread: P,
    tree: Tree,
    at: u64,
    h: nat,
) -> bool
    decreases h,
{
    &&& forall|got: Result<ReadNodeResult, ReadError>| #[trigger]
        extent::live_node_read(reader, chunk_map, pread, at, got) ==> extent::node_in(got) is Some
            && contents(extent::node_in(got).unwrap()) == tree(at)
    &&& match tree(at) {
        Contents::Leaf(slots, _) => forall|i: int, j: int|
            0 <= i <= j < slots.len() ==> key::key_le(
                (#[trigger] slots[i]).key,
                (#[trigger] slots[j]).key,
            ),
        Contents::Internal(ptrs) => {
            &&& h > 0
            &&& forall|i: int, j: int|
                0 <= i <= j < ptrs.len() ==> key::key_le(
                    (#[trigger] ptrs[i]).key,
                    (#[trigger] ptrs[j]).key,
                )
            &&& forall|i: int|
                0 <= i < ptrs.len() ==> child_in_order(tree, #[trigger] ptrs[i], (h - 1) as nat)
            &&& forall|i: int|
                0 <= i < ptrs.len() ==> holds_tree(
                    reader,
                    chunk_map,
                    pread,
                    tree,
                    (#[trigger] ptrs[i]).blockptr,
                    (h - 1) as nat,
                )
        },
    }
}

/// What stands under the child pointer comes at or after its key.
pub open spec fn child_in_order(tree: Tree, ptr: KeyPtr, h: nat) -> bool {
    forall|k: int|
        0 <= k < items_under(tree, ptr.blockptr, h).len() ==> key::key_le(
            ptr.key,
            (#[trigger] items_under(tree, ptr.blockptr, h)[k]).key,
        )
}

/// The item is an EXTENT_ITEM at or before `target`.
pub open spec fn is_candidate(item: Item, target: Key) -> bool {
    item.key.ty == key_type::EXTENT_ITEM && key::key_le(item.key, target)
}

/// The last EXTENT_ITEM at or before `target`.
pub open spec fn last_candidate(items: Seq<Item>, target: Key) -> Option<Item>
    decreases items.len(),
{
    if items.len() == 0 {
        None
    } else if is_candidate(items.last(), target) {
        Some(items.last())
    } else {
        last_candidate(items.drop_last(), target)
    }
}

/// The extent ends at or before the address.
pub open spec fn ends_before(item: Item, logical: u64) -> bool {
    item.key.objectid + item.key.offset <= logical
}

/// The flags of the extent (bytes 16..24) carry NODATASUM.
pub open spec fn flagged_nodatasum(data: Seq<u8>) -> bool {
    data.len() >= 24 && util::le64(data, 16) & extent_flag::NODATASUM != 0
}

/// `r` is what the checksum tree decides of the sector.
pub open spec fn checksum_decides<P: Fn(u64, usize) -> Option<Vec<u8>>>(
    reader: FsReader,
    chunk_map: ChunkMap,
    pread: P,
    csum_root: u64,
    logical: u64,
    stored: Seq<u8>,
    hash_len: usize,
    sector_size: u64,
    r: Option<Reconfirm>,
) -> bool {
    exists|states: Seq<ReconfirmWalk>|
        {
            &&& #[trigger] extent::descent(reader, chunk_map, pread, states)
            &&& states[0].phase == (Phase::Csum { node: csum_root, depth: 0 })
            &&& states[0].logical == logical
            &&& states[0].stored@ == stored
            &&& states[0].hash_len == hash_len
            &&& states[0].sector_size == sector_size
            &&& extent::settled(reader, chunk_map, pread, states.last(), r)
        }
}

proof fn lemma_last_candidate_adds(s: Seq<Item>, t: Seq<Item>, target: Key)
    ensures
        last_candidate(s + t, target) == (match last_candidate(t, target) {
            Some(item) => Some(item),
            None => last_candidate(s, target),
        }),
    decreases t.len(),
{
    if t.len() == 0 {
        assert(s + t == s);
    } else {
        lemma_last_candidate_adds(s, t.drop_last(), target);
        assert((s + t).drop_last() == s + t.drop_last());
        assert((s + t).last() == t.last());
    }
}

proof fn lemma_none_is_candidate(items: Seq<Item>, target: Key)
    requires
        forall|k: int| 0 <= k < items.len() ==> !is_candidate(#[trigger] items[k], target),
    ensures
        last_candidate(items, target) is None,
    decreases items.len(),
{
    if items.len() > 0 {
        lemma_none_is_candidate(items.drop_last(), target);
    }
}

proof fn lemma_last_is_candidate(items: Seq<Item>, target: Key, i: int)
    requires
        0 <= i < items.len(),
        is_candidate(items[i], target),
        forall|k: int| i < k < items.len() ==> !is_candidate(#[trigger] items[k], target),
    ensures
        last_candidate(items, target) == Some(items[i]),
    decreases items.len(),
{
    if i < items.len() - 1 {
        lemma_last_is_candidate(items.drop_last(), target, i);
    }
}

/// Children after the target hold no candidate.
proof fn lemma_later_children(tree: Tree, ptrs: Seq<KeyPtr>, h: nat, target: Key, n: nat, m: nat)
    requires
        n <= m <= ptrs.len(),
        extent::leads(extent::ptr_keys(ptrs), target, n as int),
        forall|i: int, j: int|
            0 <= i <= j < ptrs.len() ==> key::key_le(
                (#[trigger] ptrs[i]).key,
                (#[trigger] ptrs[j]).key,
            ),
        forall|i: int| 0 <= i < ptrs.len() ==> child_in_order(tree, #[trigger] ptrs[i], h),
    ensures
        last_candidate(items_upto(tree, ptrs, h, m), target) == last_candidate(
            items_upto(tree, ptrs, h, n),
            target,
        ),
    decreases m,
{
    if n < m {
        lemma_later_children(tree, ptrs, h, target, n, (m - 1) as nat);
        let child = ptrs[m - 1];
        let items = items_under(tree, child.blockptr, h);
        assert(child_in_order(tree, child, h));
        assert(!key::key_le(extent::ptr_keys(ptrs)[n as int], target));
        assert(key::key_le(ptrs[n as int].key, ptrs[m - 1].key));
        assert forall|k: int| 0 <= k < items.len() implies !is_candidate(
            #[trigger] items[k],
            target,
        ) by {
            assert(key::key_le(child.key, items[k].key));
        }
        lemma_none_is_candidate(items, target);
        lemma_last_candidate_adds(items_upto(tree, ptrs, h, (m - 1) as nat), items, target);
    }
}

/// The items under these branches, in the order of the tree.
pub open spec fn items_left(tree: Tree, left: Seq<Branch>) -> Seq<Item>
    decreases left.len(),
{
    if left.len() == 0 {
        Seq::empty()
    } else {
        items_left(tree, left.drop_last()) + items_under(
            tree,
            left.last().node,
            (15 - left.last().depth) as nat,
        )
    }
}

proof fn lemma_branches_hold_children(
    tree: Tree,
    left: Seq<Branch>,
    ptrs: Seq<KeyPtr>,
    depth: int,
    n: nat,
)
    requires
        n <= ptrs.len(),
        0 <= depth <= 15,
    ensures
        items_left(
            tree,
            left + extent::branches(extent::leading_children(ptrs, n as int), depth),
        ) == items_left(tree, left) + items_upto(tree, ptrs, (15 - depth) as nat, n),
    decreases n,
{
    let all = left + extent::branches(extent::leading_children(ptrs, n as int), depth);
    if n == 0 {
        assert(all == left);
        assert(items_left(tree, left) + Seq::<Item>::empty() == items_left(tree, left));
    } else {
        lemma_branches_hold_children(tree, left, ptrs, depth, (n - 1) as nat);
        assert(all.drop_last() == left + extent::branches(extent::leading_children(ptrs, n - 1), depth));
        assert(all.last().node == ptrs[n - 1].blockptr);
        assert(all.last().depth == depth);
        let before = items_left(tree, left);
        let most = items_upto(tree, ptrs, (15 - depth) as nat, (n - 1) as nat);
        let last = items_under(tree, ptrs[n - 1].blockptr, (15 - depth) as nat);
        assert((before + most) + last == before + (most + last));
    }
}

/// The branches that a search has before it: those left, and the one it reads.
spec fn ahead(walk: ReconfirmWalk) -> Seq<Branch> {
    match walk.phase {
        Phase::Extent { node, depth } => walk.left@.push(Branch { node, depth }),
        _ => walk.left@,
    }
}

/// The search goes on over branches of the tree, and the item sought is the last
/// candidate under them.
spec fn searching<P: Fn(u64, usize) -> Option<Vec<u8>>>(
    reader: FsReader,
    chunk_map: ChunkMap,
    pread: P,
    tree: Tree,
    left: Seq<Branch>,
    target: Key,
    sought: Option<Item>,
) -> bool {
    &&& forall|i: int|
        0 <= i < left.len() ==> (#[trigger] left[i]).depth <= 15 && holds_tree(
            reader,
            chunk_map,
            pread,
            tree,
            left[i].node,
            (15 - left[i].depth) as nat,
        )
    &&& last_candidate(items_left(tree, left), target) == sought
}

/// The last candidate of a leaf is what its answer rests on.
proof fn lemma_leaf_answers(leaf: Leaf, logical: u64, n: int)
    requires
        extent::leads(extent::slot_keys(leaf.slots@), extent::extent_target(logical), n),
        forall|i: int, j: int|
            0 <= i <= j < leaf.slots@.len() ==> key::key_le(
                (#[trigger] leaf.slots@[i]).key,
                (#[trigger] leaf.slots@[j]).key,
            ),
    ensures
        ({
            let items = Seq::new(
                leaf.slots@.len(),
                |i: int| item_of(leaf.slots@, leaf.buf@, i),
            );
            &&& extent::no_extent_item(leaf, n) ==> last_candidate(
                items,
                extent::extent_target(logical),
            ) is None
            &&& forall|i: int| #[trigger]
                extent::last_extent_item(leaf, n, i) ==> last_candidate(items, extent::extent_target(logical))
                    == Some(item_of(leaf.slots@, leaf.buf@, i))
        }),
{
    let target = extent::extent_target(logical);
    let keys = extent::slot_keys(leaf.slots@);
    let items = Seq::new(leaf.slots@.len(), |i: int| item_of(leaf.slots@, leaf.buf@, i));
    assert forall|k: int| n <= k < items.len() implies !is_candidate(
        #[trigger] items[k],
        target,
    ) by {
        assert(!key::key_le(keys[n], target));
        assert(key::key_le(leaf.slots@[n].key, leaf.slots@[k].key));
    }
    if extent::no_extent_item(leaf, n) {
        assert forall|k: int| 0 <= k < items.len() implies !is_candidate(
            #[trigger] items[k],
            target,
        ) by {
            if k < n {
                assert(leaf.slots@[k].key.ty != key_type::EXTENT_ITEM);
            }
        }
        lemma_none_is_candidate(items, target);
    }
    assert forall|i: int| #[trigger] extent::last_extent_item(leaf, n, i) implies last_candidate(
        items,
        target,
    ) == Some(item_of(leaf.slots@, leaf.buf@, i)) by {
        assert(key::key_le(keys[i], target));
        assert(is_candidate(items[i], target));
        assert forall|k: int| i < k < items.len() implies !is_candidate(
            #[trigger] items[k],
            target,
        ) by {
            if k < n {
                assert(leaf.slots@[k].key.ty != key_type::EXTENT_ITEM);
            }
        }
        lemma_last_is_candidate(items, target, i);
    }
}

/// Under an internal node only the leading children matter.
proof fn lemma_down<P: Fn(u64, usize) -> Option<Vec<u8>>>(
    reader: FsReader,
    chunk_map: ChunkMap,
    pread: P,
    tree: Tree,
    left: Seq<Branch>,
    at: u64,
    depth: usize,
    ptrs: Seq<KeyPtr>,
    n: int,
    target: Key,
    sought: Option<Item>,
)
    requires
        searching(
            reader,
            chunk_map,
            pread,
            tree,
            left.push(Branch { node: at, depth }),
            target,
            sought,
        ),
        tree(at) == Contents::Internal(ptrs),
        extent::leads(extent::ptr_keys(ptrs), target, n),
    ensures
        searching(
            reader,
            chunk_map,
            pread,
            tree,
            left + extent::branches(extent::leading_children(ptrs, n), depth + 1),
            target,
            sought,
        ),
{
    let all = left.push(Branch { node: at, depth });
    let h = (15 - depth) as nat;
    assert(all[all.len() - 1].node == at);
    assert(holds_tree(reader, chunk_map, pread, tree, at, h));
    assert(all.drop_last() == left);
    let items = items_under(tree, at, h);
    let earlier = items_left(tree, left);
    assert(items_left(tree, all) == earlier + items);
    lemma_last_candidate_adds(earlier, items, target);
    lemma_later_children(tree, ptrs, (h - 1) as nat, target, n as nat, ptrs.len());
    lemma_branches_hold_children(tree, left, ptrs, depth + 1, n as nat);
    let kept = items_upto(tree, ptrs, (h - 1) as nat, n as nat);
    lemma_last_candidate_adds(earlier, kept, target);
    let more = left + extent::branches(extent::leading_children(ptrs, n), depth + 1);
    assert forall|i: int| 0 <= i < more.len() implies (#[trigger] more[i]).depth <= 15
        && holds_tree(
        reader,
        chunk_map,
        pread,
        tree,
        more[i].node,
        (15 - more[i].depth) as nat,
    ) by {
        if i < left.len() {
            assert(more[i] == all[i]);
        } else {
            let c = i - left.len();
            assert(more[i].node == ptrs[c].blockptr);
        }
    }
}

/// A leaf without a candidate takes the search back to what comes before it.
proof fn lemma_back<P: Fn(u64, usize) -> Option<Vec<u8>>>(
    reader: FsReader,
    chunk_map: ChunkMap,
    pread: P,
    tree: Tree,
    left: Seq<Branch>,
    at: u64,
    depth: usize,
    target: Key,
    sought: Option<Item>,
)
    requires
        searching(
            reader,
            chunk_map,
            pread,
            tree,
            left.push(Branch { node: at, depth }),
            target,
            sought,
        ),
        last_candidate(items_under(tree, at, (15 - depth) as nat), target) is None,
    ensures
        searching(reader, chunk_map, pread, tree, left, target, sought),
{
    let all = left.push(Branch { node: at, depth });
    assert(all.drop_last() == left);
    lemma_last_candidate_adds(
        items_left(tree, left),
        items_under(tree, at, (15 - depth) as nat),
        target,
    );
    assert forall|i: int| 0 <= i < left.len() implies (#[trigger] left[i]).depth <= 15
        && holds_tree(
        reader,
        chunk_map,
        pread,
        tree,
        left[i].node,
        (15 - left[i].depth) as nat,
    ) by {
        assert(left[i] == all[i]);
    }
}

/// The last branch left is taken up next; where none is left there is no
/// candidate.
proof fn lemma_taken_up<P: Fn(u64, usize) -> Option<Vec<u8>>>(
    reader: FsReader,
    chunk_map: ChunkMap,
    pread: P,
    tree: Tree,
    left: Seq<Branch>,
    after: ReconfirmWalk,
    target: Key,
    sought: Option<Item>,
)
    requires
        searching(reader, chunk_map, pread, tree, left, target, sought),
        after.phase == extent::goes_on(left),
        after.left@ == extent::without_last(left),
    ensures
        if left.len() > 0 {
            &&& after.phase is Extent
            &&& searching(reader, chunk_map, pread, tree, ahead(after), target, sought)
        } else {
            &&& after.phase == Phase::Done(Reconfirm::Stale)
            &&& sought is None
        },
{
    if left.len() > 0 {
        assert(left[left.len() - 1].depth <= 15);
        assert(ahead(after) == left);
    }
}

/// One node more of the extent tree: the search goes on, or the item sought has
/// decided.
proof fn lemma_search_step<P: Fn(u64, usize) -> Option<Vec<u8>>>(
    reader: FsReader,
    chunk_map: ChunkMap,
    pread: P,
    tree: Tree,
    before: ReconfirmWalk,
    after: ReconfirmWalk,
    sought: Option<Item>,
)
    requires
        before.phase is Extent,
        extent::read_on(reader, chunk_map, pread, before, after),
        searching(
            reader,
            chunk_map,
            pread,
            tree,
            ahead(before),
            extent::extent_target(before.logical),
            sought,
        ),
    ensures
        match after.phase {
            Phase::Extent { .. } => searching(
                reader,
                chunk_map,
                pread,
                tree,
                ahead(after),
                extent::extent_target(before.logical),
                sought,
            ),
            Phase::Csum { node, depth } => {
                &&& node == before.csum_root
                &&& depth == 0
                &&& sought matches Some(item) && !ends_before(item, before.logical) && (
                item.data matches Some(data) && !flagged_nodatasum(data))
            },
            Phase::OutOfBounds => sought matches Some(item) && !ends_before(item, before.logical)
                && item.data is None,
            Phase::Done(verdict) => {
                &&& verdict == Reconfirm::Stale
                &&& sought matches Some(item) ==> ends_before(item, before.logical) || (
                item.data matches Some(data) && flagged_nodatasum(data))
            },
        },
{
    let target = extent::extent_target(before.logical);
    let depth = before.phase->Extent_depth;
    let at = before.phase->Extent_node;
    let all = ahead(before);
    let here = all.last();
    assert(all[all.len() - 1] == here);
    assert(all.drop_last() == before.left@);
    let h = (15 - depth) as nat;
    let got = choose|got: Result<ReadNodeResult, ReadError>|
        {
            &&& before.wants() is Some
            &&& #[trigger] extent::live_node_read(
                reader,
                chunk_map,
                pread,
                before.wants().unwrap(),
                got,
            )
            &&& before.follows(extent::node_in(got), after)
        };
    assert(extent::live_node_read(reader, chunk_map, pread, at, got));
    assert(holds_tree(reader, chunk_map, pread, tree, at, h));
    let node = extent::node_in(got).unwrap();
    assert(contents(node) == tree(at));
    assert(before.extent_next(depth, extent::node_in(got), after));
    let a = choose|a: ExtentLookup|
        #[trigger] extent::extent_answer(node, before.logical, a) && before.extent_taken(depth, a, after);
    let items = items_under(tree, at, h);
    match node {
        Node::Internal(internal) => {
            let ptrs = internal.ptrs@;
            let n = choose|n: int|
                {
                    &&& #[trigger] extent::leads(extent::ptr_keys(ptrs), target, n)
                    &&& a matches ExtentLookup::Under(c) && c@ == extent::leading_children(ptrs, n)
                };
            lemma_down(
                reader,
                chunk_map,
                pread,
                tree,
                before.left@,
                at,
                depth,
                ptrs,
                n,
                target,
                sought,
            );
            lemma_taken_up(
                reader,
                chunk_map,
                pread,
                tree,
                before.left@ + extent::branches(extent::leading_children(ptrs, n), depth + 1),
                after,
                target,
                sought,
            );
        },
        Node::Leaf(leaf) => {
            let n = choose|n: int|
                {
                    &&& #[trigger] extent::leads(extent::slot_keys(leaf.slots@), target, n)
                    &&& if extent::no_extent_item(leaf, n) {
                        a matches ExtentLookup::Under(c) && c@.len() == 0
                    } else {
                        exists|i: int| #[trigger]
                            extent::last_extent_item(leaf, n, i) && a == extent::item_answer(
                                leaf,
                                i,
                                before.logical,
                            )
                    }
                };
            lemma_leaf_answers(leaf, before.logical, n);
            assert(items == Seq::new(
                leaf.slots@.len(),
                |i: int| item_of(leaf.slots@, leaf.buf@, i),
            ));
            if extent::no_extent_item(leaf, n) {
                assert(a is Under);
                let none = a->Under_0@;
                assert(before.left@ + extent::branches(none, depth + 1) == before.left@);
                lemma_back(reader, chunk_map, pread, tree, before.left@, at, depth, target, sought);
                lemma_taken_up(
                    reader,
                    chunk_map,
                    pread,
                    tree,
                    before.left@,
                    after,
                    target,
                    sought,
                );
            } else {
                let i = choose|i: int| #[trigger]
                    extent::last_extent_item(leaf, n, i) && a == extent::item_answer(leaf, i, before.logical);
                let earlier = items_left(tree, before.left@);
                lemma_last_candidate_adds(earlier, items, target);
                assert(sought == Some(item_of(leaf.slots@, leaf.buf@, i)));
            }
        },
    }
}

/// Up to a state in which the extent tree is still searched, the search holds to
/// the tree.
proof fn lemma_search<P: Fn(u64, usize) -> Option<Vec<u8>>>(
    reader: FsReader,
    chunk_map: ChunkMap,
    pread: P,
    tree: Tree,
    extent_root: u64,
    states: Seq<ReconfirmWalk>,
    k: int,
)
    requires
        extent::descent(reader, chunk_map, pread, states),
        states[0].phase == (Phase::Extent { node: extent_root, depth: 0 }),
        states[0].left@.len() == 0,
        holds_tree(reader, chunk_map, pread, tree, extent_root, 15),
        0 <= k < states.len(),
        states[k].phase is Extent,
    ensures
        states[k].logical == states[0].logical,
        states[k].csum_root == states[0].csum_root,
        searching(
            reader,
            chunk_map,
            pread,
            tree,
            ahead(states[k]),
            extent::extent_target(states[0].logical),
            last_candidate(
                items_under(tree, extent_root, 15),
                extent::extent_target(states[0].logical),
            ),
        ),
    decreases k,
{
    let items = items_under(tree, extent_root, 15);
    if k == 0 {
        let all = ahead(states[0]);
        assert(all.drop_last() == Seq::<Branch>::empty());
        assert(items_left(tree, all.drop_last()) == Seq::<Item>::empty());
        assert(items_left(tree, all) == Seq::<Item>::empty() + items);
        assert(Seq::<Item>::empty() + items == items);
    } else {
        assert(extent::step_taken(reader, chunk_map, pread, states, k));
        assert(states[k - 1].phase is Extent);
        lemma_search(reader, chunk_map, pread, tree, extent_root, states, k - 1);
        lemma_search_step(
            reader,
            chunk_map,
            pread,
            tree,
            states[k - 1],
            states[k],
            last_candidate(items, extent::extent_target(states[0].logical)),
        );
    }
}

/// The first state in which the extent tree is no longer searched.
proof fn lemma_search_ends(states: Seq<ReconfirmWalk>, k: int) -> (m: int)
    requires
        states.len() > 0,
        states[0].phase is Extent,
        0 <= k < states.len(),
        states[k].phase !is Extent,
    ensures
        0 < m <= k,
        states[m].phase !is Extent,
        states[m - 1].phase is Extent,
    decreases k,
{
    if states[k - 1].phase is Extent {
        k
    } else {
        lemma_search_ends(states, k - 1)
    }
}

/// A settled search has left the extent tree.
proof fn lemma_search_is_over<P: Fn(u64, usize) -> Option<Vec<u8>>>(
    reader: FsReader,
    chunk_map: ChunkMap,
    pread: P,
    tree: Tree,
    extent_root: u64,
    states: Seq<ReconfirmWalk>,
    r: Option<Reconfirm>,
)
    requires
        extent::descent(reader, chunk_map, pread, states),
        states[0].phase == (Phase::Extent { node: extent_root, depth: 0 }),
        states[0].left@.len() == 0,
        holds_tree(reader, chunk_map, pread, tree, extent_root, 15),
        extent::settled(reader, chunk_map, pread, states.last(), r),
    ensures
        states.last().phase !is Extent,
{
    let end = states.len() - 1;
    if states[end].phase is Extent {
        lemma_search(reader, chunk_map, pread, tree, extent_root, states, end);
        let all = ahead(states[end]);
        let here = all[all.len() - 1];
        assert(holds_tree(reader, chunk_map, pread, tree, here.node, (15 - here.depth) as nat));
    }
}

/// Once the checksum tree is asked, it decides.
proof fn lemma_checksums_from<P: Fn(u64, usize) -> Option<Vec<u8>>>(
    reader: FsReader,
    chunk_map: ChunkMap,
    pread: P,
    states: Seq<ReconfirmWalk>,
    m: int,
    r: Option<Reconfirm>,
)
    requires
        extent::descent(reader, chunk_map, pread, states),
        0 <= m < states.len(),
        states[m].phase is Csum,
        states[m].phase->Csum_depth == 0,
        extent::settled(reader, chunk_map, pread, states.last(), r),
    ensures
        checksum_decides(
            reader,
            chunk_map,
            pread,
            states[m].phase->Csum_node,
            states[0].logical,
            states[0].stored@,
            states[0].hash_len,
            states[0].sector_size,
            r,
        ),
{
    let rest = states.subrange(m, states.len() as int);
    assert(rest[0] == states[m]);
    assert(rest.last() == states.last());
    assert forall|k: int| 1 <= k < rest.len() implies #[trigger] extent::step_taken(
        reader,
        chunk_map,
        pread,
        rest,
        k,
    ) by {
        assert(extent::step_taken(reader, chunk_map, pread, states, m + k));
    }
    assert(extent::descent(reader, chunk_map, pread, rest));
    extent::lemma_same_sector(reader, chunk_map, pread, states, m);
}

/// Over a tree in key order the last EXTENT_ITEM at or before the address
/// decides, whichever leaf it stands in. Where there is none, or it ends before
/// the address, or it carries NODATASUM, the sector is stale; where it runs past
/// its leaf the metadata contradicts itself; else the checksum tree decides.
pub proof fn law_last_extent_item_decides<P: Fn(u64, usize) -> Option<Vec<u8>>>(
    reader: FsReader,
    chunk_map: ChunkMap,
    pread: P,
    tree: Tree,
    extent_root: u64,
    csum_root: u64,
    logical: u64,
    stored: Seq<u8>,
    hash_len: usize,
    sector_size: u64,
    r: Option<Reconfirm>,
)
    requires
        holds_tree(reader, chunk_map, pread, tree, extent_root, 15),
        extent::rechecked(
            reader,
            chunk_map,
            pread,
            extent_root,
            csum_root,
            logical,
            stored,
            hash_len,
            sector_size,
            r,
        ),
    ensures
        match last_candidate(items_under(tree, extent_root, 15), extent::extent_target(logical)) {
            None => r == Some(Reconfirm::Stale),
            Some(item) => if ends_before(item, logical) {
                r == Some(Reconfirm::Stale)
            } else {
                match item.data {
                    None => r is None,
                    Some(data) => if flagged_nodatasum(data) {
                        r == Some(Reconfirm::Stale)
                    } else {
                        checksum_decides(
                            reader,
                            chunk_map,
                            pread,
                            csum_root,
                            logical,
                            stored,
                            hash_len,
                            sector_size,
                            r,
                        )
                    },
                }
            },
        },
{
    let states = choose|states: Seq<ReconfirmWalk>|
        {
            &&& #[trigger] extent::descent(reader, chunk_map, pread, states)
            &&& extent::start_of(
                extent_root,
                csum_root,
                logical,
                stored,
                hash_len,
                sector_size,
                states[0],
            )
            &&& extent::settled(reader, chunk_map, pread, states.last(), r)
        };
    let end = states.len() - 1;
    let sought = last_candidate(
        items_under(tree, extent_root, 15),
        extent::extent_target(logical),
    );
    lemma_search_is_over(reader, chunk_map, pread, tree, extent_root, states, r);
    let m = lemma_search_ends(states, end);
    lemma_search(reader, chunk_map, pread, tree, extent_root, states, m - 1);
    assert(extent::step_taken(reader, chunk_map, pread, states, m));
    lemma_search_step(reader, chunk_map, pread, tree, states[m - 1], states[m], sought);
    if states[m].phase is Csum {
        lemma_checksums_from(reader, chunk_map, pread, states, m, r);
    } else {
        assert(states[m].wants() is None);
        if m < end {
            assert(extent::step_taken(reader, chunk_map, pread, states, m + 1));
        }
    }
}

} // verus!
