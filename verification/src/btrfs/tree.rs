//! Iterative walks over btrfs trees: visit every leaf, optionally pruned to a
//! key range. The caller reads the nodes that the walk asks for and hands back
//! what came of each read.

use vstd::prelude::*;

use crate::btrfs::key;
use crate::btrfs::key::{Key, KeyPtr};
use crate::btrfs::node::{InternalNode, Leaf, Node};
use crate::btrfs::reader::{ReadError, ReadNodeResult, GEN_DONT_CHECK};
use crate::status::MetadataKind;

verus! {

/// A child pointer awaiting descent, with the header fields it must match.
#[derive(Debug, Clone, Copy)]
pub struct NodeRef {
    pub logical: u64,
    /// Expected generation from the parent's key pointer.
    pub exp_gen: Option<u64>,
    pub exp_level: Option<u8>,
    pub exp_owner: Option<u64>,
}

impl NodeRef {
    /// The generation to ask for when the node is read.
    pub fn expected_generation(&self) -> (r: u64)
        ensures
            r == (match self.exp_gen {
                Some(g) => g,
                None => GEN_DONT_CHECK,
            }),
    {
        match self.exp_gen {
            Some(g) => g,
            None => GEN_DONT_CHECK,
        }
    }
}

/// A walk in progress: the nodes still to be read, the next one last.
pub struct TreeWalk {
    queue: Vec<NodeRef>,
    bounds: Option<(Key, Key)>,
}

/// What one read gave the walk.
pub enum WalkStep {
    /// The node could not be read; its subtree is skipped.
    ReadError,
    /// No copy passed header verification; the subtree is skipped.
    MetadataError,
    /// Only stale copies: the node was freed and repurposed by a live
    /// transaction, and is skipped.
    Stale,
    /// A leaf to visit.
    Leaf { leaf: Leaf, mirror_mismatch: bool },
    /// An internal node; `prefetch` are the children worth hinting ahead.
    Descended { mirror_mismatch: bool, prefetch: Vec<u64> },
    /// The node announces more items than it has room for.
    Malformed,
}

/// The child's key range lies entirely outside `[lo, hi)`: the next sibling
/// starts at or before `lo`, or the child itself at or after `hi`.
pub open spec fn pruned(ptrs: Seq<KeyPtr>, bounds: Option<(Key, Key)>, idx: int) -> bool {
    match bounds {
        None => false,
        Some((lo, hi)) => {
            ||| idx + 1 < ptrs.len() && key::key_le(ptrs[idx + 1].key, lo)
            ||| key::key_le(hi, ptrs[idx].key)
        },
    }
}

/// What the child behind pointer `idx` must match: level one below the parent,
/// its owner, and the generation in the pointer.
pub open spec fn child_ref(ptr: KeyPtr, level: u8, owner: u64) -> NodeRef {
    NodeRef {
        logical: ptr.blockptr,
        exp_gen: Some(ptr.generation),
        exp_level: Some(if level == 0 { 0 } else { (level - 1) as u8 }),
        exp_owner: Some(owner),
    }
}

/// The children from pointer `k` on that are not pruned, in key order.
pub open spec fn children_from(
    ptrs: Seq<KeyPtr>,
    bounds: Option<(Key, Key)>,
    level: u8,
    owner: u64,
    k: int,
) -> Seq<NodeRef>
    decreases ptrs.len() - k,
{
    if k >= ptrs.len() {
        Seq::empty()
    } else if pruned(ptrs, bounds, k) {
        children_from(ptrs, bounds, level, owner, k + 1)
    } else {
        seq![child_ref(ptrs[k], level, owner)] + children_from(ptrs, bounds, level, owner, k + 1)
    }
}

/// The children of an internal node that the walk descends into, in key order.
pub open spec fn children(internal: InternalNode, bounds: Option<(Key, Key)>) -> Seq<NodeRef> {
    children_from(
        internal.ptrs@,
        bounds,
        internal.header.level,
        internal.header.owner,
        0,
    )
}

/// The children from pointer `k` on that are worth hinting ahead, last first:
/// the first two, or all of few.
pub open spec fn prefetch_from(ptrs: Seq<KeyPtr>, bounds: Option<(Key, Key)>, k: int) -> Seq<u64>
    decreases ptrs.len() - k,
{
    if k >= ptrs.len() {
        Seq::empty()
    } else if !pruned(ptrs, bounds, k) && (k < 2 || ptrs.len() <= 4) {
        prefetch_from(ptrs, bounds, k + 1).push(ptrs[k].blockptr)
    } else {
        prefetch_from(ptrs, bounds, k + 1)
    }
}

/// The read gave a node to visit or descend into.
pub open spec fn usable(read: Result<ReadNodeResult, ReadError>) -> bool {
    read matches Ok(res) && !res.all_mirrors_failed && !res.generation_mismatch
}

/// A usable result holds a node.
pub open spec fn holds_node(read: Result<ReadNodeResult, ReadError>) -> bool {
    usable(read) ==> read->Ok_0.node is Some
}

/// The queue after a read: the children of an internal node go on it, first
/// child last.
pub open spec fn queue_after(
    queue: Seq<NodeRef>,
    bounds: Option<(Key, Key)>,
    read: Result<ReadNodeResult, ReadError>,
) -> Seq<NodeRef> {
    if usable(read) {
        match read->Ok_0.node {
            Some(Node::Internal(internal)) => queue + children(internal, bounds).reverse(),
            _ => queue,
        }
    } else {
        queue
    }
}

/// What a walk makes of a read.
pub open spec fn step_of(
    read: Result<ReadNodeResult, ReadError>,
    bounds: Option<(Key, Key)>,
    step: WalkStep,
) -> bool {
    match read {
        Err(ReadError::Malformed { .. }) => step is Malformed,
        Err(_) => step is ReadError,
        Ok(res) => if res.all_mirrors_failed {
            step is MetadataError
        } else if res.generation_mismatch {
            step is Stale
        } else {
            match res.node.unwrap() {
                Node::Leaf(leaf) => step == (WalkStep::Leaf {
                    leaf,
                    mirror_mismatch: res.mirror_mismatch,
                }),
                Node::Internal(internal) => step matches WalkStep::Descended {
                    mirror_mismatch,
                    prefetch,
                } && mirror_mismatch == res.mirror_mismatch && prefetch@ == prefetch_from(
                    internal.ptrs@,
                    bounds,
                    0,
                ),
            }
        },
    }
}

proof fn lemma_reverse_cons(x: NodeRef, s: Seq<NodeRef>)
    ensures
        (seq![x] + s).reverse() == s.reverse().push(x),
{
    assert((seq![x] + s).reverse() =~= s.reverse().push(x));
}

/// A walk over every leaf of the tree rooted at `root_logical`.
pub fn walk_leaves(root_logical: u64) -> (r: TreeWalk)
    ensures
        r.queue() == seq![root_ref(root_logical)],
        r.bounds() is None,
{
    walk_leaves_impl(root_logical, None)
}

/// Like `walk_leaves`, but prunes any subtree whose key range cannot overlap
/// `[key_lo, key_hi)`.
pub fn walk_leaves_range(root_logical: u64, key_lo: Key, key_hi: Key) -> (r: TreeWalk)
    ensures
        r.queue() == seq![root_ref(root_logical)],
        r.bounds() == Some((key_lo, key_hi)),
{
    walk_leaves_impl(root_logical, Some((key_lo, key_hi)))
}

/// The root: nothing but its address is expected of it.
pub open spec fn root_ref(root_logical: u64) -> NodeRef {
    NodeRef { logical: root_logical, exp_gen: None, exp_level: None, exp_owner: None }
}

fn walk_leaves_impl(root_logical: u64, bounds: Option<(Key, Key)>) -> (r: TreeWalk)
    ensures
        r.queue() == seq![root_ref(root_logical)],
        r.bounds() == bounds,
{
    let mut queue: Vec<NodeRef> = Vec::new();
    queue.push(
        NodeRef { logical: root_logical, exp_gen: None, exp_level: None, exp_owner: None },
    );
    assert(queue@ =~= seq![root_ref(root_logical)]);
    TreeWalk { queue, bounds }
}

impl TreeWalk {
    /// The nodes still to be read, the next one last.
    pub closed spec fn queue(&self) -> Seq<NodeRef> {
        self.queue@
    }

    /// The key range the walk is pruned to.
    pub closed spec fn bounds(&self) -> Option<(Key, Key)> {
        self.bounds
    }

    /// The next node to read; `None` when the walk is over.
    pub fn next(&mut self) -> (r: Option<NodeRef>)
        ensures
            final(self).bounds() == old(self).bounds(),
            match r {
                Some(node) => old(self).queue().len() > 0 && node == old(self).queue().last()
                    && final(self).queue() == old(self).queue().drop_last(),
                None => old(self).queue().len() == 0 && final(self).queue() == old(self).queue(),
            },
    {
        self.queue.pop()
    }

    /// Takes in what came of reading the node last asked for.
    pub fn step(&mut self, read: Result<ReadNodeResult, ReadError>) -> (r: WalkStep)
        requires
            holds_node(read),
        ensures
            final(self).bounds() == old(self).bounds(),
            final(self).queue() == queue_after(old(self).queue(), old(self).bounds(), read),
            step_of(read, old(self).bounds(), r),
    {
        let res = match read {
            Err(ReadError::Malformed { .. }) => {
                return WalkStep::Malformed;
            },
            Err(_) => {
                return WalkStep::ReadError;
            },
            Ok(res) => res,
        };
        if res.all_mirrors_failed {
            return WalkStep::MetadataError;
        }
        if res.generation_mismatch {
            return WalkStep::Stale;
        }
        let mirror_mismatch = res.mirror_mismatch;
        match res.node {
            None => WalkStep::Malformed,
            Some(Node::Leaf(leaf)) => WalkStep::Leaf { leaf, mirror_mismatch },
            Some(Node::Internal(internal)) => {
                let level: u8 = internal.header.level;
                let owner: u64 = internal.header.owner;
                let child_level: u8 = if level == 0 { 0 } else { level - 1 };
                let ptrs = &internal.ptrs;
                let bounds = self.bounds;
                let n: usize = ptrs.len();
                let mut prefetch: Vec<u64> = Vec::new();
                let mut k: usize = n;
                proof {
                    assert(children_from(ptrs@, bounds, level, owner, n as int).reverse() =~= Seq::<
                        NodeRef,
                    >::empty());
                    assert(self.queue@ =~= old(self).queue@ + children_from(
                        ptrs@,
                        bounds,
                        level,
                        owner,
                        n as int,
                    ).reverse());
                }
                while k > 0
                    invariant
                        k <= n,
                        n == ptrs@.len(),
                        self.bounds == bounds,
                        self.bounds == old(self).bounds,
                        child_level == (if level == 0 { 0int } else { level - 1 }),
                        self.queue@ == old(self).queue@ + children_from(
                            ptrs@,
                            bounds,
                            level,
                            owner,
                            k as int,
                        ).reverse(),
                        prefetch@ == prefetch_from(ptrs@, bounds, k as int),
                    decreases k,
                {
                    k = k - 1;
                    let skip = match bounds {
                        None => false,
                        Some((lo, hi)) => (k + 1 < n && ptrs[k + 1].key.leq(&lo)) || hi.leq(
                            &ptrs[k].key,
                        ),
                    };
                    assert(skip == pruned(ptrs@, bounds, k as int));
                    if !skip {
                        if k < 2 || n <= 4 {
                            prefetch.push(ptrs[k].blockptr);
                        }
                        let child = NodeRef {
                            logical: ptrs[k].blockptr,
                            exp_gen: Some(ptrs[k].generation),
                            exp_level: Some(child_level),
                            exp_owner: Some(owner),
                        };
                        self.queue.push(child);
                        proof {
                            lemma_reverse_cons(
                                child,
                                children_from(ptrs@, bounds, level, owner, k + 1),
                            );
                            assert(self.queue@ =~= old(self).queue@ + children_from(
                                ptrs@,
                                bounds,
                                level,
                                owner,
                                k as int,
                            ).reverse());
                        }
                    }
                }
                WalkStep::Descended { mirror_mismatch, prefetch }
            },
        }
    }
}

/// Whether copies of the node disagreed though a good one was read.
pub open spec fn step_disagrees(step: WalkStep) -> bool {
    match step {
        WalkStep::Leaf { mirror_mismatch, .. } => mirror_mismatch,
        WalkStep::Descended { mirror_mismatch, .. } => mirror_mismatch,
        _ => false,
    }
}

/// The metadata failure that a step of the walk met.
pub open spec fn failure_of(step: WalkStep) -> Option<MetadataKind> {
    match step {
        WalkStep::MetadataError => Some(MetadataKind::HeaderError),
        WalkStep::ReadError => Some(MetadataKind::ReadError),
        WalkStep::Stale => Some(MetadataKind::StaleBranch),
        _ => if step_disagrees(step) {
            Some(MetadataKind::MirrorMismatch)
        } else {
            None
        },
    }
}

/// Metadata failures met on a walk. A stale node is skipped, not counted.
#[derive(Debug, Clone, Copy, PartialEq, Eq, Structural)]
pub struct WalkCounts {
    /// Nodes whose every mirror copy failed header verification.
    pub header_errors: u64,
    /// Mirrored nodes whose copies disagreed (a good copy existed).
    pub mirror_mismatches: u64,
    /// Nodes that failed with a read error.
    pub read_errors: u64,
}

impl WalkCounts {
    pub fn new() -> (r: Self)
        ensures
            r == (WalkCounts { header_errors: 0, mirror_mismatches: 0, read_errors: 0 }),
    {
        WalkCounts { header_errors: 0, mirror_mismatches: 0, read_errors: 0 }
    }

    /// There is room to count one more of each.
    pub open spec fn has_room(&self) -> bool {
        &&& self.header_errors < u64::MAX
        &&& self.mirror_mismatches < u64::MAX
        &&& self.read_errors < u64::MAX
    }

    /// Whether there is room to count one more of each.
    pub fn room(&self) -> (r: bool)
        ensures
            r == self.has_room(),
    {
        self.header_errors < u64::MAX && self.mirror_mismatches < u64::MAX && self.read_errors
            < u64::MAX
    }

    /// Counts what one step of a walk met.
    pub fn note(&mut self, step: &WalkStep)
        requires
            old(self).has_room(),
        ensures
            final(self).header_errors == old(self).header_errors + (if *step is MetadataError {
                1int
            } else {
                0
            }),
            final(self).mirror_mismatches == old(self).mirror_mismatches + (if step_disagrees(
                *step,
            ) {
                1int
            } else {
                0
            }),
            final(self).read_errors == old(self).read_errors + (if *step is ReadError {
                1int
            } else {
                0
            }),
    {
        match step {
            WalkStep::MetadataError => {
                self.header_errors = self.header_errors + 1;
            },
            WalkStep::ReadError => {
                self.read_errors = self.read_errors + 1;
            },
            WalkStep::Leaf { mirror_mismatch, .. } => {
                if *mirror_mismatch {
                    self.mirror_mismatches = self.mirror_mismatches + 1;
                }
            },
            WalkStep::Descended { mirror_mismatch, .. } => {
                if *mirror_mismatch {
                    self.mirror_mismatches = self.mirror_mismatches + 1;
                }
            },
            _ => {},
        }
    }
}

// ---------------------------------------------------------------------------
// Laws
// ---------------------------------------------------------------------------

/// Pruning loses nothing: a key in a pruned child (at or after the child's
/// pointer, before its next sibling's) lies outside the range.
pub proof fn law_pruned_child_is_out_of_range(
    ptrs: Seq<KeyPtr>,
    lo: Key,
    hi: Key,
    idx: int,
    x: Key,
)
    requires
        0 <= idx < ptrs.len(),
        pruned(ptrs, Some((lo, hi)), idx),
        key::key_le(ptrs[idx].key, x),
        idx + 1 < ptrs.len() ==> !key::key_le(ptrs[idx + 1].key, x),
    ensures
        !key::key_le(lo, x) || key::key_le(hi, x),
{
}

/// How each node of a tree reads.
pub type Reads = spec_fn(NodeRef) -> Result<ReadNodeResult, ReadError>;

/// The leaves under a node, in key order: what a complete walk visits. Subtrees
/// that cannot be read, verified or are stale hold none.
pub open spec fn leaves_under(
    reads: Reads,
    bounds: Option<(Key, Key)>,
    node: NodeRef,
    depth: nat,
) -> Seq<u64>
    decreases depth, 1int, 0int,
{
    if !usable(reads(node)) || depth == 0 {
        Seq::empty()
    } else {
        match reads(node)->Ok_0.node {
            Some(Node::Leaf(_)) => seq![node.logical],
            Some(Node::Internal(internal)) => leaves_under_all(
                reads,
                bounds,
                children(internal, bounds),
                (depth - 1) as nat,
            ),
            None => Seq::empty(),
        }
    }
}

/// The leaves under a row of nodes, in order.
pub open spec fn leaves_under_all(
    reads: Reads,
    bounds: Option<(Key, Key)>,
    nodes: Seq<NodeRef>,
    depth: nat,
) -> Seq<u64>
    decreases depth, 2int, nodes.len(),
{
    if nodes.len() == 0 {
        Seq::empty()
    } else {
        leaves_under(reads, bounds, nodes[0], depth) + leaves_under_all(
            reads,
            bounds,
            nodes.skip(1),
            depth,
        )
    }
}

/// The subtree is at most `depth` levels deep.
pub open spec fn fits_depth(
    reads: Reads,
    bounds: Option<(Key, Key)>,
    node: NodeRef,
    depth: nat,
) -> bool
    decreases depth,
{
    &&& depth > 0
    &&& usable(reads(node)) ==> match reads(node)->Ok_0.node {
        Some(Node::Internal(internal)) => forall|k: int|
            0 <= k < children(internal, bounds).len() ==> fits_depth(
                reads,
                bounds,
                #[trigger] children(internal, bounds)[k],
                (depth - 1) as nat,
            ),
        _ => true,
    }
}

/// The queue and the leaves visited after `n` reads.
pub open spec fn walked(
    reads: Reads,
    bounds: Option<(Key, Key)>,
    queue: Seq<NodeRef>,
    n: nat,
) -> (Seq<NodeRef>, Seq<u64>)
    decreases n,
{
    if n == 0 || queue.len() == 0 {
        (queue, Seq::empty())
    } else {
        let node = queue.last();
        let seen = if usable(reads(node)) && reads(node)->Ok_0.node is Some
            && reads(node)->Ok_0.node.unwrap() is Leaf {
            seq![node.logical]
        } else {
            Seq::empty()
        };
        let (q, rest) = walked(
            reads,
            bounds,
            queue_after(queue.drop_last(), bounds, reads(node)),
            (n - 1) as nat,
        );
        (q, seen + rest)
    }
}

/// Reads add up.
pub proof fn lemma_walked_adds(
    reads: Reads,
    bounds: Option<(Key, Key)>,
    queue: Seq<NodeRef>,
    m: nat,
    n: nat,
)
    ensures
        ({
            let (q1, s1) = walked(reads, bounds, queue, m);
            let (q2, s2) = walked(reads, bounds, q1, n);
            walked(reads, bounds, queue, m + n) == (q2, s1 + s2)
        }),
    decreases m,
{
    let (q1, s1) = walked(reads, bounds, queue, m);
    let (q2, s2) = walked(reads, bounds, q1, n);
    if m == 0 {
        assert(s1 + s2 =~= s2);
    } else if queue.len() == 0 {
        assert(s1 + s2 =~= Seq::<u64>::empty());
    } else {
        let node = queue.last();
        let next = queue_after(queue.drop_last(), bounds, reads(node));
        lemma_walked_adds(reads, bounds, next, (m - 1) as nat, n);
        let (qa, sa) = walked(reads, bounds, next, (m - 1) as nat);
        let seen = if usable(reads(node)) && reads(node)->Ok_0.node is Some
            && reads(node)->Ok_0.node.unwrap() is Leaf {
            seq![node.logical]
        } else {
            Seq::empty()
        };
        assert((seen + sa) + s2 =~= seen + (sa + s2));
    }
}

/// From a queue with `node` on top the walk comes back to the rest of the queue
/// having visited exactly the leaves under `node`.
proof fn lemma_walk_node(
    reads: Reads,
    bounds: Option<(Key, Key)>,
    queue: Seq<NodeRef>,
    node: NodeRef,
    depth: nat,
) -> (n: nat)
    requires
        fits_depth(reads, bounds, node, depth),
    ensures
        walked(reads, bounds, queue.push(node), n) == (
            queue,
            leaves_under(reads, bounds, node, depth),
        ),
    decreases depth, 1int, 0int,
{
    let start = queue.push(node);
    assert(start.drop_last() =~= queue);
    let read = reads(node);
    let next = queue_after(queue, bounds, read);
    if usable(read) && read->Ok_0.node is Some && read->Ok_0.node.unwrap() is Internal {
        let internal = read->Ok_0.node.unwrap()->Internal_0;
        let kids = children(internal, bounds);
        let m = lemma_walk_nodes(reads, bounds, queue, kids, (depth - 1) as nat);
        let seen = leaves_under_all(reads, bounds, kids, (depth - 1) as nat);
        assert(Seq::<u64>::empty() + seen =~= seen);
        assert(walked(reads, bounds, start, m + 1) == (queue, seen));
        m + 1
    } else {
        reveal_with_fuel(walked, 2);
        assert(next =~= queue);
        assert(walked(reads, bounds, start, 1).1 =~= leaves_under(reads, bounds, node, depth));
        1
    }
}

proof fn lemma_walk_nodes(
    reads: Reads,
    bounds: Option<(Key, Key)>,
    queue: Seq<NodeRef>,
    nodes: Seq<NodeRef>,
    depth: nat,
) -> (n: nat)
    requires
        forall|k: int| 0 <= k < nodes.len() ==> fits_depth(reads, bounds, #[trigger] nodes[k], depth),
    ensures
        walked(reads, bounds, queue + nodes.reverse(), n) == (
            queue,
            leaves_under_all(reads, bounds, nodes, depth),
        ),
    decreases depth, 2int, nodes.len(),
{
    if nodes.len() == 0 {
        assert(queue + nodes.reverse() =~= queue);
        0
    } else {
        let rest = nodes.skip(1);
        assert forall|k: int| 0 <= k < rest.len() implies fits_depth(
            reads,
            bounds,
            #[trigger] rest[k],
            depth,
        ) by {
            assert(rest[k] == nodes[k + 1]);
        }
        let base = queue + rest.reverse();
        assert(queue + nodes.reverse() =~= base.push(nodes[0]));
        let a = lemma_walk_node(reads, bounds, base, nodes[0], depth);
        let b = lemma_walk_nodes(reads, bounds, queue, rest, depth);
        lemma_walked_adds(reads, bounds, queue + nodes.reverse(), a, b);
        a + b
    }
}

/// A walk visits every leaf: from the root it ends, having visited exactly the
/// leaves of the tree that can be read, each once and in key order.
pub proof fn law_walk_visits_every_leaf(
    reads: Reads,
    bounds: Option<(Key, Key)>,
    root: u64,
    depth: nat,
)
    requires
        fits_depth(reads, bounds, root_ref(root), depth),
    ensures
        exists|n: nat|
            (#[trigger] walked(reads, bounds, seq![root_ref(root)], n)) == (
                Seq::<NodeRef>::empty(),
                leaves_under(reads, bounds, root_ref(root), depth),
            ),
{
    let n = lemma_walk_node(reads, bounds, Seq::empty(), root_ref(root), depth);
    assert(Seq::<NodeRef>::empty().push(root_ref(root)) =~= seq![root_ref(root)]);
}

/// Nodes carry the level that was expected of them, and leaves are at level 0:
/// what a verified read guarantees.
pub open spec fn levels_hold(reads: Reads) -> bool {
    forall|node: NodeRef|
        usable(#[trigger] reads(node)) && reads(node)->Ok_0.node is Some ==> {
            let found = reads(node)->Ok_0.node.unwrap();
            &&& node.exp_level matches Some(l) ==> found.spec_header().level == l
            &&& found is Internal <==> found.spec_header().level > 0
        }
}

pub proof fn lemma_children_levels(
    ptrs: Seq<KeyPtr>,
    bounds: Option<(Key, Key)>,
    level: u8,
    owner: u64,
    k: int,
    i: int,
)
    requires
        0 <= i < children_from(ptrs, bounds, level, owner, k).len(),
        level > 0,
    ensures
        children_from(ptrs, bounds, level, owner, k)[i].exp_level == Some((level - 1) as u8),
    decreases ptrs.len() - k,
{
    if k < ptrs.len() {
        if pruned(ptrs, bounds, k) {
            lemma_children_levels(ptrs, bounds, level, owner, k + 1, i);
        } else if i > 0 {
            lemma_children_levels(ptrs, bounds, level, owner, k + 1, i - 1);
        }
    }
}

/// A walk always ends: levels fall by one with each descent, so a tree is no
/// deeper than its root's level allows.
pub proof fn law_walk_ends(reads: Reads, bounds: Option<(Key, Key)>, node: NodeRef, level: u8)
    requires
        levels_hold(reads),
        usable(reads(node)) && reads(node)->Ok_0.node is Some
            ==> reads(node)->Ok_0.node.unwrap().spec_header().level <= level,
    ensures
        fits_depth(reads, bounds, node, (level + 1) as nat),
    decreases level,
{
    if usable(reads(node)) && reads(node)->Ok_0.node is Some
        && reads(node)->Ok_0.node.unwrap() is Internal {
        let internal = reads(node)->Ok_0.node.unwrap()->Internal_0;
        let kids = children(internal, bounds);
        let l = internal.header.level;
        assert(0 < l <= level);
        assert forall|k: int| 0 <= k < kids.len() implies fits_depth(
            reads,
            bounds,
            #[trigger] kids[k],
            level as nat,
        ) by {
            lemma_children_levels(internal.ptrs@, bounds, l, internal.header.owner, 0, k);
            law_walk_ends(reads, bounds, kids[k], (level - 1) as u8);
        }
    }
}

/// A walk from the node comes to a leaf with an item under key `x`.
pub open spec fn key_under(
    reads: Reads,
    bounds: Option<(Key, Key)>,
    node: NodeRef,
    depth: nat,
    x: Key,
) -> bool
    decreases depth,
{
    &&& depth > 0
    &&& usable(reads(node))
    &&& match reads(node)->Ok_0.node {
        Some(Node::Leaf(leaf)) => has_key(leaf, x),
        Some(Node::Internal(internal)) => exists|k: int|
            {
                &&& 0 <= k < children(internal, bounds).len()
                &&& key_under(
                    reads,
                    bounds,
                    #[trigger] children(internal, bounds)[k],
                    (depth - 1) as nat,
                    x,
                )
            },
        None => false,
    }
}

/// The leaf has an item under key `x`.
pub open spec fn has_key(leaf: Leaf, x: Key) -> bool {
    exists|i: int| 0 <= i < leaf.slots@.len() && (#[trigger] leaf.slots@[i]).key == x
}

/// The tree is a search tree: what lies under a pointer is at or after its key
/// and before that of the next pointer.
pub open spec fn in_key_order(reads: Reads, node: NodeRef, depth: nat) -> bool
    decreases depth,
{
    depth > 0 && usable(reads(node)) ==> match reads(node)->Ok_0.node {
        Some(Node::Internal(internal)) => forall|k: int|
            0 <= k < internal.ptrs@.len() ==> pointer_in_order(
                reads,
                internal,
                k,
                (depth - 1) as nat,
            ) && in_key_order(
                reads,
                child_ref(
                    #[trigger] internal.ptrs@[k],
                    internal.header.level,
                    internal.header.owner,
                ),
                (depth - 1) as nat,
            ),
        _ => true,
    }
}

/// What lies under pointer `k` is at or after its key and before that of the
/// next pointer.
pub open spec fn pointer_in_order(
    reads: Reads,
    internal: InternalNode,
    k: int,
    depth: nat,
) -> bool {
    let child = child_ref(internal.ptrs@[k], internal.header.level, internal.header.owner);
    forall|x: Key| #[trigger]
        key_under(reads, None, child, depth, x) ==> {
            &&& key::key_le(internal.ptrs@[k].key, x)
            &&& k + 1 < internal.ptrs@.len() ==> !key::key_le(internal.ptrs@[k + 1].key, x)
        }
}

/// Without bounds the children are those of all pointers.
proof fn lemma_all_children(ptrs: Seq<KeyPtr>, level: u8, owner: u64, from: int, k: int)
    requires
        0 <= from <= ptrs.len(),
        0 <= k < children_from(ptrs, None, level, owner, from).len(),
    ensures
        from + k < ptrs.len(),
        children_from(ptrs, None, level, owner, from)[k] == child_ref(
            ptrs[from + k],
            level,
            owner,
        ),
    decreases ptrs.len() - from,
{
    if from < ptrs.len() && k > 0 {
        lemma_all_children(ptrs, level, owner, from + 1, k - 1);
    }
}

/// A child that is not pruned is descended into.
proof fn lemma_kept_child(
    ptrs: Seq<KeyPtr>,
    bounds: Option<(Key, Key)>,
    level: u8,
    owner: u64,
    from: int,
    k: int,
) -> (j: int)
    requires
        0 <= from <= k < ptrs.len(),
        !pruned(ptrs, bounds, k),
    ensures
        0 <= j < children_from(ptrs, bounds, level, owner, from).len(),
        children_from(ptrs, bounds, level, owner, from)[j] == child_ref(ptrs[k], level, owner),
    decreases k - from,
{
    if from == k {
        0
    } else {
        let j = lemma_kept_child(ptrs, bounds, level, owner, from + 1, k);
        if pruned(ptrs, bounds, from) {
            j
        } else {
            j + 1
        }
    }
}

/// Pruning to a key range loses nothing of it: in a search tree, an item whose
/// key lies in `[lo, hi)` is reached by the pruned walk if the whole walk
/// reaches it.
pub proof fn law_pruned_walk_keeps_the_range(
    reads: Reads,
    lo: Key,
    hi: Key,
    node: NodeRef,
    depth: nat,
    x: Key,
)
    requires
        in_key_order(reads, node, depth),
        key_under(reads, None, node, depth, x),
        key::key_le(lo, x),
        !key::key_le(hi, x),
    ensures
        key_under(reads, Some((lo, hi)), node, depth, x),
    decreases depth,
{
    match reads(node)->Ok_0.node {
        Some(Node::Internal(internal)) => {
            let ptrs = internal.ptrs@;
            let level = internal.header.level;
            let owner = internal.header.owner;
            let bounds = Some((lo, hi));
            let below = (depth - 1) as nat;
            let k = choose|k: int|
                {
                    &&& 0 <= k < children(internal, None).len()
                    &&& key_under(reads, None, #[trigger] children(internal, None)[k], below, x)
                };
            lemma_all_children(ptrs, level, owner, 0, k);
            let child = child_ref(ptrs[k], level, owner);
            assert(pointer_in_order(reads, internal, k, below));
            assert(key_under(reads, None, child, below, x));
            if pruned(ptrs, bounds, k) {
                law_pruned_child_is_out_of_range(ptrs, lo, hi, k, x);
            }
            let j = lemma_kept_child(ptrs, bounds, level, owner, 0, k);
            law_pruned_walk_keeps_the_range(reads, lo, hi, child, below, x);
            assert(children(internal, bounds)[j] == child);
        },
        _ => {},
    }
}

} // verus!
