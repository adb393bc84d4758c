//! Tree walks over a backing store: the nodes a walk asks for are read off every
//! mirror copy, until the walk is over.

use vstd::prelude::*;

use crate::btrfs::chunk::ChunkMap;
use crate::btrfs::key::Key;
use crate::btrfs::node::Node;
use crate::btrfs::reader;
use crate::btrfs::reader::{FsReader, ReadError, ReadNodeResult, GEN_DONT_CHECK};
use crate::btrfs::tree;
use crate::btrfs::tree::{NodeRef, TreeWalk, WalkCounts, WalkStep};
use crate::status::MetadataKind;

verus! {

/// One node of a walk and what came of it.
pub struct Visit {
    pub logical: u64,
    pub step: WalkStep,
}

/// What a walk has to say while it runs.
#[derive(Debug, Clone, Copy, PartialEq, Eq, Structural)]
pub enum WalkTell {
    /// No copy of the node could be verified, of so many that were looked for.
    Unverifiable { logical: u64, mirrors: usize },
    /// A position worth reading ahead.
    ReadAhead { position: u64 },
}

/// Everything may be told.
pub open spec fn tells<T: Fn(WalkTell)>(tell: T) -> bool {
    forall|t: WalkTell| #[trigger] call_requires(tell, (t,))
}

/// The reader verifies what it reads, and the store can be read in nodes.
pub open spec fn store_set<P: Fn(u64, usize) -> Option<Vec<u8>>>(
    reader: FsReader,
    chunk_map: ChunkMap,
    pread: P,
) -> bool {
    &&& reader.wf()
    &&& reader.strategy is Some
    &&& chunk_map.wf()
    &&& reader::store_ready(pread, reader.node_size)
}

/// `got` is what reading the node gives.
pub open spec fn ref_read<P: Fn(u64, usize) -> Option<Vec<u8>>>(
    reader: FsReader,
    chunk_map: ChunkMap,
    pread: P,
    node: NodeRef,
    got: Result<ReadNodeResult, ReadError>,
) -> bool {
    reader.node_read(
        chunk_map,
        pread,
        node.logical,
        match node.exp_gen {
            Some(g) => g,
            None => GEN_DONT_CHECK,
        },
        node.exp_level,
        node.exp_owner,
        got,
    )
}

/// With `before` still to be read, the walk visits the next node, after which
/// `after` is left.
pub open spec fn advanced<P: Fn(u64, usize) -> Option<Vec<u8>>>(
    reader: FsReader,
    chunk_map: ChunkMap,
    pread: P,
    bounds: Option<(Key, Key)>,
    before: Seq<NodeRef>,
    visit: Visit,
    after: Seq<NodeRef>,
) -> bool {
    &&& before.len() > 0
    &&& visit.logical == before.last().logical
    &&& exists|got: Result<ReadNodeResult, ReadError>|
        {
            &&& #[trigger] ref_read(reader, chunk_map, pread, before.last(), got)
            &&& tree::step_of(got, bounds, visit.step)
            &&& after == tree::queue_after(before.drop_last(), bounds, got)
        }
}

/// The visits in turn, with what is left to be read before and after each.
pub open spec fn trace<P: Fn(u64, usize) -> Option<Vec<u8>>>(
    reader: FsReader,
    chunk_map: ChunkMap,
    pread: P,
    bounds: Option<(Key, Key)>,
    queues: Seq<Seq<NodeRef>>,
    visits: Seq<Visit>,
) -> bool {
    &&& queues.len() == visits.len() + 1
    &&& forall|k: int|
        0 <= k < visits.len() ==> advanced(
            reader,
            chunk_map,
            pread,
            bounds,
            queues[k],
            #[trigger] visits[k],
            queues[k + 1],
        )
}

/// From the root on, a walk makes these visits in turn; `left` is then still to
/// be read. Nothing is left when the walk is over.
pub open spec fn walked_so_far<P: Fn(u64, usize) -> Option<Vec<u8>>>(
    reader: FsReader,
    chunk_map: ChunkMap,
    pread: P,
    root: u64,
    bounds: Option<(Key, Key)>,
    visits: Seq<Visit>,
    left: Seq<NodeRef>,
) -> bool {
    exists|queues: Seq<Seq<NodeRef>>|
        {
            &&& #[trigger] trace(reader, chunk_map, pread, bounds, queues, visits)
            &&& queues[0] == seq![tree::root_ref(root)]
            &&& queues.last() == left
        }
}

/// So many copies of the node are looked for: one on each stripe of its chunk.
pub open spec fn copies_looked_for(chunk_map: ChunkMap, logical: u64, n: usize) -> bool {
    &&& chunk_map.unmapped(logical) ==> n == 1
    &&& forall|i: int| #[trigger]
        chunk_map.found(logical, i) ==> n == chunk_map@[i].stripes@.len()
}

/// Every copy of the node was named as worth reading ahead.
pub open spec fn hinted<T: Fn(WalkTell)>(
    reader: FsReader,
    chunk_map: ChunkMap,
    tell: T,
    logical: u64,
) -> bool {
    forall|i: int, k: int|
        #![trigger chunk_map@[i].copies(logical)[k]]
        chunk_map.found(logical, i) && 0 <= k < chunk_map@[i].stripes@.len() ==> call_ensures(
            tell,
            (
                WalkTell::ReadAhead {
                    position: reader::saturate(
                        reader.base_offset + chunk_map@[i].copies(logical)[k].1,
                    ),
                },
            ),
            (),
        )
}

/// What a visit has to say was told: that no copy of the node could be verified,
/// or which nodes are worth reading ahead.
pub open spec fn visit_told<T: Fn(WalkTell)>(
    reader: FsReader,
    chunk_map: ChunkMap,
    tell: T,
    visit: Visit,
) -> bool {
    match visit.step {
        WalkStep::MetadataError => exists|mirrors: usize| #[trigger]
            copies_looked_for(chunk_map, visit.logical, mirrors) && call_ensures(
                tell,
                (WalkTell::Unverifiable { logical: visit.logical, mirrors },),
                (),
            ),
        WalkStep::Descended { prefetch, .. } => forall|i: int|
            0 <= i < prefetch@.len() ==> hinted(reader, chunk_map, tell, #[trigger] prefetch@[i]),
        _ => true,
    }
}

/// What the visits have to say was told.
pub open spec fn visits_told<T: Fn(WalkTell)>(
    reader: FsReader,
    chunk_map: ChunkMap,
    tell: T,
    visits: Seq<Visit>,
) -> bool {
    forall|k: int|
        0 <= k < visits.len() ==> visit_told(reader, chunk_map, tell, #[trigger] visits[k])
}

/// One more visit that was told.
pub proof fn lemma_told_on<T: Fn(WalkTell)>(
    reader: FsReader,
    chunk_map: ChunkMap,
    tell: T,
    visits: Seq<Visit>,
    visit: Visit,
)
    requires
        visits_told(reader, chunk_map, tell, visits),
        visit_told(reader, chunk_map, tell, visit),
    ensures
        visits_told(reader, chunk_map, tell, visits.push(visit)),
{
    let all = visits.push(visit);
    assert forall|k: int| 0 <= k < all.len() implies visit_told(
        reader,
        chunk_map,
        tell,
        #[trigger] all[k],
    ) by {
        if k < visits.len() {
            assert(all[k] == visits[k]);
        }
    }
}

/// How many of the visits met a failure of this kind.
pub open spec fn tally(visits: Seq<Visit>, kind: MetadataKind) -> nat
    decreases visits.len(),
{
    if visits.len() == 0 {
        0
    } else {
        tally(visits.drop_last(), kind) + if tree::failure_of(visits.last().step) == Some(kind) {
            1nat
        } else {
            0
        }
    }
}

/// `after` counts the failures met on these visits on top of `before`.
pub open spec fn counted(before: WalkCounts, visits: Seq<Visit>, after: WalkCounts) -> bool {
    &&& after.header_errors == before.header_errors + tally(visits, MetadataKind::HeaderError)
    &&& after.mirror_mismatches == before.mirror_mismatches + tally(
        visits,
        MetadataKind::MirrorMismatch,
    )
    &&& after.read_errors == before.read_errors + tally(visits, MetadataKind::ReadError)
}

/// Counts add up: what one more visit meets goes on top of what the earlier ones
/// met, whether or not it was counted.
pub proof fn lemma_counted_on(
    before: WalkCounts,
    visits: Seq<Visit>,
    between: WalkCounts,
    visit: Visit,
    after: WalkCounts,
)
    requires
        counted(before, visits, between),
    ensures
        counted(between, seq![visit], after) ==> counted(before, visits.push(visit), after),
        counted(between, seq![visit].drop_last(), after) ==> after == between,
        visits.push(visit).drop_last() == visits,
{
    assert(visits.push(visit).drop_last() =~= visits);
    assert(seq![visit].drop_last() =~= Seq::<Visit>::empty());
    reveal_with_fuel(tally, 2);
}

/// A walk starts with nothing visited.
pub proof fn lemma_walk_starts<P: Fn(u64, usize) -> Option<Vec<u8>>>(
    reader: FsReader,
    chunk_map: ChunkMap,
    pread: P,
    root: u64,
    bounds: Option<(Key, Key)>,
)
    ensures
        walked_so_far(
            reader,
            chunk_map,
            pread,
            root,
            bounds,
            Seq::<Visit>::empty(),
            seq![tree::root_ref(root)],
        ),
{
    let queues = seq![seq![tree::root_ref(root)]];
    assert(trace(reader, chunk_map, pread, bounds, queues, Seq::<Visit>::empty()));
}

/// One more visit.
pub proof fn lemma_walk_goes_on<P: Fn(u64, usize) -> Option<Vec<u8>>>(
    reader: FsReader,
    chunk_map: ChunkMap,
    pread: P,
    root: u64,
    bounds: Option<(Key, Key)>,
    visits: Seq<Visit>,
    left: Seq<NodeRef>,
    visit: Visit,
    after: Seq<NodeRef>,
)
    requires
        walked_so_far(reader, chunk_map, pread, root, bounds, visits, left),
        advanced(reader, chunk_map, pread, bounds, left, visit, after),
    ensures
        walked_so_far(reader, chunk_map, pread, root, bounds, visits.push(visit), after),
{
    let queues = choose|queues: Seq<Seq<NodeRef>>|
        {
            &&& #[trigger] trace(reader, chunk_map, pread, bounds, queues, visits)
            &&& queues[0] == seq![tree::root_ref(root)]
            &&& queues.last() == left
        };
    let more = queues.push(after);
    let all = visits.push(visit);
    assert forall|k: int| 0 <= k < all.len() implies advanced(
        reader,
        chunk_map,
        pread,
        bounds,
        more[k],
        #[trigger] all[k],
        more[k + 1],
    ) by {
        if k < visits.len() {
            assert(all[k] == visits[k]);
        }
    }
    assert(trace(reader, chunk_map, pread, bounds, more, all));
}

// ---------------------------------------------------------------------------
// A walk comes to an end
// ---------------------------------------------------------------------------

spec fn power(base: nat, exponent: nat) -> nat
    decreases exponent,
{
    if exponent == 0 {
        1
    } else {
        base * power(base, (exponent - 1) as nat)
    }
}

proof fn lemma_power_grows(base: nat, low: nat, high: nat)
    requires
        base >= 1,
        low <= high,
    ensures
        1 <= power(base, low) <= power(base, high),
    decreases high,
{
    if high > 0 {
        let p = power(base, (high - 1) as nat);
        if low < high {
            lemma_power_grows(base, low, (high - 1) as nat);
        } else {
            lemma_power_grows(base, (low - 1) as nat, (high - 1) as nat);
        }
        assert(base * p >= p >= 1) by (nonlinear_arith)
            requires
                base >= 1,
                p >= 1,
        ;
    }
}

/// Levels that can lie below and at the node.
spec fn height(node: NodeRef) -> nat {
    match node.exp_level {
        Some(l) => (l + 1) as nat,
        None => 256,
    }
}

/// A bound on the reads that are left, with `n` the size of a node.
pub closed spec fn work(queue: Seq<NodeRef>, n: nat) -> nat
    decreases queue.len(),
{
    if queue.len() == 0 {
        0
    } else {
        work(queue.drop_last(), n) + power(n, height(queue.last()))
    }
}

proof fn lemma_work_adds(a: Seq<NodeRef>, b: Seq<NodeRef>, n: nat)
    ensures
        work(a + b, n) == work(a, n) + work(b, n),
    decreases b.len(),
{
    if b.len() == 0 {
        assert(a + b =~= a);
    } else {
        lemma_work_adds(a, b.drop_last(), n);
        assert((a + b).drop_last() =~= a + b.drop_last());
        assert((a + b).last() == b.last());
    }
}

proof fn lemma_work_level(queue: Seq<NodeRef>, n: nat, h: nat)
    requires
        forall|i: int| 0 <= i < queue.len() ==> height(#[trigger] queue[i]) == h,
    ensures
        work(queue, n) == queue.len() * power(n, h),
    decreases queue.len(),
{
    let p = power(n, h);
    if queue.len() > 0 {
        let rest = queue.drop_last();
        assert forall|i: int| 0 <= i < rest.len() implies height(#[trigger] rest[i]) == h by {
            assert(rest[i] == queue[i]);
        }
        lemma_work_level(rest, n, h);
        assert(height(queue[queue.len() - 1]) == h);
        assert(rest.len() * p + p == queue.len() * p) by (nonlinear_arith)
            requires
                rest.len() + 1 == queue.len(),
        ;
    } else {
        assert(queue.len() * p == 0) by (nonlinear_arith)
            requires
                queue.len() == 0,
        ;
    }
}

proof fn lemma_children_count(
    ptrs: Seq<crate::btrfs::key::KeyPtr>,
    bounds: Option<(Key, Key)>,
    level: u8,
    owner: u64,
    k: int,
)
    requires
        0 <= k <= ptrs.len(),
    ensures
        tree::children_from(ptrs, bounds, level, owner, k).len() <= ptrs.len() - k,
    decreases ptrs.len() - k,
{
    if k < ptrs.len() {
        lemma_children_count(ptrs, bounds, level, owner, k + 1);
    }
}

/// What a verified read guarantees of a node that is visited or descended into:
/// it is there, it has the level that was expected of it, a leaf is at level 0,
/// and an internal node has fewer pointers than bytes.
pub proof fn lemma_read_is_verified<P: Fn(u64, usize) -> Option<Vec<u8>>>(
    reader: FsReader,
    chunk_map: ChunkMap,
    pread: P,
    node: NodeRef,
    got: Result<ReadNodeResult, ReadError>,
)
    requires
        store_set(reader, chunk_map, pread),
        ref_read(reader, chunk_map, pread, node, got),
        tree::usable(got),
    ensures
        got->Ok_0.node is Some,
        node.exp_level matches Some(l) ==> got->Ok_0.node.unwrap().spec_header().level == l,
        got->Ok_0.node.unwrap() is Internal <==> got->Ok_0.node.unwrap().spec_header().level > 0,
        got->Ok_0.node.unwrap() matches Node::Internal(internal) ==> internal.ptrs@.len()
            < reader.node_size,
{
    let gen = match node.exp_gen {
        Some(g) => g,
        None => GEN_DONT_CHECK,
    };
    let (positions, copies) = choose|positions: Seq<u64>, copies: Seq<Option<Vec<u8>>>|
        {
            &&& #[trigger] reader::copies_read(pread, reader.node_size, positions, copies)
            &&& reader.copy_offsets(chunk_map, node.logical, positions)
            &&& reader.judged(copies, node.logical, gen, node.exp_level, node.exp_owner, got)
        };
    let kinds = reader.copy_kinds(copies, node.logical, gen, node.exp_level, node.exp_owner);
    let i = choose|i: int|
        {
            &&& #[trigger] reader::chosen(kinds, i)
            &&& crate::btrfs::node::node_in_bounds(copies[i].unwrap()@)
            &&& crate::btrfs::node::node_of(got->Ok_0.node.unwrap(), copies[i].unwrap()@)
        };
    reader::law_node_is_the_expected_one(
        reader,
        copies,
        node.logical,
        gen,
        node.exp_level,
        node.exp_owner,
        i,
    );
    assert(call_ensures(pread, (positions[i], reader.node_size), copies[i]));
    let buf = copies[i].unwrap()@;
    assert(buf.len() == reader.node_size);
}

/// Each visit leaves less to do.
proof fn lemma_work_shrinks<P: Fn(u64, usize) -> Option<Vec<u8>>>(
    reader: FsReader,
    chunk_map: ChunkMap,
    pread: P,
    bounds: Option<(Key, Key)>,
    before: Seq<NodeRef>,
    got: Result<ReadNodeResult, ReadError>,
)
    requires
        store_set(reader, chunk_map, pread),
        before.len() > 0,
        ref_read(reader, chunk_map, pread, before.last(), got),
    ensures
        work(tree::queue_after(before.drop_last(), bounds, got), reader.node_size as nat) < work(
            before,
            reader.node_size as nat,
        ),
{
    let n = reader.node_size as nat;
    let rest = before.drop_last();
    let node = before.last();
    let h = height(node);
    lemma_power_grows(n, 0, h);
    if tree::usable(got) {
        lemma_read_is_verified(reader, chunk_map, pread, node, got);
        match got->Ok_0.node.unwrap() {
            Node::Internal(internal) => {
                let level = internal.header.level;
                let ptrs = internal.ptrs@;
                let owner = internal.header.owner;
                let kids = tree::children(internal, bounds);
                lemma_children_count(ptrs, bounds, level, owner, 0);
                assert forall|i: int| 0 <= i < kids.reverse().len() implies height(
                    #[trigger] kids.reverse()[i],
                ) == level by {
                    tree::lemma_children_levels(
                        ptrs,
                        bounds,
                        level,
                        owner,
                        0,
                        kids.len() - 1 - i,
                    );
                }
                lemma_work_level(kids.reverse(), n, level as nat);
                lemma_work_adds(rest, kids.reverse(), n);
                lemma_power_grows(n, (level + 1) as nat, h);
                lemma_power_grows(n, 0, level as nat);
                let p = power(n, level as nat);
                let count = kids.len();
                assert(count * p < n * p) by (nonlinear_arith)
                    requires
                        count < n,
                        p >= 1,
                ;
                assert(power(n, (level + 1) as nat) == n * p);
            },
            Node::Leaf(_) => {},
        }
    }
}

/// Reads the next node of a walk and takes it in; `None` when the walk is over.
/// Says which positions are worth reading ahead, and of which node no copy
/// could be verified.
pub fn advance<P: Fn(u64, usize) -> Option<Vec<u8>>, T: Fn(WalkTell)>(
    walk: &mut TreeWalk,
    reader: &FsReader,
    chunk_map: &ChunkMap,
    pread: &P,
    tell: &T,
) -> (r: Option<Visit>)
    requires
        store_set(*reader, *chunk_map, *pread),
        tells(*tell),
    ensures
        final(walk).bounds() == old(walk).bounds(),
        match r {
            None => old(walk).queue().len() == 0 && final(walk).queue() == old(walk).queue(),
            Some(visit) => {
                &&& advanced(
                    *reader,
                    *chunk_map,
                    *pread,
                    old(walk).bounds(),
                    old(walk).queue(),
                    visit,
                    final(walk).queue(),
                )
                &&& work(final(walk).queue(), reader.node_size as nat) < work(
                    old(walk).queue(),
                    reader.node_size as nat,
                )
                &&& visit_told(*reader, *chunk_map, *tell, visit)
            },
        },
{
    let node = match walk.next() {
        Some(node) => node,
        None => {
            return None;
        },
    };
    let (got, mirrors) = reader.fetch_node(
        chunk_map,
        pread,
        node.logical,
        node.expected_generation(),
        node.exp_level,
        node.exp_owner,
    );
    let ghost taken = got;
    proof {
        assert(ref_read(*reader, *chunk_map, *pread, node, taken));
        if tree::usable(taken) {
            lemma_read_is_verified(*reader, *chunk_map, *pread, node, taken);
        }
        lemma_work_shrinks(
            *reader,
            *chunk_map,
            *pread,
            old(walk).bounds(),
            old(walk).queue(),
            taken,
        );
    }
    let step = walk.step(got);
    let ghost met = Visit { logical: node.logical, step };
    match &step {
        WalkStep::MetadataError => {
            let told = tell(WalkTell::Unverifiable { logical: node.logical, mirrors });
            assert(told == ());
            assert(copies_looked_for(*chunk_map, met.logical, mirrors));
            assert(met.step is MetadataError);
            assert(visit_told(*reader, *chunk_map, *tell, met));
        },
        WalkStep::Descended { prefetch, .. } => {
            let n: usize = prefetch.len();
            let mut i: usize = 0;
            while i < n
                invariant
                    i <= n,
                    n == prefetch@.len(),
                    chunk_map.wf(),
                    tells(*tell),
                    forall|j: int|
                        0 <= j < i ==> hinted(*reader, *chunk_map, *tell, #[trigger] prefetch@[j]),
                decreases n - i,
            {
                read_ahead(reader, chunk_map, prefetch[i], tell);
                i = i + 1;
            }
            assert(visit_told(*reader, *chunk_map, *tell, met));
        },
        _ => {},
    }
    Some(Visit { logical: node.logical, step })
}

/// Hints every mirror copy of a node.
fn read_ahead<T: Fn(WalkTell)>(reader: &FsReader, chunk_map: &ChunkMap, logical: u64, tell: &T)
    requires
        chunk_map.wf(),
        tells(*tell),
    ensures
        hinted(*reader, *chunk_map, *tell, logical),
{
    let positions = reader.prefetch_logical(chunk_map, logical);
    let n: usize = positions.len();
    let mut i: usize = 0;
    while i < n
        invariant
            i <= n,
            n == positions@.len(),
            tells(*tell),
            forall|j: int| 0 <= j < i ==> position_told(*tell, #[trigger] positions@[j]),
        decreases n - i,
    {
        let told = tell(WalkTell::ReadAhead { position: positions[i] });
        assert(told == ());
        assert(position_told(*tell, positions@[i as int]));
        i = i + 1;
    }
    assert forall|e: int, k: int|
        #![trigger chunk_map@[e].copies(logical)[k]]
        chunk_map.found(logical, e) && 0 <= k < chunk_map@[e].stripes@.len() implies call_ensures(
        *tell,
        (
            WalkTell::ReadAhead {
                position: reader::saturate(
                    reader.base_offset + chunk_map@[e].copies(logical)[k].1,
                ),
            },
        ),
        (),
    ) by {
        assert(position_told(*tell, positions@[k]));
    }
}

/// The position was told.
spec fn position_told<T: Fn(WalkTell)>(tell: T, position: u64) -> bool {
    call_ensures(tell, (WalkTell::ReadAhead { position },), ())
}

// ---------------------------------------------------------------------------
// Laws
// ---------------------------------------------------------------------------

/// The leaves among the visits.
pub open spec fn leaves_of(visits: Seq<Visit>) -> Seq<u64>
    decreases visits.len(),
{
    if visits.len() == 0 {
        Seq::empty()
    } else if visits.last().step is Leaf {
        leaves_of(visits.drop_last()).push(visits.last().logical)
    } else {
        leaves_of(visits.drop_last())
    }
}

/// Two nodes with the same contents.
pub open spec fn same_node(a: Option<Node>, b: Option<Node>) -> bool {
    match (a, b) {
        (Some(Node::Leaf(x)), Some(Node::Leaf(y))) => {
            &&& x.slots@ == y.slots@
            &&& x.buf@ == y.buf@
        },
        (Some(Node::Internal(x)), Some(Node::Internal(y))) => {
            &&& x.ptrs@ == y.ptrs@
            &&& x.header.level == y.header.level
            &&& x.header.owner == y.header.owner
        },
        (None, None) => true,
        _ => false,
    }
}

/// Two reads that came to the same.
pub open spec fn same_read(
    a: Result<ReadNodeResult, ReadError>,
    b: Result<ReadNodeResult, ReadError>,
) -> bool {
    match (a, b) {
        (Ok(x), Ok(y)) => {
            &&& x.all_mirrors_failed == y.all_mirrors_failed
            &&& x.generation_mismatch == y.generation_mismatch
            &&& x.mirror_mismatch == y.mirror_mismatch
            &&& same_node(x.node, y.node)
        },
        (Err(x), Err(y)) => x == y,
        _ => false,
    }
}

/// The store stands still: `reads` is what it gives for each node, however often
/// that is read.
pub open spec fn stands_still<P: Fn(u64, usize) -> Option<Vec<u8>>>(
    reader: FsReader,
    chunk_map: ChunkMap,
    pread: P,
    reads: tree::Reads,
) -> bool {
    &&& forall|node: NodeRef|
        ref_read(reader, chunk_map, pread, node, #[trigger] reads(node))
    &&& forall|node: NodeRef, got: Result<ReadNodeResult, ReadError>| #[trigger]
        ref_read(reader, chunk_map, pread, node, got) ==> same_read(got, reads(node))
}

proof fn lemma_trace_is_walked<P: Fn(u64, usize) -> Option<Vec<u8>>>(
    reader: FsReader,
    chunk_map: ChunkMap,
    pread: P,
    bounds: Option<(Key, Key)>,
    queues: Seq<Seq<NodeRef>>,
    visits: Seq<Visit>,
    reads: tree::Reads,
    k: nat,
)
    requires
        store_set(reader, chunk_map, pread),
        stands_still(reader, chunk_map, pread, reads),
        trace(reader, chunk_map, pread, bounds, queues, visits),
        k <= visits.len(),
    ensures
        tree::walked(reads, bounds, queues[0], k) == (queues[k as int], leaves_of(
            visits.take(k as int),
        )),
    decreases k,
{
    if k > 0 {
        let j = (k - 1) as nat;
        lemma_trace_is_walked(reader, chunk_map, pread, bounds, queues, visits, reads, j);
        tree::lemma_walked_adds(reads, bounds, queues[0], j, 1);
        let before = queues[j as int];
        let node = before.last();
        let visit = visits[j as int];
        assert(advanced(
            reader,
            chunk_map,
            pread,
            bounds,
            queues[j as int],
            visits[j as int],
            queues[k as int],
        ));
        let got = choose|got: Result<ReadNodeResult, ReadError>|
            {
                &&& #[trigger] ref_read(reader, chunk_map, pread, node, got)
                &&& tree::step_of(got, bounds, visit.step)
                &&& queues[k as int] == tree::queue_after(before.drop_last(), bounds, got)
            };
        assert(same_read(got, reads(node)));
        if tree::usable(got) {
            lemma_read_is_verified(reader, chunk_map, pread, node, got);
        }
        assert(queues[k as int] == tree::queue_after(
            before.drop_last(),
            bounds,
            reads(node),
        ));
        reveal_with_fuel(tree::walked, 2);
        let one = tree::walked(reads, bounds, before, 1);
        assert(one.0 == queues[k as int]);
        assert(visits.take(k as int).drop_last() =~= visits.take(j as int));
        assert(visits.take(k as int).last() == visit);
        assert(leaves_of(visits.take(j as int)) + one.1 =~= leaves_of(visits.take(k as int)));
    } else {
        assert(visits.take(0).len() == 0);
    }
}

/// A walk over a store that stands still leaves nothing out: when it is over,
/// the leaves it visited are exactly those of the tree that can be read and
/// verified, each once and in key order.
pub proof fn law_walk_of_store_is_complete<P: Fn(u64, usize) -> Option<Vec<u8>>>(
    reader: FsReader,
    chunk_map: ChunkMap,
    pread: P,
    root: u64,
    bounds: Option<(Key, Key)>,
    visits: Seq<Visit>,
    reads: tree::Reads,
)
    requires
        store_set(reader, chunk_map, pread),
        stands_still(reader, chunk_map, pread, reads),
        walked_so_far(reader, chunk_map, pread, root, bounds, visits, Seq::<NodeRef>::empty()),
    ensures
        leaves_of(visits) == tree::leaves_under(reads, bounds, tree::root_ref(root), 256),
{
    let queues = choose|queues: Seq<Seq<NodeRef>>|
        {
            &&& #[trigger] trace(reader, chunk_map, pread, bounds, queues, visits)
            &&& queues[0] == seq![tree::root_ref(root)]
            &&& queues.last() == Seq::<NodeRef>::empty()
        };
    let m = visits.len();
    lemma_trace_is_walked(reader, chunk_map, pread, bounds, queues, visits, reads, m);
    assert(visits.take(m as int) =~= visits);
    assert forall|node: NodeRef|
        tree::usable(#[trigger] reads(node)) && reads(node)->Ok_0.node is Some implies {
        let found = reads(node)->Ok_0.node.unwrap();
        &&& node.exp_level matches Some(l) ==> found.spec_header().level == l
        &&& found is Internal <==> found.spec_header().level > 0
    } by {
        assert(ref_read(reader, chunk_map, pread, node, reads(node)));
        lemma_read_is_verified(reader, chunk_map, pread, node, reads(node));
    }
    tree::law_walk_ends(reads, bounds, tree::root_ref(root), 255);
    tree::law_walk_visits_every_leaf(reads, bounds, root, 256);
    let start = seq![tree::root_ref(root)];
    let none = Seq::<NodeRef>::empty();
    let n = choose|n: nat|
        (#[trigger] tree::walked(reads, bounds, start, n)) == (
            none,
            tree::leaves_under(reads, bounds, tree::root_ref(root), 256),
        );
    if m <= n {
        tree::lemma_walked_adds(reads, bounds, start, m, (n - m) as nat);
        assert(tree::walked(reads, bounds, none, (n - m) as nat) == (none, Seq::<u64>::empty()));
        assert(leaves_of(visits) + Seq::<u64>::empty() =~= leaves_of(visits));
    } else {
        let under = tree::leaves_under(reads, bounds, tree::root_ref(root), 256);
        tree::lemma_walked_adds(reads, bounds, start, n, (m - n) as nat);
        assert(tree::walked(reads, bounds, none, (m - n) as nat) == (none, Seq::<u64>::empty()));
        assert(under + Seq::<u64>::empty() =~= under);
    }
}

/// Some leaf among the visits has an item under key `x`.
pub open spec fn key_visited(visits: Seq<Visit>, x: Key) -> bool {
    exists|k: int|
        0 <= k < visits.len() && (#[trigger] visits[k]).step is Leaf && tree::has_key(
            visits[k].step->leaf,
            x,
        )
}

/// A node that is still to be read, and under which the walk comes to `x`, has
/// the walk come to `x` by its end.
proof fn lemma_key_is_met<P: Fn(u64, usize) -> Option<Vec<u8>>>(
    reader: FsReader,
    chunk_map: ChunkMap,
    pread: P,
    bounds: Option<(Key, Key)>,
    queues: Seq<Seq<NodeRef>>,
    visits: Seq<Visit>,
    reads: tree::Reads,
    j: int,
    at: int,
    depth: nat,
    x: Key,
)
    requires
        store_set(reader, chunk_map, pread),
        stands_still(reader, chunk_map, pread, reads),
        trace(reader, chunk_map, pread, bounds, queues, visits),
        queues.last().len() == 0,
        0 <= j <= visits.len(),
        0 <= at < queues[j].len(),
        tree::key_under(reads, bounds, queues[j][at], depth, x),
    ensures
        key_visited(visits, x),
    decreases visits.len() - j,
{
    assert(j < visits.len());
    let before = queues[j];
    let after = queues[j + 1];
    let rest = before.drop_last();
    let visit = visits[j];
    assert(advanced(reader, chunk_map, pread, bounds, queues[j], visits[j], queues[j + 1]));
    let got = choose|got: Result<ReadNodeResult, ReadError>|
        {
            &&& #[trigger] ref_read(reader, chunk_map, pread, before.last(), got)
            &&& tree::step_of(got, bounds, visit.step)
            &&& after == tree::queue_after(rest, bounds, got)
        };
    if at < rest.len() {
        assert(after[at] == before[at]);
        lemma_key_is_met(
            reader,
            chunk_map,
            pread,
            bounds,
            queues,
            visits,
            reads,
            j + 1,
            at,
            depth,
            x,
        );
    } else {
        assert(before[at] == before.last());
        assert(same_read(got, reads(before.last())));
        match reads(before.last())->Ok_0.node {
            Some(Node::Leaf(leaf)) => {
                assert(visits[j].step->leaf.slots@ == leaf.slots@);
                assert(key_visited(visits, x));
            },
            Some(Node::Internal(internal)) => {
                let kids = tree::children(internal, bounds);
                let below = (depth - 1) as nat;
                let k = choose|k: int|
                    {
                        &&& 0 <= k < tree::children(internal, bounds).len()
                        &&& tree::key_under(
                            reads,
                            bounds,
                            #[trigger] tree::children(internal, bounds)[k],
                            below,
                            x,
                        )
                    };
                let to = rest.len() + (kids.len() - 1 - k);
                assert(after == rest + kids.reverse());
                assert(after[to] == kids[k]);
                lemma_key_is_met(
                    reader,
                    chunk_map,
                    pread,
                    bounds,
                    queues,
                    visits,
                    reads,
                    j + 1,
                    to,
                    below,
                    x,
                );
            },
            None => {},
        }
    }
}

/// A walk over a store that stands still comes, by its end, to every item that
/// can be reached from the root.
pub proof fn law_walk_of_store_meets_every_key<P: Fn(u64, usize) -> Option<Vec<u8>>>(
    reader: FsReader,
    chunk_map: ChunkMap,
    pread: P,
    root: u64,
    bounds: Option<(Key, Key)>,
    visits: Seq<Visit>,
    reads: tree::Reads,
    depth: nat,
    x: Key,
)
    requires
        store_set(reader, chunk_map, pread),
        stands_still(reader, chunk_map, pread, reads),
        walked_so_far(reader, chunk_map, pread, root, bounds, visits, Seq::<NodeRef>::empty()),
        tree::key_under(reads, bounds, tree::root_ref(root), depth, x),
    ensures
        key_visited(visits, x),
{
    let queues = choose|queues: Seq<Seq<NodeRef>>|
        {
            &&& #[trigger] trace(reader, chunk_map, pread, bounds, queues, visits)
            &&& queues[0] == seq![tree::root_ref(root)]
            &&& queues.last() == Seq::<NodeRef>::empty()
        };
    assert(queues[0][0] == tree::root_ref(root));
    lemma_key_is_met(
        reader,
        chunk_map,
        pread,
        bounds,
        queues,
        visits,
        reads,
        0,
        0,
        depth,
        x,
    );
}

/// Two visits that came to the same: of the same node, with the same failure or
/// none, and of a leaf with the same contents.
pub open spec fn same_visit(a: Visit, b: Visit) -> bool {
    &&& a.logical == b.logical
    &&& tree::failure_of(a.step) == tree::failure_of(b.step)
    &&& a.step is Malformed <==> b.step is Malformed
    &&& a.step is Leaf <==> b.step is Leaf
    &&& a.step is Leaf ==> a.step->leaf.slots@ == b.step->leaf.slots@ && a.step->leaf.buf@
        == b.step->leaf.buf@
}

/// Reads that came to the same make the same visit, and leave the same to be
/// read.
proof fn lemma_same_read_same_visit<P: Fn(u64, usize) -> Option<Vec<u8>>>(
    reader: FsReader,
    chunk_map: ChunkMap,
    pread: P,
    bounds: Option<(Key, Key)>,
    reads: tree::Reads,
    before: Seq<NodeRef>,
    x: Visit,
    after_x: Seq<NodeRef>,
    y: Visit,
    after_y: Seq<NodeRef>,
)
    requires
        store_set(reader, chunk_map, pread),
        stands_still(reader, chunk_map, pread, reads),
        advanced(reader, chunk_map, pread, bounds, before, x, after_x),
        advanced(reader, chunk_map, pread, bounds, before, y, after_y),
    ensures
        same_visit(x, y),
        after_x == after_y,
{
    let node = before.last();
    let a = choose|got: Result<ReadNodeResult, ReadError>|
        {
            &&& #[trigger] ref_read(reader, chunk_map, pread, node, got)
            &&& tree::step_of(got, bounds, x.step)
            &&& after_x == tree::queue_after(before.drop_last(), bounds, got)
        };
    let b = choose|got: Result<ReadNodeResult, ReadError>|
        {
            &&& #[trigger] ref_read(reader, chunk_map, pread, node, got)
            &&& tree::step_of(got, bounds, y.step)
            &&& after_y == tree::queue_after(before.drop_last(), bounds, got)
        };
    assert(same_read(a, reads(node)));
    assert(same_read(b, reads(node)));
    if tree::usable(a) {
        lemma_read_is_verified(reader, chunk_map, pread, node, a);
    }
    if tree::usable(b) {
        lemma_read_is_verified(reader, chunk_map, pread, node, b);
    }
}

/// Up to the end of the shorter one, two walks agree.
proof fn lemma_walks_agree<P: Fn(u64, usize) -> Option<Vec<u8>>>(
    reader: FsReader,
    chunk_map: ChunkMap,
    pread: P,
    bounds: Option<(Key, Key)>,
    reads: tree::Reads,
    queues_a: Seq<Seq<NodeRef>>,
    a: Seq<Visit>,
    queues_b: Seq<Seq<NodeRef>>,
    b: Seq<Visit>,
    k: int,
)
    requires
        store_set(reader, chunk_map, pread),
        stands_still(reader, chunk_map, pread, reads),
        trace(reader, chunk_map, pread, bounds, queues_a, a),
        trace(reader, chunk_map, pread, bounds, queues_b, b),
        queues_a[0] == queues_b[0],
        0 <= k <= a.len(),
        k <= b.len(),
    ensures
        queues_a[k] == queues_b[k],
        forall|j: int| 0 <= j < k ==> same_visit(#[trigger] a[j], b[j]),
    decreases k,
{
    if k > 0 {
        lemma_walks_agree(
            reader,
            chunk_map,
            pread,
            bounds,
            reads,
            queues_a,
            a,
            queues_b,
            b,
            k - 1,
        );
        let x = a[k - 1];
        let y = b[k - 1];
        lemma_same_read_same_visit(
            reader,
            chunk_map,
            pread,
            bounds,
            reads,
            queues_a[k - 1],
            x,
            queues_a[k],
            y,
            queues_b[k],
        );
    }
}

/// Two walks over a store that stands still agree visit for visit, as far as
/// both go, and one that is over is never the shorter of the two.
pub proof fn law_walks_of_still_store_agree<P: Fn(u64, usize) -> Option<Vec<u8>>>(
    reader: FsReader,
    chunk_map: ChunkMap,
    pread: P,
    root: u64,
    bounds: Option<(Key, Key)>,
    reads: tree::Reads,
    a: Seq<Visit>,
    left_a: Seq<NodeRef>,
    b: Seq<Visit>,
    left_b: Seq<NodeRef>,
)
    requires
        store_set(reader, chunk_map, pread),
        stands_still(reader, chunk_map, pread, reads),
        walked_so_far(reader, chunk_map, pread, root, bounds, a, left_a),
        walked_so_far(reader, chunk_map, pread, root, bounds, b, left_b),
    ensures
        forall|j: int| 0 <= j < a.len() && j < b.len() ==> same_visit(#[trigger] a[j], b[j]),
        left_a.len() == 0 ==> b.len() <= a.len(),
        left_b.len() == 0 ==> a.len() <= b.len(),
{
    let queues_a = choose|queues: Seq<Seq<NodeRef>>|
        {
            &&& #[trigger] trace(reader, chunk_map, pread, bounds, queues, a)
            &&& queues[0] == seq![tree::root_ref(root)]
            &&& queues.last() == left_a
        };
    let queues_b = choose|queues: Seq<Seq<NodeRef>>|
        {
            &&& #[trigger] trace(reader, chunk_map, pread, bounds, queues, b)
            &&& queues[0] == seq![tree::root_ref(root)]
            &&& queues.last() == left_b
        };
    let k = if a.len() < b.len() {
        a.len() as int
    } else {
        b.len() as int
    };
    lemma_walks_agree(reader, chunk_map, pread, bounds, reads, queues_a, a, queues_b, b, k);
    if a.len() < b.len() {
        let next = b[k];
        assert(queues_b[k].len() > 0);
    } else if b.len() < a.len() {
        let next = a[k];
        assert(queues_a[k].len() > 0);
    }
}

} // verus!
