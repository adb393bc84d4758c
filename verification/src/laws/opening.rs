//! Opening a filesystem, and looking its roots up again while it lives.

use vstd::prelude::*;

use crate::btrfs::chunk;
use crate::btrfs::chunk::{ChunkMap, ChunkRecord};
use crate::btrfs::csum_strategy::CsumStrategy;
use crate::btrfs::dev_extent;
use crate::btrfs::dev_extent::{DevExtent, DevExtentError};
use crate::btrfs::extent;
use crate::btrfs::node::Leaf;
use crate::btrfs::open;
use crate::btrfs::open::{BtrfsContext, LiveRead, LiveRoots, OpenError, OpenScan};
use crate::btrfs::reader::FsReader;
use crate::btrfs::scrub_driver;
use crate::btrfs::scrub_driver::{
    BtrfsReconfirmer, BtrfsScrub, LiveCheck, LiveError, LiveVerdict,
};
use crate::btrfs::superblock::Superblock;
use crate::btrfs::tree::{NodeRef, WalkCounts, WalkStep};
use crate::btrfs::util;
use crate::btrfs::walk;
use crate::btrfs::walk::{Visit, WalkTell};
use crate::fs::{Reconfirm, ReconfirmRequest};
use crate::laws::collecting;

verus! {

/// The root that the first `k` items of a leaf give for a tree, if any: the
/// address at 176 of the last root item, type 132, of that object.
pub open spec fn root_in(leaf: Leaf, id: u64, k: int) -> Option<u64>
    decreases k,
{
    if k <= 0 {
        None
    } else if collecting::gives_root(leaf, k - 1, id) {
        Some(util::le64(leaf.item(k - 1), 176))
    } else {
        root_in(leaf, id, k - 1)
    }
}

/// The root that the leaves visited give for a tree, the last one counting.
pub open spec fn root_among(visits: Seq<Visit>, id: u64) -> Option<u64>
    decreases visits.len(),
{
    if visits.len() == 0 {
        None
    } else {
        let earlier = root_among(visits.drop_last(), id);
        match visits.last().step {
            WalkStep::Leaf { leaf, .. } => match root_in(leaf, id, leaf.slots@.len() as int) {
                Some(root) => Some(root),
                None => earlier,
            },
            _ => earlier,
        }
    }
}

proof fn lemma_root_in(leaf: Leaf, id: u64, before: Option<u64>, k: int)
    requires
        k <= leaf.slots@.len(),
    ensures
        open::root_upto(leaf, id, before, k) == (match root_in(leaf, id, k) {
            Some(root) => Some(root),
            None => before,
        }),
    decreases k,
{
    if k > 0 {
        lemma_root_in(leaf, id, before, k - 1);
    }
}

proof fn lemma_root_among(visits: Seq<Visit>, id: u64)
    ensures
        open::root_found(visits, id, None) == root_among(visits, id),
    decreases visits.len(),
{
    if visits.len() > 0 {
        lemma_root_among(visits.drop_last(), id);
        if let WalkStep::Leaf { leaf, .. } = visits.last().step {
            lemma_root_in(
                leaf,
                id,
                root_among(visits.drop_last(), id),
                leaf.slots@.len() as int,
            );
        }
    }
}

/// The records hold every chunk item of the leaves visited.
pub open spec fn records_hold_chunks(visits: Seq<Visit>, recs: Seq<ChunkRecord>) -> bool {
    forall|v: int, leaf: Leaf, i: int|
        #[trigger] collecting::visited(visits, v, leaf) && 0 <= i < leaf.slots@.len()
            && #[trigger] leaf.slots@[i].key.ty == 228 ==> has_record(recs, leaf, i)
}

/// Some record is the chunk item, at its key's address.
pub open spec fn has_record(recs: Seq<ChunkRecord>, leaf: Leaf, i: int) -> bool {
    exists|at: int|
        {
            &&& 0 <= at < recs.len()
            &&& (#[trigger] recs[at]).logical == leaf.slots@[i].key.offset
            &&& chunk::chunk_item_of(recs[at].chunk, leaf.item(i))
        }
}

/// An opened filesystem is what its trees say: the chunk tree under the
/// superblock's chunk root was walked to its end and every chunk of it recorded
/// and mapped; the root tree under the superblock's root was walked to its end,
/// and trees 5, 7, 4 and 2 are where its last root items put them.
pub proof fn law_opened_filesystem_is_what_its_trees_say<
    P: Fn(u64, usize) -> Option<Vec<u8>>,
    T: Fn(WalkTell),
>(
    superblock: Superblock,
    primary_ok: bool,
    dev_size: u64,
    base_offset: u64,
    pread: P,
    tell: T,
    ctx: BtrfsContext,
) -> (r: (OpenScan, Seq<Visit>, Seq<ChunkRecord>, Seq<Visit>))
    requires
        open::opened(
            superblock,
            primary_ok,
            dev_size,
            base_offset,
            pread,
            tell,
            Ok::<BtrfsContext, OpenError>(ctx),
        ),
    ensures
        superblock.num_devices == 1,
        dev_size == 0 || base_offset + superblock.total_bytes <= dev_size,
        ctx.superblock == superblock,
        ctx.reader.base_offset == base_offset,
        ctx.reader.node_size == superblock.node_size,
        ctx.reader.devid == Some(superblock.devid),
        ctx.reader.fsid == Some(superblock.fsid),
        ({
            let (scan, chunk_visits, recs, root_visits) = r;
            let none = Seq::<NodeRef>::empty();
            &&& walk::walked_so_far(
                scan.reader,
                scan.chunk_map,
                pread,
                superblock.chunk_root,
                None,
                chunk_visits,
                none,
            )
            &&& records_hold_chunks(chunk_visits, recs)
            &&& chunk::all_inserted(scan.chunk_map@, recs, ctx.chunk_map@)
            &&& walk::walked_so_far(
                ctx.reader,
                ctx.chunk_map,
                pread,
                superblock.root,
                None,
                root_visits,
                none,
            )
            &&& root_among(root_visits, 5) == Some(ctx.roots.fs_root)
            &&& root_among(root_visits, 7) == Some(ctx.roots.csum_root)
            &&& root_among(root_visits, 4) == ctx.roots.dev_tree_root
            &&& root_among(root_visits, 2) == ctx.roots.extent_tree_root
        }),
{
    let ok = Ok::<BtrfsContext, OpenError>(ctx);
    let none = Seq::<NodeRef>::empty();
    let scan = choose|scan: OpenScan| #[trigger]
        open::begun(superblock, primary_ok, dev_size, base_offset, Ok(scan)) && open::opened_from(
            scan,
            pread,
            tell,
            ok,
        );
    collecting::law_filesystem_is_let_in_iff_it_fits(superblock, dev_size, base_offset);
    let (walked, mapped) = choose|walked: OpenScan, mapped: OpenScan|
        open::chunks_read(scan, pread, tell, walked, Ok(())) && #[trigger] walked.chunks_finished(
            mapped,
            Ok(()),
        ) && open::rooted_from(mapped, pread, tell, ok);
    let (cv, cleft) = choose|visits: Seq<Visit>, left: Seq<NodeRef>|
        {
            &&& #[trigger] walk::walked_so_far(
                scan.reader,
                scan.chunk_map,
                pread,
                scan.superblock.chunk_root,
                None,
                visits,
                left,
            )
            &&& walk::visits_told(scan.reader, scan.chunk_map, tell, visits)
            &&& open::chunks_walked(scan, visits, left, walked, Ok::<(), OpenError>(()))
        };
    assert(cleft =~= none);
    let recs = walked.records@;
    let added = choose|added: Seq<ChunkRecord>| #[trigger]
        open::visit_records(cv, added) && walked.records@ == scan.records@ + added;
    assert(recs =~= added);
    assert(records_hold_chunks(cv, recs)) by {
        assert forall|v: int, leaf: Leaf, i: int|
            #[trigger] collecting::visited(cv, v, leaf) && 0 <= i < leaf.slots@.len()
                && #[trigger] leaf.slots@[i].key.ty == 228 implies has_record(recs, leaf, i) by {
            let at = collecting::law_every_chunk_is_recorded(cv, recs, v, leaf, i);
            assert(recs[at].logical == leaf.slots@[i].key.offset);
        }
    }
    let done = choose|done: OpenScan| #[trigger]
        open::roots_read(mapped, pread, tell, done, Ok(())) && done.finished(ok);
    let (rv, rleft) = choose|visits: Seq<Visit>, left: Seq<NodeRef>|
        {
            &&& #[trigger] walk::walked_so_far(
                mapped.reader,
                mapped.chunk_map,
                pread,
                mapped.superblock.root,
                None,
                visits,
                left,
            )
            &&& walk::visits_told(mapped.reader, mapped.chunk_map, tell, visits)
            &&& open::roots_walked(mapped, visits, left, done, Ok::<(), OpenError>(()))
        };
    assert(rleft =~= none);
    lemma_root_among(rv, 5);
    lemma_root_among(rv, 7);
    lemma_root_among(rv, 4);
    lemma_root_among(rv, 2);
    (scan, cv, recs, rv)
}

/// The address is that of a root item of the tree, in a leaf that was visited.
pub open spec fn is_root_of(visits: Seq<Visit>, id: u64, root: u64) -> bool {
    exists|v: int, leaf: Leaf, i: int|
        {
            &&& #[trigger] collecting::visited(visits, v, leaf)
            &&& #[trigger] collecting::gives_root(leaf, i, id)
            &&& root == util::le64(leaf.item(i), 176)
        }
}

proof fn lemma_root_in_is_an_item(leaf: Leaf, id: u64, k: int) -> (i: int)
    requires
        root_in(leaf, id, k) is Some,
    ensures
        collecting::gives_root(leaf, i, id),
        root_in(leaf, id, k) == Some(util::le64(leaf.item(i), 176)),
    decreases k,
{
    if collecting::gives_root(leaf, k - 1, id) {
        k - 1
    } else {
        lemma_root_in_is_an_item(leaf, id, k - 1)
    }
}

proof fn lemma_root_among_is_an_item(visits: Seq<Visit>, id: u64)
    requires
        root_among(visits, id) is Some,
    ensures
        is_root_of(visits, id, root_among(visits, id).unwrap()),
    decreases visits.len(),
{
    let front = visits.drop_last();
    let own = match visits.last().step {
        WalkStep::Leaf { leaf, .. } => root_in(leaf, id, leaf.slots@.len() as int),
        _ => None,
    };
    if own is Some {
        if let WalkStep::Leaf { leaf, .. } = visits.last().step {
            let i = lemma_root_in_is_an_item(leaf, id, leaf.slots@.len() as int);
            assert(collecting::visited(visits, visits.len() - 1, leaf));
        }
    } else {
        lemma_root_among_is_an_item(front, id);
        let root = root_among(front, id).unwrap();
        let (v, leaf, i) = choose|v: int, leaf: Leaf, i: int|
            {
                &&& #[trigger] collecting::visited(front, v, leaf)
                &&& #[trigger] collecting::gives_root(leaf, i, id)
                &&& root == util::le64(leaf.item(i), 176)
            };
        assert(front[v] == visits[v]);
        assert(collecting::visited(visits, v, leaf));
    }
}

/// Live roots are those of the extent tree, object 2, and of the checksum tree,
/// object 7, out of root items in the leaves of the live root tree; where a walk
/// to the end does not give both, there are none.
pub proof fn law_live_roots_are_the_trees_own(
    visits: Seq<Visit>,
    left: Seq<NodeRef>,
    read: LiveRead,
)
    requires
        open::live_searched(visits, left, Ok::<LiveRead, OpenError>(read)),
    ensures
        read.roots matches Some(roots) ==> is_root_of(visits, 2, roots.0) && is_root_of(
            visits,
            7,
            roots.1,
        ),
        read.roots is None ==> left.len() == 0 && (root_among(visits, 2) is None || root_among(
            visits,
            7,
        ) is None),
{
    lemma_root_among(visits, 2);
    lemma_root_among(visits, 7);
    if let Some(roots) = read.roots {
        let front = visits.drop_last();
        let before = open::live_found(front);
        lemma_root_among(front, 2);
        lemma_root_among(front, 7);
        if let WalkStep::Leaf { leaf, .. } = visits.last().step {
            let k = choose|k: int|
                {
                    &&& 0 < k <= leaf.slots@.len()
                    &&& open::all_roots_readable(leaf, k)
                    &&& (#[trigger] before.upto(leaf, k)) == (LiveRoots {
                        extent_root: Some(roots.0),
                        csum_root: Some(roots.1),
                    })
                    &&& !before.upto(leaf, k - 1).complete()
                };
            lemma_root_in(leaf, 2, before.extent_root, k);
            lemma_root_in(leaf, 7, before.csum_root, k);
            lemma_root_of_parts(visits, leaf, 2, k, roots.0);
            lemma_root_of_parts(visits, leaf, 7, k, roots.1);
        }
    }
}

proof fn lemma_root_of_parts(visits: Seq<Visit>, leaf: Leaf, id: u64, k: int, root: u64)
    requires
        visits.len() > 0,
        collecting::visited(visits, visits.len() - 1, leaf),
        root_in(leaf, id, k) == Some(root) || (root_in(leaf, id, k) is None && root_among(
            visits.drop_last(),
            id,
        ) == Some(root)),
    ensures
        is_root_of(visits, id, root),
{
    if root_in(leaf, id, k) is Some {
        let i = lemma_root_in_is_an_item(leaf, id, k);
    } else {
        let front = visits.drop_last();
        lemma_root_among_is_an_item(front, id);
        let (v, l, i) = choose|v: int, l: Leaf, i: int|
            {
                &&& #[trigger] collecting::visited(front, v, l)
                &&& #[trigger] collecting::gives_root(l, i, id)
                &&& root == util::le64(l.item(i), 176)
            };
        assert(front[v] == visits[v]);
        assert(collecting::visited(visits, v, l));
    }
}

/// Roots that were looked up are used again just while the generation is the one
/// they were looked up under.
pub proof fn law_cached_roots_are_of_their_generation(
    generation: u64,
    roots: (u64, u64),
    now: u64,
    r: Option<(u64, u64)>,
    fresh: Option<(u64, u64)>,
)
    requires
        call_ensures(
            scrub_driver::cached_roots_at,
            (Some((generation, roots.0, roots.1)), now),
            r,
        ),
        call_ensures(scrub_driver::cached_roots_at, (None::<(u64, u64, u64)>, now), fresh),
    ensures
        r is Some <==> now == generation,
        r matches Some(got) ==> got == roots,
        fresh is None,
{
}

/// A primary superblock that cannot be used counts as one disagreement; nothing
/// else is counted before the trees are walked.
pub proof fn law_unusable_primary_is_counted(
    superblock: Superblock,
    primary_ok: bool,
    dev_size: u64,
    base_offset: u64,
    scan: OpenScan,
)
    requires
        open::begun(superblock, primary_ok, dev_size, base_offset, Ok::<OpenScan, OpenError>(scan)),
    ensures
        primary_ok ==> scan.counts.mirror_mismatches == 0,
        !primary_ok ==> scan.counts.mirror_mismatches == 1,
        scan.counts.header_errors == 0,
        scan.counts.read_errors == 0,
        scan.superblock == superblock,
{
}

/// Without the device tree there is nothing to scrub, and that counts as one
/// metadata failure; with it the extents are those of its walk.
pub proof fn law_missing_device_tree_is_a_failure<
    P: Fn(u64, usize) -> Option<Vec<u8>>,
    T: Fn(WalkTell),
>(ctx: BtrfsContext, dev: Seq<char>, pread: P, tell: T, s: BtrfsScrub)
    requires
        BtrfsScrub::prepared(ctx, dev, pread, tell, Ok::<BtrfsScrub, DevExtentError>(s)),
    ensures
        ctx.roots.dev_tree_root is None ==> {
            &&& s.dev_extents@.len() == 0
            &&& s.counts.header_errors == ctx.metadata_header_errors + 1
            &&& s.counts.mirror_mismatches == ctx.metadata_mirror_mismatches
            &&& s.counts.read_errors == ctx.metadata_read_errors
        },
        ctx.roots.dev_tree_root matches Some(root) ==> exists|visits: Seq<Visit>|
            {
                &&& #[trigger] walk::walked_so_far(
                    ctx.reader,
                    ctx.chunk_map,
                    pread,
                    root,
                    None,
                    visits,
                    Seq::<NodeRef>::empty(),
                )
                &&& s.dev_extents@ == dev_extent::visit_extents(visits, ctx.superblock.devid)
            },
        s.dev@ == dev,
        s.strategy == ctx.strategy,
        s.csum_provider.csum_root() == ctx.roots.csum_root,
{
    if let Some(root) = ctx.roots.dev_tree_root {
        let (counts, walked) = choose|
            counts: WalkCounts,
            walked: Result<Vec<DevExtent>, DevExtentError>,
        |
            {
                &&& #[trigger] dev_extent::extents_read(
                    ctx.reader,
                    ctx.chunk_map,
                    pread,
                    tell,
                    root,
                    ctx.superblock.devid,
                    ctx.counts(),
                    counts,
                    walked,
                )
                &&& match walked {
                    Ok(extents) => s.of_context(ctx, dev) && s.dev_extents == extents && s.counts
                        == counts,
                    Err(e) => false,
                }
            };
        let (visits, left) = choose|visits: Seq<Visit>, left: Seq<NodeRef>|
            {
                &&& #[trigger] walk::walked_so_far(
                    ctx.reader,
                    ctx.chunk_map,
                    pread,
                    root,
                    None,
                    visits,
                    left,
                )
                &&& walk::visits_told(ctx.reader, ctx.chunk_map, tell, visits)
                &&& dev_extent::extents_walked(
                    visits,
                    left,
                    ctx.superblock.devid,
                    ctx.counts(),
                    counts,
                    walked,
                )
            };
        assert(left =~= Seq::<NodeRef>::empty());
    }
}

/// A verdict on a sector rests on the live superblock: without one the sector
/// cannot be verified; under its own generation the roots that are remembered are
/// used, and else those that were found under it, which are remembered; what the
/// trees under them say of the sector's address and checksum is the verdict.
pub proof fn law_verdict_rests_on_the_live_roots<
    P: Fn(u64, usize) -> Option<Vec<u8>>,
    T: Fn(WalkTell),
>(
    before: BtrfsReconfirmer,
    reader: FsReader,
    chunk_map: ChunkMap,
    pread: P,
    tell: T,
    superblock: Option<&Superblock>,
    req: ReconfirmRequest,
    after: BtrfsReconfirmer,
    live: LiveVerdict,
)
    requires
        before.reconfirmed(
            reader,
            chunk_map,
            pread,
            tell,
            superblock,
            req,
            after,
            Ok::<LiveVerdict, LiveError>(live),
        ),
    ensures
        superblock is None ==> live.verdict == Reconfirm::Unverifiable && after == before,
        superblock matches Some(sb) ==> before.cached_roots matches Some(known) ==> known.0
            == sb.generation ==> extent::rechecked(
            reader,
            chunk_map,
            pread,
            known.1,
            known.2,
            req.token,
            req.stored_csum@,
            before.strategy.hash_len,
            before.strategy.sector_size,
            Some(live.verdict),
        ),
        superblock matches Some(sb) ==> live.verdict != Reconfirm::Unverifiable ==> (
        after.cached_roots matches Some(known) && known.0 == sb.generation && extent::rechecked(
            reader,
            chunk_map,
            pread,
            known.1,
            known.2,
            req.token,
            req.stored_csum@,
            before.strategy.hash_len,
            before.strategy.sector_size,
            Some(live.verdict),
        )),
{
}

/// While the scrub runs, a mismatch is judged by what the live trees say of it,
/// under the roots that are found then.
pub proof fn law_live_check_is_what_the_trees_say<
    P: Fn(u64, usize) -> Option<Vec<u8>>,
    T: Fn(WalkTell),
>(
    reader: FsReader,
    chunk_map: ChunkMap,
    pread: P,
    tell: T,
    superblock: Option<&Superblock>,
    strategy: CsumStrategy,
    logical: u64,
    stored: Seq<u8>,
    check: LiveCheck,
) -> (roots: (u64, u64))
    requires
        scrub_driver::live_checked(
            reader,
            chunk_map,
            pread,
            tell,
            superblock,
            strategy,
            logical,
            stored,
            Ok::<LiveCheck, LiveError>(check),
        ),
    ensures
        check.verdict is Some ==> extent::rechecked(
            reader,
            chunk_map,
            pread,
            roots.0,
            roots.1,
            logical,
            stored,
            strategy.hash_len,
            strategy.sector_size,
            check.verdict,
        ),
{
    let found = choose|found: Result<LiveRead, OpenError>|
        {
            &&& #[trigger] open::live_roots_read(reader, chunk_map, pread, tell, superblock, found)
            &&& match found {
                Err(e) => false,
                Ok(read) => match read.roots {
                    None => check.verdict is None && check.counted == read.counted,
                    Some(roots) => check.verdict is Some && check.counted == read.counted
                        && extent::rechecked(
                        reader,
                        chunk_map,
                        pread,
                        roots.0,
                        roots.1,
                        logical,
                        stored,
                        strategy.hash_len,
                        strategy.sector_size,
                        check.verdict,
                    ),
                },
            }
        };
    match found {
        Ok(read) => match read.roots {
            Some(roots) => roots,
            None => (0, 0),
        },
        Err(_) => (0, 0),
    }
}

} // verus!
