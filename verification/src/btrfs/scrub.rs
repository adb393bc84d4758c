//! Physical-order data scrub: which extents to scrub, how their checksums
//! become read runs, and how what was read is verified and counted.

use rayon::iter::{IntoParallelIterator, ParallelIterator};
use vstd::prelude::*;
use vstd::slice::{slice_subrange, slice_to_vec};

use crate::btrfs::chunk::ChunkMap;
use crate::btrfs::csum::CsumEntry;
use crate::btrfs::csum_strategy::CsumStrategy;
use crate::btrfs::dev_extent::DevExtent;
use crate::btrfs::isolate;
use crate::btrfs::isolate::{IsolationBudget, MAX_ISOLATION_FAILING_READS};
use crate::btrfs::key::bg_flag;
use crate::bytes;
use crate::fs::Reconfirm;
use crate::laws;
use crate::text;

verus! {

/// Runs of at least this many sectors compute checksums in parallel.
pub const PARALLEL_MIN_SECTORS: usize = 2;

/// Upper bound on sectors per contiguous read run.
pub const MAX_RUN_SECTORS: usize = 16384;

/// Pipeline depth (reads in flight) for fast checksums.
pub const PREFETCH_DEPTH_FAST: usize = 2;

/// Deeper pipeline for slow checksums, where computing the checksums dominates
/// the read time.
pub const PREFETCH_DEPTH_SLOW: usize = 4;

/// The isolation budget: a positive number in the override text, else the
/// default.
pub open spec fn budget_limit(text_value: Option<Seq<char>>) -> nat {
    match text_value {
        None => 64,
        Some(s) => match text::parsed(text::trimmed(s), 10, usize::MAX as nat) {
            Ok(n) => if n > 0 { n } else { 64 },
            Err(_) => 64,
        },
    }
}

/// The isolation budget, overridable by the text of an environment variable.
pub fn isolation_budget_limit(value: Option<&str>) -> (r: usize)
    ensures
        r == budget_limit(match value {
            Some(s) => Some(s@),
            None => None,
        }),
        r > 0,
{
    match value {
        None => MAX_ISOLATION_FAILING_READS,
        Some(s) => {
            let chars = text::chars_of(s);
            match text::parse_uint(text::trim(chars.as_slice()), 10, usize::MAX as u64) {
                Ok(n) => if n > 0 {
                    n as usize
                } else {
                    MAX_ISOLATION_FAILING_READS
                },
                Err(_) => MAX_ISOLATION_FAILING_READS,
            }
        },
    }
}

/// How many reads to keep in flight: more for the slow checksums, sha256 and
/// blake2, than for crc32c and xxhash.
pub fn prefetch_depth_for(strategy: &CsumStrategy) -> (r: usize)
    requires
        strategy.wf(),
    ensures
        r == (if strategy.csum_type >= 2 { PREFETCH_DEPTH_SLOW } else { PREFETCH_DEPTH_FAST }),
{
    if strategy.csum_type >= 2 {
        PREFETCH_DEPTH_SLOW
    } else {
        PREFETCH_DEPTH_FAST
    }
}

// ---------------------------------------------------------------------------
// Extents and runs
// ---------------------------------------------------------------------------

/// What is to be done with a dev extent.
#[derive(Debug, Clone, Copy, PartialEq, Eq, Structural)]
pub enum ExtentPlan {
    /// No chunk maps it: it cannot be mapped to data and is skipped.
    NoChunk,
    /// Metadata is walked by the tree readers instead.
    NotData,
    /// Scrub the checksums in `[logical_lo, logical_hi)`.
    Scrub { logical_lo: u64, logical_hi: u64 },
    /// It ends outside the address space.
    OutOfRange,
}

/// The chunk that answers for an address holds data.
pub open spec fn maps_data(chunk_map: ChunkMap, logical: u64) -> bool {
    exists|i: int| #[trigger]
        chunk_map.found(logical, i) && chunk_map@[i].ty & bg_flag::DATA != 0
}

/// Decides what to do with a dev extent: only data extents are scrubbed.
pub fn extent_plan(chunk_map: &ChunkMap, dext: &DevExtent) -> (r: ExtentPlan)
    requires
        chunk_map.wf(),
    ensures
        match r {
            ExtentPlan::NoChunk => chunk_map.unmapped(dext.chunk_offset),
            ExtentPlan::NotData => !chunk_map.unmapped(dext.chunk_offset) && !maps_data(
                *chunk_map,
                dext.chunk_offset,
            ),
            ExtentPlan::Scrub { logical_lo, logical_hi } => maps_data(
                *chunk_map,
                dext.chunk_offset,
            ) && logical_lo == dext.chunk_offset && logical_hi == dext.chunk_offset + dext.length,
            ExtentPlan::OutOfRange => maps_data(*chunk_map, dext.chunk_offset)
                && dext.chunk_offset + dext.length > u64::MAX,
        },
{
    match chunk_map.info(dext.chunk_offset) {
        None => ExtentPlan::NoChunk,
        Some(info) => {
            proof {
                let i = choose|i: int|
                    {
                        &&& #[trigger] chunk_map.found(dext.chunk_offset, i)
                        &&& info.length == chunk_map@[i].end - chunk_map@[i].begin
                        &&& info.flags == chunk_map@[i].ty
                    };
                assert(chunk_map@[i].covers(dext.chunk_offset));
                assert forall|j: int| #[trigger] chunk_map.found(dext.chunk_offset, j) implies j
                    == i by {
                    crate::btrfs::chunk::law_one_entry_answers(
                        *chunk_map,
                        dext.chunk_offset,
                        i,
                        j,
                    );
                }
            }
            if info.flags & bg_flag::DATA == 0 {
                return ExtentPlan::NotData;
            }
            match dext.chunk_offset.checked_add(dext.length) {
                Some(logical_hi) => ExtentPlan::Scrub { logical_lo: dext.chunk_offset, logical_hi },
                None => ExtentPlan::OutOfRange,
            }
        },
    }
}

/// Bytes that a scrub of these extents covers: the lengths of the data extents.
pub open spec fn data_bytes(chunk_map: ChunkMap, extents: Seq<DevExtent>) -> int
    decreases extents.len(),
{
    if extents.len() == 0 {
        0
    } else {
        data_bytes(chunk_map, extents.drop_last()) + if maps_data(
            chunk_map,
            extents.last().chunk_offset,
        ) {
            extents.last().length as int
        } else {
            0
        }
    }
}

pub proof fn lemma_data_bytes_grow(chunk_map: ChunkMap, extents: Seq<DevExtent>, k: int)
    requires
        0 <= k <= extents.len(),
    ensures
        0 <= data_bytes(chunk_map, extents.take(k)) <= data_bytes(chunk_map, extents),
    decreases extents.len(),
{
    if k == extents.len() {
        assert(extents.take(k) =~= extents);
        if k > 0 {
            lemma_data_bytes_grow(chunk_map, extents.drop_last(), 0);
            assert(extents.drop_last().take(0) =~= Seq::empty());
        }
    } else {
        lemma_data_bytes_grow(chunk_map, extents.drop_last(), k);
        assert(extents.drop_last().take(k) =~= extents.take(k));
    }
}

/// Bytes that a scrub of these extents covers; `None` where they do not fit in a
/// counter.
pub fn checked_progress_total(chunk_map: &ChunkMap, extents: &Vec<DevExtent>) -> (r: Option<u64>)
    requires
        chunk_map.wf(),
    ensures
        match r {
            Some(total) => total == data_bytes(*chunk_map, extents@),
            None => data_bytes(*chunk_map, extents@) > u64::MAX,
        },
{
    let n: usize = extents.len();
    let mut total: u64 = 0;
    let mut i: usize = 0;
    while i < n
        invariant
            i <= n,
            n == extents@.len(),
            chunk_map.wf(),
            total == data_bytes(*chunk_map, extents@.take(i as int)),
        decreases n - i,
    {
        proof {
            assert(extents@.take(i + 1).drop_last() =~= extents@.take(i as int));
            assert(extents@.take(i + 1).last() == extents@[i as int]);
            lemma_data_bytes_grow(*chunk_map, extents@, i + 1);
        }
        let data = match extent_plan(chunk_map, &extents[i]) {
            ExtentPlan::NoChunk => {
                assert forall|j: int| !#[trigger]
                    chunk_map.found(extents@[i as int].chunk_offset, j) by {
                    if chunk_map.found(extents@[i as int].chunk_offset, j) {
                        assert(chunk_map@[j].covers(extents@[i as int].chunk_offset));
                    }
                }
                false
            },
            ExtentPlan::NotData => false,
            _ => true,
        };
        if data {
            total = match total.checked_add(extents[i].length) {
                Some(t) => t,
                None => {
                    return None;
                },
            };
        }
        i = i + 1;
    }
    assert(extents@.take(n as int) =~= extents@);
    Some(total)
}

/// Bytes that a scrub of these extents covers, for the progress display.
pub fn progress_total(chunk_map: &ChunkMap, extents: &Vec<DevExtent>) -> (r: u64)
    requires
        chunk_map.wf(),
        data_bytes(*chunk_map, extents@) <= u64::MAX,
    ensures
        r == data_bytes(*chunk_map, extents@),
{
    match checked_progress_total(chunk_map, extents) {
        Some(total) => total,
        None => 0,
    }
}

/// The length of an extent, between one sector and one whole run.
pub open spec fn hint_len(next: DevExtent, sector_size: u64) -> int {
    if next.length < sector_size {
        sector_size as int
    } else if next.length > 16384 * sector_size {
        16384 * sector_size
    } else {
        next.length as int
    }
}

/// How many bytes to hint ahead for the next extent: its length, between one
/// sector and one whole run; nothing if it holds no data.
pub fn prefetch_hint(chunk_map: &ChunkMap, next: &DevExtent, sector_size: u64) -> (r: Option<u64>)
    requires
        chunk_map.wf(),
        16384 * sector_size <= u64::MAX,
    ensures
        r is Some <==> maps_data(*chunk_map, next.chunk_offset),
        r matches Some(len) ==> len == hint_len(*next, sector_size),
{
    let data = match extent_plan(chunk_map, next) {
        ExtentPlan::NoChunk => {
            assert forall|j: int| !#[trigger] chunk_map.found(next.chunk_offset, j) by {
                if chunk_map.found(next.chunk_offset, j) {
                    assert(chunk_map@[j].covers(next.chunk_offset));
                }
            }
            false
        },
        ExtentPlan::NotData => false,
        _ => true,
    };
    if !data {
        return None;
    }
    let cap: u64 = 16384 * sector_size;
    let capped: u64 = if next.length > cap { cap } else { next.length };
    Some(if capped < sector_size { sector_size } else { capped })
}

/// The next sector follows directly.
pub open spec fn follows(a: CsumEntry, b: CsumEntry, sector_size: u64) -> bool {
    b.logical == a.logical + sector_size
}

/// A read run: at least one and at most `MAX_RUN_SECTORS` contiguous sectors.
pub open spec fn is_run(run: Seq<CsumEntry>, sector_size: u64) -> bool {
    &&& 0 < run.len() <= 16384
    &&& forall|i: int|
        0 <= i < run.len() - 1 ==> follows(#[trigger] run[i], run[i + 1], sector_size)
}

/// A run ends only where it must: at a gap, or at the limit.
pub open spec fn must_break(a: Seq<CsumEntry>, b: Seq<CsumEntry>, sector_size: u64) -> bool {
    a.len() == 16384 || !follows(a.last(), b[0], sector_size)
}

/// All runs, one after the other.
pub open spec fn joined(runs: Seq<Vec<CsumEntry>>) -> Seq<CsumEntry>
    decreases runs.len(),
{
    if runs.len() == 0 {
        Seq::empty()
    } else {
        joined(runs.drop_last()) + runs.last()@
    }
}

/// The runs of a row of checksums: nothing is lost or reordered, and each run is
/// as long as it can be.
pub open spec fn runs_of(
    runs: Seq<Vec<CsumEntry>>,
    entries: Seq<CsumEntry>,
    sector_size: u64,
) -> bool {
    &&& joined(runs) == entries
    &&& forall|k: int| 0 <= k < runs.len() ==> is_run(#[trigger] runs[k]@, sector_size)
    &&& forall|k: int|
        0 <= k < runs.len() - 1 ==> must_break(#[trigger] runs[k]@, runs[k + 1]@, sector_size)
}

/// Breaks a row of checksums into read runs at gaps in logical order and at
/// `MAX_RUN_SECTORS`.
pub fn split_runs(entries: Vec<CsumEntry>, sector_size: u64) -> (r: Vec<Vec<CsumEntry>>)
    ensures
        runs_of(r@, entries@, sector_size),
{
    let ghost all = entries@;
    let mut runs: Vec<Vec<CsumEntry>> = Vec::new();
    let mut run: Vec<CsumEntry> = Vec::new();
    let mut prev: Option<u64> = None;
    let mut k: usize = 0;
    let n: usize = entries.len();
    assert(joined(runs@) + run@ =~= all.take(0));
    for e in it: entries
        invariant
            it.seq() == all,
            k == it.index(),
            n == all.len(),
            joined(runs@) + run@ == all.take(k as int),
            forall|j: int| 0 <= j < runs@.len() ==> is_run(#[trigger] runs@[j]@, sector_size),
            forall|j: int|
                0 <= j < runs@.len() - 1 ==> must_break(
                    #[trigger] runs@[j]@,
                    runs@[j + 1]@,
                    sector_size,
                ),
            k == 0 ==> run@.len() == 0 && prev is None && runs@.len() == 0,
            k > 0 ==> is_run(run@, sector_size) && prev == Some(run@.last().logical),
            k > 0 && runs@.len() > 0 ==> must_break(runs@.last()@, run@, sector_size),
    {
        assert(e == all[k as int]);
        let contiguous = match prev {
            None => true,
            Some(p) => match p.checked_add(sector_size) {
                Some(q) => e.logical == q,
                None => false,
            },
        };
        let ghost before_run = run@;
        let ghost before_runs = runs@;
        if (!contiguous || run.len() >= MAX_RUN_SECTORS) && run.len() > 0 {
            let mut full: Vec<CsumEntry> = Vec::new();
            std::mem::swap(&mut full, &mut run);
            runs.push(full);
            proof {
                assert(runs@.drop_last() =~= before_runs);
                assert(joined(runs@) =~= joined(before_runs) + before_run);
                assert forall|j: int| 0 <= j < runs@.len() - 1 implies must_break(
                    #[trigger] runs@[j]@,
                    runs@[j + 1]@,
                    sector_size,
                ) by {
                    if j < before_runs.len() - 1 {
                        assert(must_break(before_runs[j]@, before_runs[j + 1]@, sector_size));
                    }
                }
            }
        }
        let ghost mid_run = run@;
        assert(joined(runs@) + mid_run =~= all.take(k as int));
        run.push(e);
        prev = Some(run[run.len() - 1].logical);
        proof {
            assert(run@ =~= mid_run.push(all[k as int]));
            assert(all.take(k + 1) =~= all.take(k as int).push(all[k as int]));
            assert(joined(runs@) + run@ =~= (joined(runs@) + mid_run).push(all[k as int]));
            assert(is_run(run@, sector_size));
            if runs@.len() > 0 && mid_run.len() > 0 {
                assert(run@[0] == mid_run[0]);
            }
        }
        k = k + 1;
    }
    assert(all.take(n as int) =~= all);
    if run.len() > 0 {
        let ghost before_runs = runs@;
        let ghost before_run = run@;
        runs.push(run);
        proof {
            assert(runs@.drop_last() =~= before_runs);
            assert forall|j: int| 0 <= j < runs@.len() - 1 implies must_break(
                #[trigger] runs@[j]@,
                runs@[j + 1]@,
                sector_size,
            ) by {
                if j < before_runs.len() - 1 {
                    assert(must_break(before_runs[j]@, before_runs[j + 1]@, sector_size));
                }
            }
        }
    } else {
        assert(joined(runs@) =~= all);
    }
    runs
}

/// One contiguous read command.
#[derive(Debug)]
pub struct ReadCmd {
    pub phys: u64,
    pub len: usize,
    /// The dev extent this run belongs to (maps logical offsets to physical
    /// reads and supplies the devid).
    pub dext: DevExtent,
    /// Stored checksum per sector of the run, in order.
    pub entries: Vec<CsumEntry>,
    pub sector_size: u64,
}

/// The sector lies in the extent and has a physical address.
pub open spec fn in_extent(dext: DevExtent, logical: u64) -> bool {
    dext.chunk_offset <= logical && dext.phys_start + (logical - dext.chunk_offset) <= u64::MAX
}

/// The physical address of a logical address in the extent.
pub open spec fn phys_of(dext: DevExtent, logical: u64) -> int {
    dext.phys_start + (logical - dext.chunk_offset)
}

/// The sector ends inside the address space.
pub open spec fn ends_in_range(dext: DevExtent, logical: u64, sector_size: u64) -> bool {
    phys_of(dext, logical) + sector_size <= u64::MAX
}

/// Whether every sector to be read ends inside the address space.
pub fn all_in_range(dext: &DevExtent, entries: &Vec<CsumEntry>, sector_size: u64) -> (r: bool)
    requires
        forall|i: int|
            0 <= i < entries@.len() ==> dext.chunk_offset <= (#[trigger] entries@[i]).logical,
    ensures
        r <==> forall|i: int|
            0 <= i < entries@.len() ==> ends_in_range(
                *dext,
                (#[trigger] entries@[i]).logical,
                sector_size,
            ),
{
    let n: usize = entries.len();
    let mut i: usize = 0;
    while i < n
        invariant
            i <= n,
            n == entries@.len(),
            forall|j: int|
                0 <= j < n ==> dext.chunk_offset <= (#[trigger] entries@[j]).logical,
            forall|j: int|
                0 <= j < i ==> ends_in_range(
                    *dext,
                    (#[trigger] entries@[j]).logical,
                    sector_size,
                ),
        decreases n - i,
    {
        assert(dext.chunk_offset <= entries@[i as int].logical);
        let within: u64 = entries[i].logical - dext.chunk_offset;
        if sector_size > u64::MAX - dext.phys_start || within > u64::MAX - dext.phys_start
            - sector_size {
            assert(!ends_in_range(*dext, entries@[i as int].logical, sector_size));
            return false;
        }
        i = i + 1;
    }
    true
}

/// The read command for a run.
pub fn read_command(dext: &DevExtent, run: Vec<CsumEntry>, sector_size: u64) -> (r: ReadCmd)
    requires
        run@.len() > 0,
        in_extent(*dext, run@[0].logical),
        run@.len() * sector_size <= usize::MAX,
    ensures
        r.phys == phys_of(*dext, run@[0].logical),
        r.len == run@.len() * sector_size,
        r.dext == *dext,
        r.entries == run,
        r.sector_size == sector_size,
{
    let phys: u64 = dext.phys_start + (run[0].logical - dext.chunk_offset);
    assert(sector_size <= usize::MAX) by (nonlinear_arith)
        requires
            run@.len() * sector_size <= usize::MAX,
            run@.len() >= 1,
    ;
    let len: usize = run.len() * (sector_size as usize);
    ReadCmd { phys, len, dext: *dext, entries: run, sector_size }
}

// ---------------------------------------------------------------------------
// Verification and accounting
// ---------------------------------------------------------------------------

/// One sector's verdict, emitted to the scrub driver.
#[derive(Debug)]
pub struct SectorResult {
    pub logical: u64,
    pub devid: u64,
    /// Physical offset on the device (array-partition space).
    pub array_phys: u64,
    pub inode: u64,
    pub file_offset: u64,
    /// The stored checksum, when the sector has one.
    pub stored_csum: Option<Vec<u8>>,
    pub actual_csum: Vec<u8>,
    /// The sector could not be read; `actual_csum` is empty.
    pub unreadable: bool,
    /// False for every emitted event: only problems are reported.
    pub ok: bool,
}

/// Per-run scrub accounting.
#[derive(Debug, Clone, Copy, PartialEq, Eq, Structural)]
pub struct ScrubStats {
    pub sectors_checked: u64,
    pub sectors_ok: u64,
    pub sectors_mismatch: u64,
    pub sectors_no_csum: u64,
    pub sectors_read_error: u64,
    /// Mismatches that live metadata shows were rewritten or freed (non-batch
    /// mode only).
    pub sectors_stale: u64,
    /// CSUM_TREE branches skipped as stale mid-scrub (a coverage gap).
    pub stale_csum_branches: u64,
    /// Runs where the EIO isolation budget was exhausted.
    pub isolation_truncated: u64,
    pub bytes_checked: u64,
    /// Not written by the pipeline; the driver rolls up metadata errors itself.
    pub metadata_header_errors: u64,
}

impl ScrubStats {
    pub open spec fn zero() -> ScrubStats {
        ScrubStats {
            sectors_checked: 0,
            sectors_ok: 0,
            sectors_mismatch: 0,
            sectors_no_csum: 0,
            sectors_read_error: 0,
            sectors_stale: 0,
            stale_csum_branches: 0,
            isolation_truncated: 0,
            bytes_checked: 0,
            metadata_header_errors: 0,
        }
    }

    /// The sums fit.
    pub open spec fn can_add(&self, o: ScrubStats) -> bool {
        &&& self.sectors_checked + o.sectors_checked <= u64::MAX
        &&& self.sectors_ok + o.sectors_ok <= u64::MAX
        &&& self.sectors_mismatch + o.sectors_mismatch <= u64::MAX
        &&& self.sectors_no_csum + o.sectors_no_csum <= u64::MAX
        &&& self.sectors_read_error + o.sectors_read_error <= u64::MAX
        &&& self.sectors_stale + o.sectors_stale <= u64::MAX
        &&& self.stale_csum_branches + o.stale_csum_branches <= u64::MAX
        &&& self.isolation_truncated + o.isolation_truncated <= u64::MAX
        &&& self.bytes_checked + o.bytes_checked <= u64::MAX
        &&& self.metadata_header_errors + o.metadata_header_errors <= u64::MAX
    }

    /// Adds the accounting of one run.
    pub fn absorb(&mut self, o: &ScrubStats)
        requires
            old(self).can_add(*o),
        ensures
            final(self).sectors_checked == old(self).sectors_checked + o.sectors_checked,
            final(self).sectors_ok == old(self).sectors_ok + o.sectors_ok,
            final(self).sectors_mismatch == old(self).sectors_mismatch + o.sectors_mismatch,
            final(self).sectors_no_csum == old(self).sectors_no_csum + o.sectors_no_csum,
            final(self).sectors_read_error == old(self).sectors_read_error + o.sectors_read_error,
            final(self).sectors_stale == old(self).sectors_stale + o.sectors_stale,
            final(self).stale_csum_branches == old(self).stale_csum_branches
                + o.stale_csum_branches,
            final(self).isolation_truncated == old(self).isolation_truncated
                + o.isolation_truncated,
            final(self).bytes_checked == old(self).bytes_checked + o.bytes_checked,
            final(self).metadata_header_errors == old(self).metadata_header_errors
                + o.metadata_header_errors,
    {
        self.sectors_checked = self.sectors_checked + o.sectors_checked;
        self.sectors_ok = self.sectors_ok + o.sectors_ok;
        self.sectors_mismatch = self.sectors_mismatch + o.sectors_mismatch;
        self.sectors_no_csum = self.sectors_no_csum + o.sectors_no_csum;
        self.sectors_read_error = self.sectors_read_error + o.sectors_read_error;
        self.sectors_stale = self.sectors_stale + o.sectors_stale;
        self.stale_csum_branches = self.stale_csum_branches + o.stale_csum_branches;
        self.isolation_truncated = self.isolation_truncated + o.isolation_truncated;
        self.bytes_checked = self.bytes_checked + o.bytes_checked;
        self.metadata_header_errors = self.metadata_header_errors + o.metadata_header_errors;
    }
}

impl Default for ScrubStats {
    fn default() -> (r: Self)
        ensures
            r == ScrubStats::zero(),
    {
        ScrubStats {
            sectors_checked: 0,
            sectors_ok: 0,
            sectors_mismatch: 0,
            sectors_no_csum: 0,
            sectors_read_error: 0,
            sectors_stale: 0,
            stale_csum_branches: 0,
            isolation_truncated: 0,
            bytes_checked: 0,
            metadata_header_errors: 0,
        }
    }
}

/// Bytes of sector `i` in a buffer of whole sectors.
pub open spec fn sector_at(buf: Seq<u8>, i: int, sz: int) -> Seq<u8> {
    buf.subrange(i * sz, i * sz + sz)
}

/// The checksum of sector `i` of a buffer.
fn sector_csum(strategy: &CsumStrategy, buf: &[u8], i: usize) -> (r: Vec<u8>)
    requires
        strategy.wf(),
        (i + 1) * strategy.sector_size <= buf@.len(),
    ensures
        r@ == strategy.csum(sector_at(buf@, i as int, strategy.sector_size as int)),
{
    let ghost szi = strategy.sector_size as int;
    assert(0 <= i * szi && i * szi + szi == (i + 1) * szi && szi <= (i + 1) * szi)
        by (nonlinear_arith)
        requires
            szi > 0,
            i >= 0,
    ;
    assert(buf@.len() == buf.len());
    let sz: usize = strategy.sector_size as usize;
    let from: usize = i * sz;
    strategy.compute(slice_subrange(buf, from, from + sz))
}

/// `rayon`'s parallel map over the indices `0..n`, collected into a `Vec`: every
/// index is mapped once by `sector_csum`, and the results stand in the order of
/// the indices, whatever order the threads took.
#[verifier::external_body]
fn parallel_csums(strategy: &CsumStrategy, buf: &[u8], n: usize) -> (r: Vec<Vec<u8>>)
    requires
        strategy.wf(),
        n * strategy.sector_size <= buf@.len(),
    ensures
        r@.len() == n,
        forall|i: int|
            0 <= i < n ==> (#[trigger] r@[i])@ == strategy.csum(
                sector_at(buf@, i, strategy.sector_size as int),
            ),
{
    (0..n).into_par_iter().map(|i| sector_csum(strategy, buf, i)).collect()
}

/// The checksums of the first `n` sectors of a buffer, in parallel where there
/// are enough of them.
pub fn compute_csums(strategy: &CsumStrategy, buf: &[u8], n: usize) -> (r: Vec<Vec<u8>>)
    requires
        strategy.wf(),
        n * strategy.sector_size <= buf@.len(),
    ensures
        r@.len() == n,
        forall|i: int|
            0 <= i < n ==> (#[trigger] r@[i])@ == strategy.csum(
                sector_at(buf@, i, strategy.sector_size as int),
            ),
{
    if n >= PARALLEL_MIN_SECTORS {
        return parallel_csums(strategy, buf, n);
    }
    let mut out: Vec<Vec<u8>> = Vec::new();
    let mut i: usize = 0;
    while i < n
        invariant
            i <= n,
            strategy.wf(),
            n * strategy.sector_size <= buf@.len(),
            out@.len() == i,
            forall|k: int|
                0 <= k < i ==> (#[trigger] out@[k])@ == strategy.csum(
                    sector_at(buf@, k, strategy.sector_size as int),
                ),
        decreases n - i,
    {
        assert((i + 1) * strategy.sector_size <= n * strategy.sector_size) by (nonlinear_arith)
            requires
                i < n,
                strategy.sector_size >= 0,
        ;
        out.push(sector_csum(strategy, buf, i));
        i = i + 1;
    }
    out
}

/// What is reported of a sector: address, device, physical offset, stored and
/// actual checksum, and whether it could not be read.
pub open spec fn reports(
    r: SectorResult,
    dext: DevExtent,
    e: CsumEntry,
    actual: Seq<u8>,
    unreadable: bool,
) -> bool {
    &&& r.logical == e.logical
    &&& r.devid == dext.devid
    &&& r.array_phys == phys_of(dext, e.logical)
    &&& r.inode == 0
    &&& r.file_offset == 0
    &&& r.stored_csum is Some
    &&& r.stored_csum.unwrap()@ == e.csum@
    &&& r.actual_csum@ == actual
    &&& r.unreadable == unreadable
    &&& !r.ok
}

/// Sector `i` of the region does not have its stored checksum.
pub open spec fn mismatched(
    strategy: CsumStrategy,
    buf: Seq<u8>,
    entries: Seq<CsumEntry>,
    first: int,
    i: int,
) -> bool {
    strategy.csum(sector_at(buf, i, strategy.sector_size as int)) != entries[first + i].csum@
}

/// `out` are the reports of the mismatched ones among the first `n` sectors of
/// a region, in order.
pub open spec fn region_reports(
    out: Seq<SectorResult>,
    strategy: CsumStrategy,
    dext: DevExtent,
    buf: Seq<u8>,
    entries: Seq<CsumEntry>,
    first: int,
    n: int,
) -> bool
    decreases n,
{
    if n <= 0 {
        out.len() == 0
    } else if mismatched(strategy, buf, entries, first, n - 1) {
        &&& out.len() > 0
        &&& reports(
            out.last(),
            dext,
            entries[first + n - 1],
            strategy.csum(sector_at(buf, n - 1, strategy.sector_size as int)),
            false,
        )
        &&& region_reports(out.drop_last(), strategy, dext, buf, entries, first, n - 1)
    } else {
        region_reports(out, strategy, dext, buf, entries, first, n - 1)
    }
}

/// Verifies sectors `first..first + n` of a run, read into `buf`, against their
/// stored checksums: counts them, and reports each mismatch in order. Whether a
/// mismatch is corruption is settled afterwards.
pub fn process_buf(
    buf: &[u8],
    entries: &Vec<CsumEntry>,
    first: usize,
    n: usize,
    dext: &DevExtent,
    strategy: &CsumStrategy,
    stats: &mut ScrubStats,
    out: &mut Vec<SectorResult>,
)
    requires
        strategy.wf(),
        first + n <= entries@.len(),
        n * strategy.sector_size <= buf@.len(),
        forall|i: int| 0 <= i < entries@.len() ==> in_extent(*dext, (#[trigger] entries@[i]).logical),
        old(stats).sectors_checked + n <= u64::MAX,
        old(stats).sectors_ok <= old(stats).sectors_checked,
        old(stats).bytes_checked + n * strategy.sector_size <= u64::MAX,
    ensures
        exists|found: Seq<SectorResult>|
            {
                &&& #[trigger] region_reports(
                    found,
                    *strategy,
                    *dext,
                    buf@,
                    entries@,
                    first as int,
                    n as int,
                )
                &&& final(out)@ == old(out)@ + found
                &&& *final(stats) == (ScrubStats {
                    sectors_checked: (old(stats).sectors_checked + n) as u64,
                    sectors_ok: (old(stats).sectors_ok + (n - found.len())) as u64,
                    bytes_checked: (old(stats).bytes_checked + n * strategy.sector_size) as u64,
                    ..*old(stats)
                })
                &&& found.len() <= n
            },
        // A sector is told of, with its address and both checksums, if and only
        // if its checksum is not the stored one.
        forall|k: int|
            first <= k < first + n ==> (strategy.csum(
                buf@.subrange(
                    (k - first) * strategy.sector_size,
                    (k - first) * strategy.sector_size + strategy.sector_size,
                ),
            ) != (#[trigger] entries@[k]).csum@ <==> exists|j: int|
                old(out)@.len() <= j < final(out)@.len() && laws::scrub::tells_of(
                    #[trigger] final(out)@[j],
                    *dext,
                    entries@[k],
                    strategy.csum(
                        buf@.subrange(
                            (k - first) * strategy.sector_size,
                            (k - first) * strategy.sector_size + strategy.sector_size,
                        ),
                    ),
                )),
        forall|j: int|
            old(out)@.len() <= j < final(out)@.len() ==> {
                &&& (#[trigger] final(out)@[j]).stored_csum is Some
                &&& final(out)@[j].stored_csum.unwrap()@ != final(out)@[j].actual_csum@
            },
        final(stats).sectors_ok == old(stats).sectors_ok + laws::scrub::intact_count(
            *strategy,
            buf@,
            entries@,
            first as int,
            n as int,
        ),
        final(out)@.len() - old(out)@.len() == n - laws::scrub::intact_count(
            *strategy,
            buf@,
            entries@,
            first as int,
            n as int,
        ),
{
    let actuals = compute_csums(strategy, buf, n);
    let ghost mut found: Seq<SectorResult> = Seq::empty();
    let mut ok: u64 = 0;
    let mut i: usize = 0;
    assert(out@ =~= old(out)@ + found);
    while i < n
        invariant
            i <= n,
            strategy.wf(),
            first + n <= entries@.len(),
            forall|k: int|
                0 <= k < entries@.len() ==> in_extent(*dext, (#[trigger] entries@[k]).logical),
            actuals@.len() == n,
            forall|k: int|
                0 <= k < n ==> (#[trigger] actuals@[k])@ == strategy.csum(
                    sector_at(buf@, k, strategy.sector_size as int),
                ),
            region_reports(found, *strategy, *dext, buf@, entries@, first as int, i as int),
            out@ == old(out)@ + found,
            ok + found.len() == i,
        decreases n - i,
    {
        assert(first + i < entries.len());
        let e = &entries[first + i];
        let actual = &actuals[i];
        assert(in_extent(*dext, entries@[first + i].logical));
        if bytes::bytes_equal(actual.as_slice(), e.csum.as_slice()) {
            ok = ok + 1;
            assert(!mismatched(*strategy, buf@, entries@, first as int, i as int));
        } else {
            let result = SectorResult {
                logical: e.logical,
                devid: dext.devid,
                array_phys: dext.phys_start + (e.logical - dext.chunk_offset),
                inode: 0,
                file_offset: 0,
                stored_csum: Some(slice_to_vec(e.csum.as_slice())),
                actual_csum: slice_to_vec(actual.as_slice()),
                unreadable: false,
                ok: false,
            };
            proof {
                let before = found;
                found = found.push(result);
                assert(found.drop_last() =~= before);
                assert(mismatched(*strategy, buf@, entries@, first as int, i as int));
                assert(old(out)@ + found =~= (old(out)@ + before).push(result));
            }
            out.push(result);
        }
        i = i + 1;
    }
    stats.sectors_checked = stats.sectors_checked + n as u64;
    stats.sectors_ok = stats.sectors_ok + ok;
    assert(0 <= n * strategy.sector_size) by (nonlinear_arith)
        requires
            n >= 0,
            strategy.sector_size >= 0,
    ;
    stats.bytes_checked = stats.bytes_checked + (n as u64) * strategy.sector_size;
    proof {
        laws::scrub::lemma_told_in_tail(
            old(out)@,
            found,
            *strategy,
            *dext,
            buf@,
            entries@,
            first as int,
            n as int,
        );
    }
}

/// The first sector of a region.
pub open spec fn region_first(g: (usize, Vec<u8>), sz: int) -> int {
    g.0 as int / sz
}

/// How many of the run's `total` sectors a region holds.
pub open spec fn region_sectors(g: (usize, Vec<u8>), sz: int, total: int) -> int {
    let last = (g.0 + g.1@.len()) / sz;
    let end = if last < total { last } else { total };
    if end > region_first(g, sz) { end - region_first(g, sz) } else { 0 }
}

/// How many of the run's sectors the first `k` regions hold together.
pub open spec fn regions_sectors(
    good: Seq<(usize, Vec<u8>)>,
    sz: int,
    total: int,
    k: int,
) -> int
    decreases k,
{
    if k <= 0 {
        0
    } else {
        regions_sectors(good, sz, total, k - 1) + region_sectors(good[k - 1], sz, total)
    }
}

/// `out` are the reports of the first `k` regions, in order.
pub open spec fn regions_reports(
    out: Seq<SectorResult>,
    strategy: CsumStrategy,
    dext: DevExtent,
    good: Seq<(usize, Vec<u8>)>,
    entries: Seq<CsumEntry>,
    k: int,
) -> bool
    decreases k,
{
    if k <= 0 {
        out.len() == 0
    } else {
        exists|t: int|
            {
                &&& 0 <= t <= out.len()
                &&& #[trigger] region_reports(
                    out.skip(t),
                    strategy,
                    dext,
                    good[k - 1].1@,
                    entries,
                    region_first(good[k - 1], strategy.sector_size as int),
                    region_sectors(
                        good[k - 1],
                        strategy.sector_size as int,
                        entries.len() as int,
                    ),
                )
                &&& regions_reports(out.take(t), strategy, dext, good, entries, k - 1)
            }
    }
}

/// The sector that a bad offset stands for.
pub open spec fn bad_index(b: usize, sz: int) -> int {
    b as int / sz
}

/// How many of the first `k` bad offsets are sectors of the run.
pub open spec fn bad_sectors(bad: Seq<usize>, sz: int, total: int, k: int) -> int
    decreases k,
{
    if k <= 0 {
        0
    } else {
        bad_sectors(bad, sz, total, k - 1) + if bad_index(bad[k - 1], sz) < total {
            1int
        } else {
            0
        }
    }
}

/// `out` are the reports of the unreadable ones among the first `k` bad
/// offsets: those with a stored checksum, which parity can rebuild.
pub open spec fn bad_reports(
    out: Seq<SectorResult>,
    strategy: CsumStrategy,
    dext: DevExtent,
    bad: Seq<usize>,
    entries: Seq<CsumEntry>,
    batch: bool,
    k: int,
) -> bool
    decreases k,
{
    if k <= 0 {
        out.len() == 0
    } else {
        let idx = bad_index(bad[k - 1], strategy.sector_size as int);
        if batch && idx < entries.len() && entries[idx].csum@.len() == strategy.hash_len {
            &&& out.len() > 0
            &&& reports(out.last(), dext, entries[idx], Seq::empty(), true)
            &&& bad_reports(out.drop_last(), strategy, dext, bad, entries, batch, k - 1)
        } else {
            bad_reports(out, strategy, dext, bad, entries, batch, k - 1)
        }
    }
}

/// The `(physical, logical)` addresses of the read errors among the first `k`
/// bad offsets.
pub open spec fn bad_addresses(
    dext: DevExtent,
    bad: Seq<usize>,
    entries: Seq<CsumEntry>,
    sz: int,
    k: int,
) -> Seq<(u64, u64)>
    decreases k,
{
    if k <= 0 {
        Seq::empty()
    } else {
        let idx = bad_index(bad[k - 1], sz);
        let before = bad_addresses(dext, bad, entries, sz, k - 1);
        if idx < entries.len() {
            before.push((phys_of(dext, entries[idx].logical) as u64, entries[idx].logical))
        } else {
            before
        }
    }
}

/// What one run's sectors turned out to be.
#[derive(Debug)]
pub struct RunFindings {
    /// The run's accounting.
    pub stats: ScrubStats,
    /// Sectors whose checksum does not match.
    pub mismatches: Vec<SectorResult>,
    /// Unreadable sectors that parity can rebuild; in batch mode only.
    pub unreadable: Vec<SectorResult>,
    /// `(physical, logical)` of every read error.
    pub read_errors: Vec<(u64, u64)>,
}

/// `r` is what the run's sectors turned out to be: those of the good regions by
/// their checksums, the bad ones as read errors.
pub open spec fn run_findings(
    strategy: CsumStrategy,
    dext: DevExtent,
    good: Seq<(usize, Vec<u8>)>,
    bad: Seq<usize>,
    isolation_truncated: bool,
    entries: Seq<CsumEntry>,
    batch: bool,
    r: RunFindings,
) -> bool {
    let sz = strategy.sector_size as int;
    let total = entries.len() as int;
    let checked = regions_sectors(good, sz, total, good.len() as int);
    let errors = bad_sectors(bad, sz, total, bad.len() as int);
    &&& regions_reports(r.mismatches@, strategy, dext, good, entries, good.len() as int)
    &&& bad_reports(r.unreadable@, strategy, dext, bad, entries, batch, bad.len() as int)
    &&& r.read_errors@ == bad_addresses(dext, bad, entries, sz, bad.len() as int)
    &&& r.mismatches@.len() <= checked
    &&& r.stats == (ScrubStats {
        sectors_checked: (checked + errors) as u64,
        sectors_ok: (checked - r.mismatches@.len()) as u64,
        sectors_read_error: errors as u64,
        isolation_truncated: if isolation_truncated { 1 } else { 0 },
        bytes_checked: ((checked + errors) * sz) as u64,
        ..ScrubStats::zero()
    })
    &&& (checked + errors) * sz <= u64::MAX
}

/// Verifies the good regions of a run and reports the bad (unreadable) sectors.
pub fn process_isolated(
    good: &Vec<(usize, Vec<u8>)>,
    bad: &Vec<usize>,
    isolation_truncated: bool,
    dext: &DevExtent,
    entries: &Vec<CsumEntry>,
    strategy: &CsumStrategy,
    batch: bool,
) -> (r: RunFindings)
    requires
        strategy.wf(),
        strategy.sector_size <= usize::MAX,
        forall|i: int| 0 <= i < entries@.len() ==> in_extent(*dext, (#[trigger] entries@[i]).logical),
        forall|i: int|
            0 <= i < good@.len() ==> (#[trigger] good@[i]).0 as int % strategy.sector_size as int
                == 0 && good@[i].0 + good@[i].1@.len() <= usize::MAX && region_first(
                good@[i],
                strategy.sector_size as int,
            ) <= entries@.len(),
        (regions_sectors(
            good@,
            strategy.sector_size as int,
            entries@.len() as int,
            good@.len() as int,
        ) + bad@.len()) * strategy.sector_size <= u64::MAX,
    ensures
        run_findings(*strategy, *dext, good@, bad@, isolation_truncated, entries@, batch, r),
{
    let sz: usize = strategy.sector_size as usize;
    let total: usize = entries.len();
    let mut stats = ScrubStats::default();
    if isolation_truncated {
        stats.isolation_truncated = 1;
    }
    let mut mismatches: Vec<SectorResult> = Vec::new();
    let n: usize = good.len();
    let ghost all_checked = regions_sectors(good@, sz as int, total as int, n as int);
    let mut k: usize = 0;
    let mut checked: u64 = 0;
    proof {
        lemma_regions_sectors_grow(good@, sz as int, total as int, n as int, 0);
        assert(all_checked + bad@.len() <= u64::MAX) by (nonlinear_arith)
            requires
                (all_checked + bad@.len()) * sz <= u64::MAX,
                all_checked >= 0,
                sz >= 1,
        ;
    }
    while k < n
        invariant
            k <= n,
            n == good@.len(),
            sz == strategy.sector_size,
            total == entries@.len(),
            strategy.wf(),
            forall|i: int|
                0 <= i < entries@.len() ==> in_extent(*dext, (#[trigger] entries@[i]).logical),
            forall|i: int|
                0 <= i < good@.len() ==> (#[trigger] good@[i]).0 as int
                    % strategy.sector_size as int == 0 && good@[i].0 + good@[i].1@.len()
                    <= usize::MAX && region_first(good@[i], strategy.sector_size as int)
                    <= entries@.len(),
            all_checked == regions_sectors(good@, sz as int, total as int, n as int),
            (all_checked + bad@.len()) * sz <= u64::MAX,
            all_checked + bad@.len() <= u64::MAX,
            checked == regions_sectors(good@, sz as int, total as int, k as int),
            mismatches@.len() <= checked,
            regions_reports(mismatches@, *strategy, *dext, good@, entries@, k as int),
            stats == (ScrubStats {
                sectors_checked: checked,
                sectors_ok: (checked - mismatches@.len()) as u64,
                isolation_truncated: if isolation_truncated { 1 } else { 0 },
                bytes_checked: (checked * sz) as u64,
                ..ScrubStats::zero()
            }),
            checked * sz <= u64::MAX,
        decreases n - k,
    {
        let start: usize = good[k].0;
        let buf = &good[k].1;
        let first: usize = start / sz;
        let last: usize = (start + buf.len()) / sz;
        let end: usize = if last < total { last } else { total };
        let count: usize = if end > first { end - first } else { 0 };
        proof {
            assert(count == region_sectors(good@[k as int], sz as int, total as int));
            lemma_regions_sectors_grow(good@, sz as int, total as int, n as int, k + 1);
            let next = checked + count;
            assert(next * sz <= (all_checked + bad@.len()) * sz && (checked + count) * sz == checked
                * sz + count * sz && 0 <= count * sz) by (nonlinear_arith)
                requires
                    0 <= next <= all_checked,
                    next == checked + count,
                    sz >= 1,
                    count >= 0,
            ;
            lemma_region_fits(start as int, buf@.len() as int, sz as int, count as int, total as int);
        }
        let ghost front = mismatches@;
        process_buf(
            buf.as_slice(),
            entries,
            first,
            count,
            dext,
            strategy,
            &mut stats,
            &mut mismatches,
        );
        proof {
            let tail = choose|tail: Seq<SectorResult>|
                {
                    &&& #[trigger] region_reports(
                        tail,
                        *strategy,
                        *dext,
                        buf@,
                        entries@,
                        first as int,
                        count as int,
                    )
                    &&& mismatches@ == front + tail
                    &&& tail.len() <= count
                };
            let t = front.len() as int;
            assert(mismatches@.skip(t) =~= tail);
            assert(mismatches@.take(t) =~= front);
            assert(region_reports(
                mismatches@.skip(t),
                *strategy,
                *dext,
                good@[(k + 1) - 1].1@,
                entries@,
                region_first(good@[(k + 1) - 1], strategy.sector_size as int),
                region_sectors(
                    good@[(k + 1) - 1],
                    strategy.sector_size as int,
                    entries@.len() as int,
                ),
            ));
            assert(regions_reports(mismatches@, *strategy, *dext, good@, entries@, k + 1));
        }
        checked = checked + count as u64;
        k = k + 1;
    }
    let mut unreadable: Vec<SectorResult> = Vec::new();
    let mut read_errors: Vec<(u64, u64)> = Vec::new();
    let m: usize = bad.len();
    let mut errors: u64 = 0;
    let mut j: usize = 0;
    while j < m
        invariant
            j <= m,
            m == bad@.len(),
            sz == strategy.sector_size,
            sz > 0,
            total == entries@.len(),
            forall|i: int|
                0 <= i < entries@.len() ==> in_extent(*dext, (#[trigger] entries@[i]).logical),
            errors == bad_sectors(bad@, sz as int, total as int, j as int),
            errors <= j,
            bad_reports(unreadable@, *strategy, *dext, bad@, entries@, batch, j as int),
            read_errors@ == bad_addresses(*dext, bad@, entries@, sz as int, j as int),
        decreases m - j,
    {
        let idx: usize = bad[j] / sz;
        assert(idx == bad_index(bad@[j as int], sz as int));
        if idx < total {
            let e = &entries[idx];
            assert(in_extent(*dext, entries@[idx as int].logical));
            errors = errors + 1;
            let phys: u64 = dext.phys_start + (e.logical - dext.chunk_offset);
            read_errors.push((phys, e.logical));
            if batch && e.csum.len() == strategy.hash_len {
                let result = SectorResult {
                    logical: e.logical,
                    devid: dext.devid,
                    array_phys: phys,
                    inode: 0,
                    file_offset: 0,
                    stored_csum: Some(slice_to_vec(e.csum.as_slice())),
                    actual_csum: Vec::new(),
                    unreadable: true,
                    ok: false,
                };
                let ghost before = unreadable@;
                unreadable.push(result);
                assert(unreadable@.drop_last() =~= before);
            }
        }
        j = j + 1;
    }
    proof {
        assert((checked + errors) * sz <= (all_checked + bad@.len()) * sz && checked * sz + errors
            * sz == (checked + errors) * sz && 0 <= errors * sz) by (nonlinear_arith)
            requires
                checked == all_checked,
                0 <= errors <= bad@.len(),
                checked >= 0,
                sz >= 1,
        ;
    }
    stats.sectors_checked = stats.sectors_checked + errors;
    stats.sectors_read_error = errors;
    stats.bytes_checked = stats.bytes_checked + errors * strategy.sector_size;
    RunFindings { stats, mismatches, unreadable, read_errors }
}

proof fn lemma_regions_sectors_grow(
    good: Seq<(usize, Vec<u8>)>,
    sz: int,
    total: int,
    n: int,
    k: int,
)
    requires
        0 <= k <= n <= good.len(),
    ensures
        0 <= regions_sectors(good, sz, total, k) <= regions_sectors(good, sz, total, n),
    decreases n,
{
    if k < n {
        lemma_regions_sectors_grow(good, sz, total, n - 1, k);
    } else if k > 0 {
        lemma_regions_sectors_grow(good, sz, total, k - 1, 0);
    }
}

/// The sectors counted for a region lie inside its bytes.
pub(crate) proof fn lemma_region_fits(start: int, len: int, sz: int, count: int, total: int)
    requires
        sz > 0,
        start >= 0,
        len >= 0,
        start % sz == 0,
        count >= 0,
        count > 0 ==> start / sz + count <= (start + len) / sz,
    ensures
        count * sz <= len,
{
    if count > 0 {
        vstd::arithmetic::div_mod::lemma_fundamental_div_mod(start, sz);
        vstd::arithmetic::div_mod::lemma_fundamental_div_mod(start + len, sz);
        let a = start / sz;
        let b = (start + len) / sz;
        assert(count * sz <= len) by (nonlinear_arith)
            requires
                start == sz * a,
                start + len >= sz * b,
                a + count <= b,
                sz > 0,
        ;
    } else {
        assert(count * sz == 0) by (nonlinear_arith)
            requires
                count == 0,
        ;
    }
}

/// What a mismatch turned out to be against live metadata.
#[derive(Debug, Clone, Copy, PartialEq, Eq, Structural)]
pub enum Settled {
    /// Live metadata could not be reached or could not be read.
    ReadError,
    /// Rewritten or freed since.
    Stale,
    /// Still corrupt.
    Corruption,
}

/// Settles one mismatch outside batch mode: `live` is what re-confirmation said,
/// `None` where the live roots were not found; `fresh` is the sector read
/// again, `None` where that failed. Only a sector that live metadata confirms,
/// and whose fresh bytes still do not have the stored checksum, is corrupt; only
/// one that live metadata or its fresh bytes show rewritten or freed is stale.
/// Live metadata that cannot be read settles neither: the sector is an error.
pub fn settle_mismatch(
    strategy: &CsumStrategy,
    stored: &[u8],
    live: Option<Reconfirm>,
    fresh: Option<&[u8]>,
) -> (r: Settled)
    requires
        strategy.wf(),
    ensures
        r == (match live {
            None => Settled::ReadError,
            Some(Reconfirm::Corruption) => if fresh matches Some(b) && strategy.csum(b@)
                == stored@ {
                Settled::Stale
            } else {
                Settled::Corruption
            },
            Some(Reconfirm::Stale) => Settled::Stale,
            Some(Reconfirm::Unverifiable) => Settled::ReadError,
        }),
{
    match live {
        None => Settled::ReadError,
        Some(Reconfirm::Corruption) => match fresh {
            Some(b) => if strategy.matches(stored, b) {
                Settled::Stale
            } else {
                Settled::Corruption
            },
            None => Settled::Corruption,
        },
        Some(Reconfirm::Stale) => Settled::Stale,
        Some(Reconfirm::Unverifiable) => Settled::ReadError,
    }
}

impl ScrubStats {
    /// Counts a settled mismatch.
    pub fn count_settled(&mut self, s: Settled)
        requires
            old(self).sectors_read_error < u64::MAX,
            old(self).sectors_stale < u64::MAX,
            old(self).sectors_mismatch < u64::MAX,
        ensures
            *final(self) == (match s {
                Settled::ReadError => ScrubStats {
                    sectors_read_error: (old(self).sectors_read_error + 1) as u64,
                    ..*old(self)
                },
                Settled::Stale => ScrubStats {
                    sectors_stale: (old(self).sectors_stale + 1) as u64,
                    ..*old(self)
                },
                Settled::Corruption => ScrubStats {
                    sectors_mismatch: (old(self).sectors_mismatch + 1) as u64,
                    ..*old(self)
                },
            }),
    {
        match s {
            Settled::ReadError => {
                self.sectors_read_error = self.sectors_read_error + 1;
            },
            Settled::Stale => {
                self.sectors_stale = self.sectors_stale + 1;
            },
            Settled::Corruption => {
                self.sectors_mismatch = self.sectors_mismatch + 1;
            },
        }
    }
}

/// What reading one run gave: its good regions, its bad sectors, and whether
/// the isolation budget ran out.
#[derive(Debug)]
pub struct ReadRsp {
    pub good: Vec<(usize, Vec<u8>)>,
    pub bad: Vec<usize>,
    pub isolation_truncated: bool,
}

/// Reads a command's range, from `off` in the backing store on, and isolates
/// any failing sectors within it.
pub fn isolate_run_read<E, R: Fn(u64, usize) -> Result<Vec<u8>, E>>(
    read: &R,
    off: u64,
    len: usize,
    sector_size: u64,
    limit: usize,
) -> (r: ReadRsp)
    requires
        0 < sector_size <= usize::MAX,
        len as int % sector_size as int == 0,
        off + len <= u64::MAX,
        forall|p: u64, l: usize| #[trigger] call_requires(*read, (p, l)),
        isolate::reads_exactly::<E, R>(*read),
    ensures
        isolate::isolated::<E, R>(
            *read,
            off as int,
            0,
            len as int,
            sector_size as int,
            r.isolation_truncated,
            r.good@,
            r.bad@,
        ),
        // Isolation is given up just when as many distinct reads have failed as
        // the limit allows.
        exists|fails: Seq<(u64, usize)>|
            {
                &&& #[trigger] isolate::failed_reads::<E, R>(*read, off as int, len as int, fails)
                &&& r.isolation_truncated == (fails.len() == (if limit == 0 { 1 } else { limit }))
                &&& fails.len() <= (if limit == 0 { 1 } else { limit })
            },
        isolate::never_fails::<E, R>(*read) && len > 0 ==> r.good@.len() == 1 && r.bad@.len() == 0
            && !r.isolation_truncated,
{
    let mut good: Vec<(usize, Vec<u8>)> = Vec::new();
    let mut bad: Vec<usize> = Vec::new();
    let mut budget = IsolationBudget::new(limit);
    isolate::isolate_run(read, off, 0, len, sector_size, &mut budget, &mut good, &mut bad);
    proof {
        let (g, b) = choose|g: Seq<(usize, Vec<u8>)>, b: Seq<usize>|
            {
                &&& good@ == Seq::<(usize, Vec<u8>)>::empty() + g
                &&& bad@ == Seq::<usize>::empty() + b
                &&& #[trigger] isolate::isolated::<E, R>(
                    *read,
                    off as int,
                    0,
                    len as int,
                    sector_size as int,
                    budget.exhausted,
                    g,
                    b,
                )
                &&& isolate::never_fails::<E, R>(*read) && len > 0 ==> {
                    &&& budget == (IsolationBudget { remaining: limit, exhausted: false })
                    &&& g.len() == 1
                    &&& b.len() == 0
                }
            };
        assert(good@ =~= g);
        assert(bad@ =~= b);
    }
    ReadRsp { good, bad, isolation_truncated: budget.exhausted }
}

proof fn lemma_regions_bytes<E, R: Fn(u64, usize) -> Result<Vec<u8>, E>>(
    read: R,
    phys: int,
    total: int,
    sz: int,
    good: Seq<(usize, Vec<u8>)>,
    k: int,
)
    requires
        sz > 0,
        0 <= k <= good.len(),
        forall|i: int|
            0 <= i < good.len() ==> isolate::region_ok(
                read,
                phys,
                0,
                total * sz,
                sz,
                #[trigger] good[i],
            ),
    ensures
        regions_sectors(good, sz, total, k) * sz == isolate::region_bytes(good.take(k)),
    decreases k,
{
    if k == 0 {
        assert(0 * sz == 0);
        assert(good.take(0) =~= Seq::empty());
    } else {
        lemma_regions_bytes(read, phys, total, sz, good, k - 1);
        assert(good.take(k).drop_last() =~= good.take(k - 1));
        let g = good[k - 1];
        assert(isolate::region_ok(read, phys, 0, total * sz, sz, g));
        let len = g.1@.len() as int;
        vstd::arithmetic::div_mod::lemma_fundamental_div_mod(g.0 as int, sz);
        vstd::arithmetic::div_mod::lemma_fundamental_div_mod(len, sz);
        let a = g.0 as int / sz;
        let c = len / sz;
        assert(g.0 + len == (a + c) * sz) by (nonlinear_arith)
            requires
                g.0 == sz * a,
                len == sz * c,
        ;
        vstd::arithmetic::div_mod::lemma_div_multiples_vanish(a + c, sz);
        assert(sz * (a + c) == (a + c) * sz) by (nonlinear_arith);
        assert((g.0 + len) / sz == a + c);
        assert(a + c <= total && c > 0) by (nonlinear_arith)
            requires
                (a + c) * sz <= total * sz,
                len == sz * c,
                len > 0,
                sz > 0,
        ;
        assert(region_sectors(g, sz, total) == c);
        let prev = regions_sectors(good, sz, total, k - 1);
        assert((prev + c) * sz == prev * sz + len) by (nonlinear_arith)
            requires
                len == sz * c,
        ;
    }
}

proof fn lemma_bad_all_counted<E, R: Fn(u64, usize) -> Result<Vec<u8>, E>>(
    read: R,
    phys: int,
    total: int,
    sz: int,
    exhausted: bool,
    bad: Seq<usize>,
    k: int,
)
    requires
        sz > 0,
        0 <= k <= bad.len(),
        forall|i: int|
            0 <= i < bad.len() ==> isolate::sector_bad(
                read,
                phys,
                0,
                total * sz,
                sz,
                exhausted,
                #[trigger] bad[i],
            ),
    ensures
        bad_sectors(bad, sz, total, k) == k,
    decreases k,
{
    if k > 0 {
        lemma_bad_all_counted(read, phys, total, sz, exhausted, bad, k - 1);
        let b = bad[k - 1];
        assert(isolate::sector_bad(read, phys, 0, total * sz, sz, exhausted, b));
        let q = b as int / sz;
        vstd::arithmetic::div_mod::lemma_fundamental_div_mod(b as int, sz);
        assert(q < total) by (nonlinear_arith)
            requires
                b == sz * q + b as int % sz,
                b as int % sz >= 0,
                b + sz <= total * sz,
                sz > 0,
        ;
    }
}

/// No sector of a run escapes: once its failing reads are isolated, every one of
/// its sectors is checked exactly once, as good or as a read error.
pub proof fn law_every_sector_is_checked<E, R: Fn(u64, usize) -> Result<Vec<u8>, E>>(
    read: R,
    phys: int,
    total: int,
    sz: int,
    exhausted: bool,
    good: Seq<(usize, Vec<u8>)>,
    bad: Seq<usize>,
)
    requires
        sz > 0,
        total >= 0,
        isolate::isolated(read, phys, 0, total * sz, sz, exhausted, good, bad),
    ensures
        regions_sectors(good, sz, total, good.len() as int) + bad_sectors(
            bad,
            sz,
            total,
            bad.len() as int,
        ) == total,
{
    lemma_regions_bytes(read, phys, total, sz, good, good.len() as int);
    lemma_bad_all_counted(read, phys, total, sz, exhausted, bad, bad.len() as int);
    assert(good.take(good.len() as int) =~= good);
    let r = regions_sectors(good, sz, total, good.len() as int);
    let b = bad.len() as int;
    assert(r + b == total) by (nonlinear_arith)
        requires
            r * sz + b * sz == total * sz,
            sz > 0,
    ;
}

} // verus!
