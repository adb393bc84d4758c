//! The scrub pass over a device's extents: read commands go out, a bounded
//! number at a time, and every response is verified in the order of the
//! commands.

use vstd::prelude::*;

use crate::btrfs::chunk::ChunkMap;
use crate::btrfs::csum::CsumEntry;
use crate::btrfs::csum_strategy::CsumStrategy;
use crate::btrfs::dev_extent::DevExtent;
use crate::btrfs::isolate;
use crate::btrfs::scrub;
use crate::btrfs::scrub::{ExtentPlan, ReadCmd, ReadRsp, RunFindings, ScrubStats, SectorResult, Settled};
use crate::fs::Reconfirm;
use crate::laws;

verus! {

// ---------------------------------------------------------------------------
// One run
// ---------------------------------------------------------------------------

/// What one read run came to.
#[derive(Debug)]
pub struct RunDone {
    pub findings: RunFindings,
    /// What each mismatch turned out to be against live metadata; in batch mode
    /// that is left to the recovery writer.
    pub settled: Vec<Settled>,
    /// The run's accounting, settled mismatches counted.
    pub stats: ScrubStats,
}

/// What a mismatch may turn out to be.
pub open spec fn settles<
    L: Fn(u64, &Vec<u8>) -> Option<Reconfirm>,
    F: Fn(u64, u64, usize) -> Option<Vec<u8>>,
>(strategy: CsumStrategy, live: L, fresh: F, m: SectorResult, s: Settled) -> bool {
    match m.stored_csum {
        None => s is ReadError,
        Some(stored) => exists|l: Option<Reconfirm>| #[trigger]
            call_ensures(live, (m.logical, &stored), l) && match l {
                None => s is ReadError,
                Some(Reconfirm::Corruption) => exists|f: Option<Vec<u8>>| #[trigger]
                    call_ensures(
                        fresh,
                        (m.devid, m.array_phys, strategy.sector_size as usize),
                        f,
                    ) && s == (if f matches Some(b) && strategy.csum(b@) == stored@ {
                        Settled::Stale
                    } else {
                        Settled::Corruption
                    }),
                Some(Reconfirm::Stale) => s is Stale,
                Some(Reconfirm::Unverifiable) => s is ReadError,
            },
    }
}

/// The accounting after settling the first `k` mismatches.
pub open spec fn stats_settled(before: ScrubStats, settled: Seq<Settled>, k: int) -> ScrubStats
    decreases k,
{
    if k <= 0 {
        before
    } else {
        let s = stats_settled(before, settled, k - 1);
        match settled[k - 1] {
            Settled::ReadError => ScrubStats {
                sectors_read_error: (s.sectors_read_error + 1) as u64,
                ..s
            },
            Settled::Stale => ScrubStats { sectors_stale: (s.sectors_stale + 1) as u64, ..s },
            Settled::Corruption => ScrubStats {
                sectors_mismatch: (s.sectors_mismatch + 1) as u64,
                ..s
            },
        }
    }
}

/// A response fits its command: its regions are whole sectors inside the run, and
/// regions and bad sectors together make the run.
pub open spec fn answers(cmd: ReadCmd, rsp: ReadRsp) -> bool {
    let sz = cmd.sector_size as int;
    &&& forall|i: int|
        0 <= i < rsp.good@.len() ==> (#[trigger] rsp.good@[i]).0 as int % sz == 0 && rsp.good@[i].0
            + rsp.good@[i].1@.len() <= cmd.len
    &&& isolate::region_bytes(rsp.good@) + rsp.bad@.len() * sz == cmd.len
}

/// The command reads the sectors of its entries.
pub open spec fn command_ok(cmd: ReadCmd, strategy: CsumStrategy) -> bool {
    &&& cmd.sector_size == strategy.sector_size
    &&& cmd.entries@.len() * strategy.sector_size == cmd.len
    &&& forall|i: int|
        0 <= i < cmd.entries@.len() ==> scrub::in_extent(
            cmd.dext,
            (#[trigger] cmd.entries@[i]).logical,
        )
}

/// The command may wait for its response: it is sound and was handed out.
pub open spec fn queued<U: Fn(&ReadCmd) -> bool>(
    submit: U,
    strategy: CsumStrategy,
    cmd: ReadCmd,
) -> bool {
    command_ok(cmd, strategy) && call_ensures(submit, (&cmd,), true)
}

/// What a response means for its run.
pub open spec fn run_done<
    L: Fn(u64, &Vec<u8>) -> Option<Reconfirm>,
    F: Fn(u64, u64, usize) -> Option<Vec<u8>>,
>(
    strategy: CsumStrategy,
    batch: bool,
    live: L,
    fresh: F,
    cmd: ReadCmd,
    rsp: ReadRsp,
    d: RunDone,
) -> bool {
    &&& scrub::run_findings(
        strategy,
        cmd.dext,
        rsp.good@,
        rsp.bad@,
        rsp.isolation_truncated,
        cmd.entries@,
        batch,
        d.findings,
    )
    &&& if batch {
        d.settled@.len() == 0 && d.stats == d.findings.stats
    } else {
        &&& d.settled@.len() == d.findings.mismatches@.len()
        &&& forall|i: int|
            0 <= i < d.settled@.len() ==> settles(
                strategy,
                live,
                fresh,
                d.findings.mismatches@[i],
                #[trigger] d.settled@[i],
            )
        &&& d.stats == stats_settled(
            d.findings.stats,
            d.settled@,
            d.settled@.len() as int,
        )
    }
}

proof fn lemma_regions_within(
    good: Seq<(usize, Vec<u8>)>,
    sz: int,
    total: int,
    k: int,
)
    requires
        sz > 0,
        0 <= k <= good.len(),
        forall|i: int| 0 <= i < good.len() ==> (#[trigger] good[i]).0 as int % sz == 0,
    ensures
        0 <= scrub::regions_sectors(good, sz, total, k) * sz <= isolate::region_bytes(good.take(k)),
        scrub::regions_sectors(good, sz, total, k) >= 0,
    decreases k,
{
    if k > 0 {
        lemma_regions_within(good, sz, total, k - 1);
        let g = good[k - 1];
        let count = scrub::region_sectors(g, sz, total);
        scrub::lemma_region_fits(g.0 as int, g.1@.len() as int, sz, count, total);
        let before = scrub::regions_sectors(good, sz, total, k - 1);
        assert(good.take(k).drop_last() =~= good.take(k - 1));
        assert(good.take(k).last() == g);
        assert((before + count) * sz == before * sz + count * sz) by (nonlinear_arith);
        assert((before + count) * sz >= 0) by (nonlinear_arith)
            requires
                before >= 0,
                count >= 0,
                sz > 0,
        ;
    } else {
        assert(0 * sz == 0) by (nonlinear_arith);
    }
}

/// Verifies one response.
pub fn finish_run<
    L: Fn(u64, &Vec<u8>) -> Option<Reconfirm>,
    F: Fn(u64, u64, usize) -> Option<Vec<u8>>,
>(strategy: &CsumStrategy, batch: bool, live: &L, fresh: &F, cmd: &ReadCmd, rsp: &ReadRsp) -> (r:
    RunDone)
    requires
        strategy.wf(),
        0 < strategy.sector_size <= usize::MAX,
        command_ok(*cmd, *strategy),
        answers(*cmd, *rsp),
        forall|l: u64, s: &Vec<u8>| #[trigger] call_requires(*live, (l, s)),
        forall|d: u64, p: u64, n: usize| #[trigger] call_requires(*fresh, (d, p, n)),
    ensures
        run_done(*strategy, batch, *live, *fresh, *cmd, *rsp, r),
{
    proof {
        let sz = strategy.sector_size as int;
        let total = cmd.entries@.len() as int;
        let n = rsp.good@.len() as int;
        lemma_regions_within(rsp.good@, sz, total, n);
        assert(rsp.good@.take(n) =~= rsp.good@);
        let held = scrub::regions_sectors(rsp.good@, sz, total, n);
        let failed = rsp.bad@.len() as int;
        assert((held + failed) * sz == held * sz + failed * sz) by (nonlinear_arith);
        assert forall|i: int| 0 <= i < rsp.good@.len() implies scrub::region_first(
            #[trigger] rsp.good@[i],
            sz,
        ) <= total by {
            let g = rsp.good@[i];
            vstd::arithmetic::div_mod::lemma_div_is_ordered(g.0 as int, total * sz, sz);
            vstd::arithmetic::div_mod::lemma_div_multiples_vanish(total, sz);
            assert(total * sz == sz * total) by (nonlinear_arith);
        }
    }
    let findings = scrub::process_isolated(
        &rsp.good,
        &rsp.bad,
        rsp.isolation_truncated,
        &cmd.dext,
        &cmd.entries,
        strategy,
        batch,
    );
    let mut stats = findings.stats;
    let mut settled: Vec<Settled> = Vec::new();
    if batch {
        return RunDone { findings, settled, stats };
    }
    let n: usize = findings.mismatches.len();
    let mut i: usize = 0;
    proof {
        let sz = strategy.sector_size as int;
        let total = cmd.entries@.len() as int;
        let checked = scrub::regions_sectors(rsp.good@, sz, total, rsp.good@.len() as int);
        let errors = scrub::bad_sectors(rsp.bad@, sz, total, rsp.bad@.len() as int);
        lemma_bad_sectors_bound(rsp.bad@, sz, total, rsp.bad@.len() as int);
        assert(checked + errors <= (checked + errors) * sz) by (nonlinear_arith)
            requires
                checked + errors >= 0,
                sz >= 1,
        ;
    }
    while i < n
        invariant
            i <= n,
            n == findings.mismatches@.len(),
            strategy.wf(),
            strategy.sector_size <= usize::MAX,
            forall|l: u64, s: &Vec<u8>| #[trigger] call_requires(*live, (l, s)),
            forall|d: u64, p: u64, n: usize| #[trigger] call_requires(*fresh, (d, p, n)),
            settled@.len() == i,
            forall|j: int|
                0 <= j < i ==> settles(
                    *strategy,
                    *live,
                    *fresh,
                    findings.mismatches@[j],
                    #[trigger] settled@[j],
                ),
            stats == stats_settled(findings.stats, settled@, i as int),
            stats.sectors_read_error + (n - i) <= u64::MAX,
            stats.sectors_stale + (n - i) <= u64::MAX,
            stats.sectors_mismatch + (n - i) <= u64::MAX,
        decreases n - i,
    {
        let m = &findings.mismatches[i];
        let ghost before = settled@;
        let verdict: Settled = match &m.stored_csum {
            None => Settled::ReadError,
            Some(stored) => {
                let l = live(m.logical, stored);
                assert(call_ensures(*live, (m.logical, stored), l));
                let confirmed = match l {
                    Some(Reconfirm::Corruption) => true,
                    _ => false,
                };
                if confirmed {
                    let f = fresh(m.devid, m.array_phys, strategy.sector_size as usize);
                    assert(call_ensures(
                        *fresh,
                        (m.devid, m.array_phys, strategy.sector_size as usize),
                        f,
                    ));
                    match &f {
                        Some(b) => scrub::settle_mismatch(
                            strategy,
                            stored.as_slice(),
                            l,
                            Some(b.as_slice()),
                        ),
                        None => scrub::settle_mismatch(strategy, stored.as_slice(), l, None),
                    }
                } else {
                    scrub::settle_mismatch(strategy, stored.as_slice(), l, None)
                }
            },
        };
        assert(settles(*strategy, *live, *fresh, *m, verdict));
        stats.count_settled(verdict);
        settled.push(verdict);
        proof {
            lemma_stats_settled_prefix(findings.stats, before, settled@, i as int);
        }
        i = i + 1;
    }
    RunDone { findings, settled, stats }
}

proof fn lemma_bad_sectors_bound(bad: Seq<usize>, sz: int, total: int, k: int)
    requires
        k >= 0,
    ensures
        0 <= scrub::bad_sectors(bad, sz, total, k) <= k,
    decreases k,
{
    if k > 0 {
        lemma_bad_sectors_bound(bad, sz, total, k - 1);
    }
}

proof fn lemma_stats_settled_prefix(
    before: ScrubStats,
    a: Seq<Settled>,
    b: Seq<Settled>,
    k: int,
)
    requires
        k <= a.len() <= b.len(),
        forall|i: int| 0 <= i < k ==> #[trigger] a[i] == b[i],
    ensures
        stats_settled(before, a, k) == stats_settled(before, b, k),
    decreases k,
{
    if k > 0 {
        lemma_stats_settled_prefix(before, a, b, k - 1);
        assert(a[k - 1] == b[k - 1]);
    }
}

// ---------------------------------------------------------------------------
// The whole device
// ---------------------------------------------------------------------------

/// What the scrub asks of the world outside.
pub struct ScrubEnv<N, U, G, L, F, O, T> {
    /// The stored checksums of a logical range, in order.
    pub entries: N,
    /// Hands a command to the reader; `false` where the reader is gone.
    pub submit: U,
    /// Waits for the response to a command; `None` where the reader is gone.
    pub receive: G,
    /// Re-confirms a mismatch against live metadata; `None` where the live roots
    /// were not found.
    pub live: L,
    /// Reads a sector again.
    pub fresh: F,
    /// Told of every problem sector.
    pub emit: O,
    /// Told of what else happens.
    pub tell: T,
}

/// What the scrub tells of, besides problem sectors.
#[derive(Debug, Clone, Copy, PartialEq, Eq, Structural)]
pub enum Tell {
    /// The extent has no chunk item and is skipped.
    NoChunk(DevExtent),
    /// The next extent's data will be read soon.
    Prefetch { logical: u64, len: u64 },
    /// The isolation budget of a run was exhausted.
    Truncated,
    ReadError { phys: u64, devid: u64, logical: u64 },
    /// The accounting of one more run.
    Counted(ScrubStats),
    /// An extent of this many bytes is done.
    Progress(u64),
}

/// Why a scrub is not complete.
#[derive(Debug, Clone, Copy, PartialEq, Eq, Structural)]
pub enum ScrubError {
    /// The reader died or responses were lost.
    PipelineFailed,
    /// A data extent, or a sector of it that is to be read, reaches outside the
    /// address space.
    OutOfRange { phys_start: u64 },
    /// A counter does not fit.
    TooLarge,
}

/// The checksums of an extent, cut into runs.
pub ghost struct ExtentTrace {
    pub entries: Seq<CsumEntry>,
    pub runs: Seq<Vec<CsumEntry>>,
}

/// A command, its response, and what it came to.
pub ghost struct RunTrace {
    pub cmd: ReadCmd,
    pub rsp: ReadRsp,
    pub done: RunDone,
}

/// The command that reads a run.
pub open spec fn command_of(dext: DevExtent, run: Vec<CsumEntry>, sector_size: u64) -> ReadCmd {
    ReadCmd {
        phys: scrub::phys_of(dext, run@[0].logical) as u64,
        len: (run@.len() * sector_size) as usize,
        dext,
        entries: run,
        sector_size,
    }
}

/// The commands that read an extent.
pub open spec fn extent_commands(
    dext: DevExtent,
    runs: Seq<Vec<CsumEntry>>,
    sector_size: u64,
) -> Seq<ReadCmd> {
    Seq::new(runs.len(), |j: int| command_of(dext, runs[j], sector_size))
}

/// The commands that read the first `k` extents.
pub open spec fn commands(
    extents: Seq<DevExtent>,
    traces: Seq<ExtentTrace>,
    sector_size: u64,
    k: int,
) -> Seq<ReadCmd>
    decreases k,
{
    if k <= 0 {
        Seq::empty()
    } else {
        commands(extents, traces, sector_size, k - 1) + extent_commands(
            extents[k - 1],
            traces[k - 1].runs,
            sector_size,
        )
    }
}

/// An extent of a data chunk is cut into runs of the checksums stored for it;
/// any other extent is skipped.
pub open spec fn extent_traced<N: Fn(u64, u64) -> Vec<CsumEntry>>(
    chunk_map: ChunkMap,
    entries: N,
    sector_size: u64,
    dext: DevExtent,
    t: ExtentTrace,
) -> bool {
    if scrub::maps_data(chunk_map, dext.chunk_offset) {
        &&& scrub::runs_of(t.runs, t.entries, sector_size)
        &&& listed(entries, dext.chunk_offset, dext.chunk_offset + dext.length, t.entries)
    } else {
        t.runs.len() == 0
    }
}

/// Asking for the checksums of a range may give these.
pub open spec fn listed<N: Fn(u64, u64) -> Vec<CsumEntry>>(
    entries: N,
    lo: u64,
    hi: int,
    out: Seq<CsumEntry>,
) -> bool {
    exists|v: Vec<CsumEntry>| #[trigger] call_ensures(entries, (lo, hi as u64), v) && v@ == out
}

/// Asking for the checksums of the extent may give one for a sector that reaches
/// outside the address space.
pub open spec fn lists_out_of_range<N: Fn(u64, u64) -> Vec<CsumEntry>>(
    entries: N,
    dext: DevExtent,
    sector_size: u64,
) -> bool {
    exists|out: Seq<CsumEntry>, i: int|
        {
            &&& #[trigger] listed(entries, dext.chunk_offset, dext.chunk_offset + dext.length, out)
            &&& 0 <= i < out.len()
            &&& !scrub::ends_in_range(dext, (#[trigger] out[i]).logical, sector_size)
        }
}

/// A sector that the run's findings make a problem: one that could not be read,
/// or a mismatch, outside batch mode only a confirmed one.
pub open spec fn is_problem(batch: bool, d: RunDone, r: SectorResult) -> bool {
    ||| exists|i: int|
        {
            &&& 0 <= i < d.findings.mismatches@.len()
            &&& #[trigger] d.findings.mismatches@[i] == r
            &&& batch || d.settled@[i] is Corruption
        }
    ||| exists|i: int|
        0 <= i < d.findings.unreadable@.len() && #[trigger] d.findings.unreadable@[i] == r
}

/// Everything the run came to was told: its account, its read errors and an
/// exhausted isolation budget, and its problem sectors one by one.
pub open spec fn announced<O: Fn(&SectorResult), T: Fn(Tell)>(
    emit: O,
    tell: T,
    batch: bool,
    devid: u64,
    d: RunDone,
) -> bool {
    &&& call_ensures(tell, (Tell::Counted(d.stats),), ())
    &&& d.stats.isolation_truncated > 0 ==> call_ensures(tell, (Tell::Truncated,), ())
    &&& forall|i: int|
        0 <= i < d.findings.mismatches@.len() && (batch || d.settled@[i] is Corruption)
            ==> call_ensures(emit, (&#[trigger] d.findings.mismatches@[i],), ())
    &&& forall|i: int|
        0 <= i < d.findings.unreadable@.len() ==> call_ensures(
            emit,
            (&#[trigger] d.findings.unreadable@[i],),
            (),
        )
    &&& forall|i: int|
        0 <= i < d.findings.read_errors@.len() ==> read_error_told(
            tell,
            devid,
            #[trigger] d.findings.read_errors@[i],
        )
}

/// The read error was told.
pub open spec fn read_error_told<T: Fn(Tell)>(tell: T, devid: u64, at: (u64, u64)) -> bool {
    call_ensures(tell, (Tell::ReadError { phys: at.0, devid, logical: at.1 },), ())
}

/// The run's command was handed out, and its response verified and told.
pub open spec fn run_traced<
    N: Fn(u64, u64) -> Vec<CsumEntry>,
    U: Fn(&ReadCmd) -> bool,
    G: Fn(&ReadCmd) -> Option<ReadRsp>,
    L: Fn(u64, &Vec<u8>) -> Option<Reconfirm>,
    F: Fn(u64, u64, usize) -> Option<Vec<u8>>,
    O: Fn(&SectorResult),
    T: Fn(Tell),
>(strategy: CsumStrategy, batch: bool, env: ScrubEnv<N, U, G, L, F, O, T>, t: RunTrace) -> bool {
    &&& call_ensures(env.submit, (&t.cmd,), true)
    &&& call_ensures(env.receive, (&t.cmd,), Some(t.rsp))
    &&& run_done(strategy, batch, env.live, env.fresh, t.cmd, t.rsp, t.done)
    &&& announced(env.emit, env.tell, batch, t.cmd.dext.devid, t.done)
}

/// What was told of extent `k`: that no chunk maps it, or that its data is read,
/// and what will be read next.
pub open spec fn extent_told<T: Fn(Tell)>(
    chunk_map: ChunkMap,
    extents: Seq<DevExtent>,
    sector_size: u64,
    tell: T,
    k: int,
) -> bool {
    let dext = extents[k];
    &&& chunk_map.unmapped(dext.chunk_offset) ==> call_ensures(tell, (Tell::NoChunk(dext),), ())
    &&& scrub::maps_data(chunk_map, dext.chunk_offset) ==> call_ensures(
        tell,
        (Tell::Progress(dext.length),),
        (),
    )
    &&& scrub::maps_data(chunk_map, dext.chunk_offset) && k + 1 < extents.len()
        && scrub::maps_data(chunk_map, extents[k + 1].chunk_offset) ==> call_ensures(
        tell,
        (
            Tell::Prefetch {
                logical: extents[k + 1].chunk_offset,
                len: scrub::hint_len(extents[k + 1], sector_size) as u64,
            },
        ),
        (),
    )
}

/// The sum of two accounts.
pub open spec fn added(a: ScrubStats, b: ScrubStats) -> ScrubStats {
    ScrubStats {
        sectors_checked: (a.sectors_checked + b.sectors_checked) as u64,
        sectors_ok: (a.sectors_ok + b.sectors_ok) as u64,
        sectors_mismatch: (a.sectors_mismatch + b.sectors_mismatch) as u64,
        sectors_no_csum: (a.sectors_no_csum + b.sectors_no_csum) as u64,
        sectors_read_error: (a.sectors_read_error + b.sectors_read_error) as u64,
        sectors_stale: (a.sectors_stale + b.sectors_stale) as u64,
        stale_csum_branches: (a.stale_csum_branches + b.stale_csum_branches) as u64,
        isolation_truncated: (a.isolation_truncated + b.isolation_truncated) as u64,
        bytes_checked: (a.bytes_checked + b.bytes_checked) as u64,
        metadata_header_errors: (a.metadata_header_errors + b.metadata_header_errors) as u64,
    }
}

/// The accounts of the first `k` runs together.
pub open spec fn sum_stats(trace: Seq<RunTrace>, k: int) -> ScrubStats
    decreases k,
{
    if k <= 0 {
        ScrubStats::zero()
    } else {
        added(sum_stats(trace, k - 1), trace[k - 1].done.stats)
    }
}

/// The sums fit, one run after the other.
pub open spec fn sums_fit(trace: Seq<RunTrace>) -> bool {
    forall|k: int|
        0 <= k < trace.len() ==> sum_stats(trace, k).can_add((#[trigger] trace[k]).done.stats)
}

/// The device was scrubbed: every data extent was cut into runs, every run was
/// read, and every response was verified, in the order of the extents.
pub open spec fn scrubbed<
    N: Fn(u64, u64) -> Vec<CsumEntry>,
    U: Fn(&ReadCmd) -> bool,
    G: Fn(&ReadCmd) -> Option<ReadRsp>,
    L: Fn(u64, &Vec<u8>) -> Option<Reconfirm>,
    F: Fn(u64, u64, usize) -> Option<Vec<u8>>,
    O: Fn(&SectorResult),
    T: Fn(Tell),
>(
    chunk_map: ChunkMap,
    extents: Seq<DevExtent>,
    strategy: CsumStrategy,
    batch: bool,
    env: ScrubEnv<N, U, G, L, F, O, T>,
    traces: Seq<ExtentTrace>,
    trace: Seq<RunTrace>,
) -> bool {
    &&& traces.len() == extents.len()
    &&& forall|k: int|
        0 <= k < extents.len() ==> extent_traced(
            chunk_map,
            env.entries,
            strategy.sector_size,
            extents[k],
            #[trigger] traces[k],
        )
    &&& forall|k: int|
        0 <= k < extents.len() ==> #[trigger] extent_told(
            chunk_map,
            extents,
            strategy.sector_size,
            env.tell,
            k,
        )
    &&& Seq::new(trace.len(), |i: int| trace[i].cmd) == commands(
        extents,
        traces,
        strategy.sector_size,
        extents.len() as int,
    )
    &&& forall|i: int|
        0 <= i < trace.len() ==> run_traced(
            strategy,
            batch,
            env,
            #[trigger] trace[i],
        )
    &&& sums_fit(trace)
}

/// What there is to tell of a run besides its problem sectors.
pub open spec fn run_tells(devid: u64, d: RunDone, t: Tell) -> bool {
    match t {
        Tell::Counted(stats) => stats == d.stats,
        Tell::Truncated => d.stats.isolation_truncated > 0,
        Tell::ReadError { phys, devid: dev, logical } => dev == devid && exists|i: int|
            0 <= i < d.findings.read_errors@.len() && #[trigger] d.findings.read_errors@[i] == (
                phys,
                logical,
            ),
        _ => false,
    }
}

/// What scrubbing extent `k` may ask for: the checksums of a data extent, the
/// commands that read the runs of what was listed, and to tell what there is to
/// tell of the extent.
pub open spec fn extent_granted<
    N: Fn(u64, u64) -> Vec<CsumEntry>,
    U: Fn(&ReadCmd) -> bool,
    G: Fn(&ReadCmd) -> Option<ReadRsp>,
    L: Fn(u64, &Vec<u8>) -> Option<Reconfirm>,
    F: Fn(u64, u64, usize) -> Option<Vec<u8>>,
    O: Fn(&SectorResult),
    T: Fn(Tell),
>(
    chunk_map: ChunkMap,
    extents: Seq<DevExtent>,
    sector_size: u64,
    env: ScrubEnv<N, U, G, L, F, O, T>,
    k: int,
) -> bool {
    let dext = extents[k];
    let data = scrub::maps_data(chunk_map, dext.chunk_offset);
    &&& data ==> call_requires(
        env.entries,
        (dext.chunk_offset, (dext.chunk_offset + dext.length) as u64),
    )
    &&& forall|t: ExtentTrace, r: int|
        #![trigger extent_traced(chunk_map, env.entries, sector_size, dext, t), t.runs[r]]
        extent_traced(chunk_map, env.entries, sector_size, dext, t) && 0 <= r < t.runs.len()
            ==> call_requires(env.submit, (&command_of(dext, t.runs[r], sector_size),))
    &&& chunk_map.unmapped(dext.chunk_offset) ==> call_requires(env.tell, (Tell::NoChunk(dext),))
    &&& data ==> call_requires(env.tell, (Tell::Progress(dext.length),))
    &&& data && k + 1 < extents.len() && scrub::maps_data(
        chunk_map,
        extents[k + 1].chunk_offset,
    ) ==> call_requires(
        env.tell,
        (
            Tell::Prefetch {
                logical: extents[k + 1].chunk_offset,
                len: scrub::hint_len(extents[k + 1], sector_size) as u64,
            },
        ),
    )
}

/// Stored checksums lie in the range that was asked for, the response to a
/// command that was handed out can be waited for and fits it, and everyone can be
/// told what there is to tell of a run.
pub open spec fn env_ready<
    N: Fn(u64, u64) -> Vec<CsumEntry>,
    U: Fn(&ReadCmd) -> bool,
    G: Fn(&ReadCmd) -> Option<ReadRsp>,
    L: Fn(u64, &Vec<u8>) -> Option<Reconfirm>,
    F: Fn(u64, u64, usize) -> Option<Vec<u8>>,
    O: Fn(&SectorResult),
    T: Fn(Tell),
>(strategy: CsumStrategy, batch: bool, env: ScrubEnv<N, U, G, L, F, O, T>) -> bool {
    &&& forall|lo: u64, hi: u64, v: Vec<CsumEntry>| #[trigger]
        call_ensures(env.entries, (lo, hi), v) ==> entries_between(v@, lo, hi)
    &&& forall|c: &ReadCmd| #[trigger]
        call_ensures(env.submit, (c,), true) ==> call_requires(env.receive, (c,))
    &&& forall|c: &ReadCmd, r: ReadRsp| #[trigger]
        call_ensures(env.receive, (c,), Some(r)) ==> answers(*c, r)
    &&& forall|l: u64, s: &Vec<u8>| #[trigger] call_requires(env.live, (l, s))
    &&& forall|d: u64, p: u64, n: usize| #[trigger] call_requires(env.fresh, (d, p, n))
    // Nothing but a problem sector of a run that was read is ever emitted.
    &&& forall|t: RunTrace, r: &SectorResult|
        #![trigger run_counted(strategy, batch, env, t), call_requires(env.emit, (r,))]
        run_counted(strategy, batch, env, t) && is_problem(batch, t.done, *r) ==> call_requires(
            env.emit,
            (r,),
        )
    &&& forall|t: RunTrace, what: Tell|
        #![trigger run_counted(strategy, batch, env, t), call_requires(env.tell, (what,))]
        run_counted(strategy, batch, env, t) && run_tells(t.cmd.dext.devid, t.done, what)
            ==> call_requires(env.tell, (what,))
}

/// Every checksum is for an address in the range.
pub open spec fn entries_between(v: Seq<CsumEntry>, lo: u64, hi: u64) -> bool {
    forall|i: int| 0 <= i < v.len() ==> lo <= (#[trigger] v[i]).logical < hi
}

impl ScrubStats {
    /// Whether the sums fit.
    fn fits(&self, o: &ScrubStats) -> (r: bool)
        ensures
            r == self.can_add(*o),
    {
        u64::MAX - self.sectors_checked >= o.sectors_checked && u64::MAX - self.sectors_ok
            >= o.sectors_ok && u64::MAX - self.sectors_mismatch >= o.sectors_mismatch && u64::MAX
            - self.sectors_no_csum >= o.sectors_no_csum && u64::MAX - self.sectors_read_error
            >= o.sectors_read_error && u64::MAX - self.sectors_stale >= o.sectors_stale && u64::MAX
            - self.stale_csum_branches >= o.stale_csum_branches && u64::MAX
            - self.isolation_truncated >= o.isolation_truncated && u64::MAX - self.bytes_checked
            >= o.bytes_checked && u64::MAX - self.metadata_header_errors
            >= o.metadata_header_errors
    }
}

/// Tells of a run that is done: its account, its read errors, its problem
/// sectors. Outside batch mode only confirmed mismatches are problems.
fn announce<
    N: Fn(u64, u64) -> Vec<CsumEntry>,
    U: Fn(&ReadCmd) -> bool,
    G: Fn(&ReadCmd) -> Option<ReadRsp>,
    L: Fn(u64, &Vec<u8>) -> Option<Reconfirm>,
    F: Fn(u64, u64, usize) -> Option<Vec<u8>>,
    O: Fn(&SectorResult),
    T: Fn(Tell),
>(
    env: &ScrubEnv<N, U, G, L, F, O, T>,
    strategy: &CsumStrategy,
    batch: bool,
    cmd: &ReadCmd,
    rsp: &ReadRsp,
    done: &RunDone,
)
    requires
        env_ready(*strategy, batch, *env),
        run_counted(*strategy, batch, *env, RunTrace { cmd: *cmd, rsp: *rsp, done: *done }),
    ensures
        announced(env.emit, env.tell, batch, cmd.dext.devid, *done),
{
    let ghost t = RunTrace { cmd: *cmd, rsp: *rsp, done: *done };
    let devid: u64 = cmd.dext.devid;
    let tell = &env.tell;
    let emit = &env.emit;
    tell(Tell::Counted(done.stats));
    if done.stats.isolation_truncated > 0 {
        tell(Tell::Truncated);
    }
    let n: usize = done.findings.mismatches.len();
    let mut i: usize = 0;
    while i < n
        invariant
            i <= n,
            n == done.findings.mismatches@.len(),
            env_ready(*strategy, batch, *env),
            run_counted(*strategy, batch, *env, t),
            t == (RunTrace { cmd: *cmd, rsp: *rsp, done: *done }),
            *emit == env.emit,
            !batch ==> done.settled@.len() == n,
            forall|j: int|
                0 <= j < i && (batch || done.settled@[j] is Corruption) ==> call_ensures(
                    env.emit,
                    (&#[trigger] done.findings.mismatches@[j],),
                    (),
                ),
        decreases n - i,
    {
        let problem = if batch {
            true
        } else {
            match done.settled[i] {
                Settled::Corruption => true,
                _ => false,
            }
        };
        if problem {
            assert(is_problem(batch, *done, done.findings.mismatches@[i as int]));
            emit(&done.findings.mismatches[i]);
        }
        i = i + 1;
    }
    let m: usize = done.findings.read_errors.len();
    let mut j: usize = 0;
    while j < m
        invariant
            j <= m,
            m == done.findings.read_errors@.len(),
            env_ready(*strategy, batch, *env),
            run_counted(*strategy, batch, *env, t),
            t == (RunTrace { cmd: *cmd, rsp: *rsp, done: *done }),
            devid == cmd.dext.devid,
            *tell == env.tell,
            forall|i: int|
                0 <= i < j ==> read_error_told(
                    env.tell,
                    devid,
                    #[trigger] done.findings.read_errors@[i],
                ),
        decreases m - j,
    {
        let at = done.findings.read_errors[j];
        assert(done.findings.read_errors@[j as int] == (at.0, at.1));
        tell(Tell::ReadError { phys: at.0, devid, logical: at.1 });
        assert(read_error_told(env.tell, devid, done.findings.read_errors@[j as int]));
        j = j + 1;
    }
    let u: usize = done.findings.unreadable.len();
    let mut k: usize = 0;
    while k < u
        invariant
            k <= u,
            u == done.findings.unreadable@.len(),
            env_ready(*strategy, batch, *env),
            run_counted(*strategy, batch, *env, t),
            t == (RunTrace { cmd: *cmd, rsp: *rsp, done: *done }),
            *emit == env.emit,
            forall|i: int|
                0 <= i < k ==> call_ensures(
                    env.emit,
                    (&#[trigger] done.findings.unreadable@[i],),
                    (),
                ),
        decreases u - k,
    {
        assert(is_problem(batch, *done, done.findings.unreadable@[k as int]));
        emit(&done.findings.unreadable[k]);
        k = k + 1;
    }
}

/// Waits for the oldest command's response and verifies it.
fn take_one<
    N: Fn(u64, u64) -> Vec<CsumEntry>,
    U: Fn(&ReadCmd) -> bool,
    G: Fn(&ReadCmd) -> Option<ReadRsp>,
    L: Fn(u64, &Vec<u8>) -> Option<Reconfirm>,
    F: Fn(u64, u64, usize) -> Option<Vec<u8>>,
    O: Fn(&SectorResult),
    T: Fn(Tell),
>(
    queue: &mut Vec<ReadCmd>,
    stats: &mut ScrubStats,
    strategy: &CsumStrategy,
    batch: bool,
    env: &ScrubEnv<N, U, G, L, F, O, T>,
) -> (r: Result<Ghost<RunTrace>, ScrubError>)
    requires
        old(queue)@.len() > 0,
        strategy.wf(),
        0 < strategy.sector_size <= usize::MAX,
        env_ready(*strategy, batch, *env),
        forall|i: int|
            0 <= i < old(queue)@.len() ==> queued(env.submit, *strategy, #[trigger] old(queue)@[i]),
    ensures
        match r {
            Ok(t) => {
                &&& final(queue)@ == old(queue)@.drop_first()
                &&& t@.cmd == old(queue)@[0]
                &&& run_traced(*strategy, batch, *env, t@)
                &&& old(stats).can_add(t@.done.stats)
                &&& *final(stats) == added(*old(stats), t@.done.stats)
            },
            Err(ScrubError::TooLarge) => exists|t: RunTrace|
                {
                    &&& #[trigger] run_counted(*strategy, batch, *env, t)
                    &&& t.cmd == old(queue)@[0]
                    &&& !old(stats).can_add(t.done.stats)
                },
            Err(e) => e is PipelineFailed && call_ensures(
                env.receive,
                (&old(queue)@[0],),
                None::<ReadRsp>,
            ),
        },
{
    assert(queued(env.submit, *strategy, old(queue)@[0]));
    let cmd = queue.remove(0);
    assert(queue@ =~= old(queue)@.drop_first());
    let receive = &env.receive;
    let got = receive(&cmd);
    let ghost answer = got;
    assert(call_ensures(env.receive, (&cmd,), answer));
    let rsp = match got {
        Some(r) => r,
        None => {
            assert(call_ensures(env.receive, (&cmd,), None::<ReadRsp>));
            return Err(ScrubError::PipelineFailed);
        },
    };
    assert(call_ensures(env.receive, (&cmd,), Some(rsp)));
    let done = finish_run(strategy, batch, &env.live, &env.fresh, &cmd, &rsp);
    assert(run_counted(*strategy, batch, *env, RunTrace { cmd, rsp, done }));
    if !stats.fits(&done.stats) {
        return Err(ScrubError::TooLarge);
    }
    stats.absorb(&done.stats);
    announce(env, strategy, batch, &cmd, &rsp, &done);
    let ghost t = RunTrace { cmd, rsp, done };
    assert(*stats == added(*old(stats), done.stats));
    Ok(Ghost(t))
}

/// Commands that went out: those whose response was verified, then those still
/// waiting.
pub open spec fn in_order(
    cmds: Seq<ReadCmd>,
    trace: Seq<RunTrace>,
    queue: Seq<ReadCmd>,
) -> bool {
    &&& cmds.len() == trace.len() + queue.len()
    &&& forall|i: int| 0 <= i < trace.len() ==> (#[trigger] trace[i]).cmd == cmds[i]
    &&& forall|j: int| 0 <= j < queue.len() ==> #[trigger] queue[j] == cmds[trace.len() + j]
}

/// The run's command was handed out and its response verified.
pub open spec fn run_counted<
    N: Fn(u64, u64) -> Vec<CsumEntry>,
    U: Fn(&ReadCmd) -> bool,
    G: Fn(&ReadCmd) -> Option<ReadRsp>,
    L: Fn(u64, &Vec<u8>) -> Option<Reconfirm>,
    F: Fn(u64, u64, usize) -> Option<Vec<u8>>,
    O: Fn(&SectorResult),
    T: Fn(Tell),
>(strategy: CsumStrategy, batch: bool, env: ScrubEnv<N, U, G, L, F, O, T>, t: RunTrace) -> bool {
    &&& call_ensures(env.submit, (&t.cmd,), true)
    &&& call_ensures(env.receive, (&t.cmd,), Some(t.rsp))
    &&& run_done(strategy, batch, env.live, env.fresh, t.cmd, t.rsp, t.done)
}

/// Every run of `trace` was verified and told, and `stats` is the sum of their
/// accounts.
pub open spec fn accounted<
    N: Fn(u64, u64) -> Vec<CsumEntry>,
    U: Fn(&ReadCmd) -> bool,
    G: Fn(&ReadCmd) -> Option<ReadRsp>,
    L: Fn(u64, &Vec<u8>) -> Option<Reconfirm>,
    F: Fn(u64, u64, usize) -> Option<Vec<u8>>,
    O: Fn(&SectorResult),
    T: Fn(Tell),
>(
    strategy: CsumStrategy,
    batch: bool,
    env: ScrubEnv<N, U, G, L, F, O, T>,
    trace: Seq<RunTrace>,
    stats: ScrubStats,
) -> bool {
    &&& forall|i: int|
        0 <= i < trace.len() ==> run_traced(strategy, batch, env, #[trigger] trace[i])
    &&& sums_fit(trace)
    &&& stats == sum_stats(trace, trace.len() as int)
}

/// Of these commands the first ones were answered, and the account of the next
/// one no longer fits.
pub open spec fn overflows_after<
    N: Fn(u64, u64) -> Vec<CsumEntry>,
    U: Fn(&ReadCmd) -> bool,
    G: Fn(&ReadCmd) -> Option<ReadRsp>,
    L: Fn(u64, &Vec<u8>) -> Option<Reconfirm>,
    F: Fn(u64, u64, usize) -> Option<Vec<u8>>,
    O: Fn(&SectorResult),
    T: Fn(Tell),
>(
    strategy: CsumStrategy,
    batch: bool,
    env: ScrubEnv<N, U, G, L, F, O, T>,
    cmds: Seq<ReadCmd>,
    trace: Seq<RunTrace>,
    t: RunTrace,
) -> bool {
    &&& trace.len() < cmds.len()
    &&& forall|i: int| 0 <= i < trace.len() ==> (#[trigger] trace[i]).cmd == cmds[i]
    &&& t.cmd == cmds[trace.len() as int]
    &&& accounted(strategy, batch, env, trace, sum_stats(trace, trace.len() as int))
    &&& run_counted(strategy, batch, env, t)
    &&& !sum_stats(trace, trace.len() as int).can_add(t.done.stats)
}

/// The accounts of these commands do not fit together.
pub open spec fn overflows<
    N: Fn(u64, u64) -> Vec<CsumEntry>,
    U: Fn(&ReadCmd) -> bool,
    G: Fn(&ReadCmd) -> Option<ReadRsp>,
    L: Fn(u64, &Vec<u8>) -> Option<Reconfirm>,
    F: Fn(u64, u64, usize) -> Option<Vec<u8>>,
    O: Fn(&SectorResult),
    T: Fn(Tell),
>(
    strategy: CsumStrategy,
    batch: bool,
    env: ScrubEnv<N, U, G, L, F, O, T>,
    cmds: Seq<ReadCmd>,
) -> bool {
    exists|trace: Seq<RunTrace>, t: RunTrace| #[trigger]
        overflows_after(strategy, batch, env, cmds, trace, t)
}

/// The accounts of the first extents, cut as `traces` tells, do not fit
/// together.
pub open spec fn overflows_within<
    N: Fn(u64, u64) -> Vec<CsumEntry>,
    U: Fn(&ReadCmd) -> bool,
    G: Fn(&ReadCmd) -> Option<ReadRsp>,
    L: Fn(u64, &Vec<u8>) -> Option<Reconfirm>,
    F: Fn(u64, u64, usize) -> Option<Vec<u8>>,
    O: Fn(&SectorResult),
    T: Fn(Tell),
>(
    chunk_map: ChunkMap,
    extents: Seq<DevExtent>,
    strategy: CsumStrategy,
    batch: bool,
    env: ScrubEnv<N, U, G, L, F, O, T>,
    traces: Seq<ExtentTrace>,
) -> bool {
    &&& traces.len() <= extents.len()
    &&& forall|k: int|
        0 <= k < traces.len() ==> extent_traced(
            chunk_map,
            env.entries,
            strategy.sector_size,
            extents[k],
            #[trigger] traces[k],
        )
    &&& overflows(
        strategy,
        batch,
        env,
        commands(extents, traces, strategy.sector_size, traces.len() as int),
    )
}

/// Of these commands the first ones were answered, verified and told; the next
/// one was refused, or its response was lost.
pub open spec fn cut_off_after<
    N: Fn(u64, u64) -> Vec<CsumEntry>,
    U: Fn(&ReadCmd) -> bool,
    G: Fn(&ReadCmd) -> Option<ReadRsp>,
    L: Fn(u64, &Vec<u8>) -> Option<Reconfirm>,
    F: Fn(u64, u64, usize) -> Option<Vec<u8>>,
    O: Fn(&SectorResult),
    T: Fn(Tell),
>(
    strategy: CsumStrategy,
    batch: bool,
    env: ScrubEnv<N, U, G, L, F, O, T>,
    cmds: Seq<ReadCmd>,
    trace: Seq<RunTrace>,
) -> bool {
    let next = cmds[trace.len() as int];
    &&& trace.len() < cmds.len()
    &&& forall|i: int| 0 <= i < trace.len() ==> (#[trigger] trace[i]).cmd == cmds[i]
    &&& accounted(strategy, batch, env, trace, sum_stats(trace, trace.len() as int))
    &&& {
        ||| call_ensures(env.submit, (&next,), false)
        ||| call_ensures(env.submit, (&next,), true) && call_ensures(
            env.receive,
            (&next,),
            None::<ReadRsp>,
        )
    }
}

/// The reader was gone before all of these commands were answered.
pub open spec fn cut_off<
    N: Fn(u64, u64) -> Vec<CsumEntry>,
    U: Fn(&ReadCmd) -> bool,
    G: Fn(&ReadCmd) -> Option<ReadRsp>,
    L: Fn(u64, &Vec<u8>) -> Option<Reconfirm>,
    F: Fn(u64, u64, usize) -> Option<Vec<u8>>,
    O: Fn(&SectorResult),
    T: Fn(Tell),
>(
    strategy: CsumStrategy,
    batch: bool,
    env: ScrubEnv<N, U, G, L, F, O, T>,
    cmds: Seq<ReadCmd>,
) -> bool {
    exists|trace: Seq<RunTrace>| #[trigger] cut_off_after(strategy, batch, env, cmds, trace)
}

/// The reader was gone before the commands of the first extents, cut as `traces`
/// tells, were all answered. The extents before the last of them were told.
pub open spec fn cut_off_within<
    N: Fn(u64, u64) -> Vec<CsumEntry>,
    U: Fn(&ReadCmd) -> bool,
    G: Fn(&ReadCmd) -> Option<ReadRsp>,
    L: Fn(u64, &Vec<u8>) -> Option<Reconfirm>,
    F: Fn(u64, u64, usize) -> Option<Vec<u8>>,
    O: Fn(&SectorResult),
    T: Fn(Tell),
>(
    chunk_map: ChunkMap,
    extents: Seq<DevExtent>,
    strategy: CsumStrategy,
    batch: bool,
    env: ScrubEnv<N, U, G, L, F, O, T>,
    traces: Seq<ExtentTrace>,
) -> bool {
    &&& traces.len() <= extents.len()
    &&& forall|k: int|
        0 <= k < traces.len() ==> extent_traced(
            chunk_map,
            env.entries,
            strategy.sector_size,
            extents[k],
            #[trigger] traces[k],
        )
    &&& forall|k: int|
        0 <= k < traces.len() - 1 ==> #[trigger] extent_told(
            chunk_map,
            extents,
            strategy.sector_size,
            env.tell,
            k,
        )
    &&& cut_off(
        strategy,
        batch,
        env,
        commands(extents, traces, strategy.sector_size, traces.len() as int),
    )
}

proof fn lemma_sum_prefix(a: Seq<RunTrace>, b: Seq<RunTrace>, k: int)
    requires
        k <= a.len() <= b.len(),
        forall|i: int| 0 <= i < k ==> #[trigger] a[i] == b[i],
    ensures
        sum_stats(a, k) == sum_stats(b, k),
    decreases k,
{
    if k > 0 {
        lemma_sum_prefix(a, b, k - 1);
        assert(a[k - 1] == b[k - 1]);
    }
}

proof fn lemma_accounted_push<
    N: Fn(u64, u64) -> Vec<CsumEntry>,
    U: Fn(&ReadCmd) -> bool,
    G: Fn(&ReadCmd) -> Option<ReadRsp>,
    L: Fn(u64, &Vec<u8>) -> Option<Reconfirm>,
    F: Fn(u64, u64, usize) -> Option<Vec<u8>>,
    O: Fn(&SectorResult),
    T: Fn(Tell),
>(
    strategy: CsumStrategy,
    batch: bool,
    env: ScrubEnv<N, U, G, L, F, O, T>,
    trace: Seq<RunTrace>,
    stats: ScrubStats,
    t: RunTrace,
)
    requires
        accounted(strategy, batch, env, trace, stats),
        run_traced(strategy, batch, env, t),
        stats.can_add(t.done.stats),
    ensures
        accounted(
            strategy,
            batch,
            env,
            trace.push(t),
            added(stats, t.done.stats),
        ),
{
    let next = trace.push(t);
    assert forall|k: int| 0 <= k < next.len() implies sum_stats(next, k).can_add(
        (#[trigger] next[k]).done.stats,
    ) by {
        lemma_sum_prefix(trace, next, k);
        if k < trace.len() {
            assert(trace[k] == next[k]);
        }
    }
    lemma_sum_prefix(trace, next, trace.len() as int);
}

/// Taking in the oldest response keeps the order and the account.
proof fn lemma_taken<
    N: Fn(u64, u64) -> Vec<CsumEntry>,
    U: Fn(&ReadCmd) -> bool,
    G: Fn(&ReadCmd) -> Option<ReadRsp>,
    L: Fn(u64, &Vec<u8>) -> Option<Reconfirm>,
    F: Fn(u64, u64, usize) -> Option<Vec<u8>>,
    O: Fn(&SectorResult),
    T: Fn(Tell),
>(
    strategy: CsumStrategy,
    batch: bool,
    env: ScrubEnv<N, U, G, L, F, O, T>,
    cmds: Seq<ReadCmd>,
    trace: Seq<RunTrace>,
    stats: ScrubStats,
    queue: Seq<ReadCmd>,
    t: RunTrace,
)
    requires
        in_order(cmds, trace, queue),
        queue.len() > 0,
        accounted(strategy, batch, env, trace, stats),
        run_traced(strategy, batch, env, t),
        t.cmd == queue[0],
        stats.can_add(t.done.stats),
    ensures
        in_order(cmds, trace.push(t), queue.drop_first()),
        accounted(strategy, batch, env, trace.push(t), added(stats, t.done.stats)),
{
    lemma_accounted_push(strategy, batch, env, trace, stats, t);
    let seen = trace.push(t);
    let rest = queue.drop_first();
    assert forall|j: int| 0 <= j < rest.len() implies #[trigger] rest[j] == cmds[seen.len()
        + j] by {
        assert(rest[j] == queue[j + 1]);
    }
    assert forall|j: int| 0 <= j < seen.len() implies (#[trigger] seen[j]).cmd == cmds[j] by {
        if j < trace.len() {
            assert(seen[j] == trace[j]);
        } else {
            assert(queue[0] == cmds[trace.len() as int]);
        }
    }
}

/// A response that does not fit the account, or is lost, ends the commands.
proof fn lemma_stopped<
    N: Fn(u64, u64) -> Vec<CsumEntry>,
    U: Fn(&ReadCmd) -> bool,
    G: Fn(&ReadCmd) -> Option<ReadRsp>,
    L: Fn(u64, &Vec<u8>) -> Option<Reconfirm>,
    F: Fn(u64, u64, usize) -> Option<Vec<u8>>,
    O: Fn(&SectorResult),
    T: Fn(Tell),
>(
    strategy: CsumStrategy,
    batch: bool,
    env: ScrubEnv<N, U, G, L, F, O, T>,
    cmds: Seq<ReadCmd>,
    trace: Seq<RunTrace>,
    stats: ScrubStats,
    queue: Seq<ReadCmd>,
)
    requires
        in_order(cmds, trace, queue),
        queue.len() > 0,
        accounted(strategy, batch, env, trace, stats),
        queued(env.submit, strategy, queue[0]),
    ensures
        forall|t: RunTrace|
            #[trigger] run_counted(strategy, batch, env, t) && t.cmd == queue[0]
                && !stats.can_add(t.done.stats) ==> overflows(strategy, batch, env, cmds),
        call_ensures(env.receive, (&queue[0],), None::<ReadRsp>) ==> cut_off(
            strategy,
            batch,
            env,
            cmds,
        ),
{
    assert(queue[0] == cmds[trace.len() as int]);
    assert forall|t: RunTrace|
        #[trigger] run_counted(strategy, batch, env, t) && t.cmd == queue[0] && !stats.can_add(
            t.done.stats,
        ) implies overflows(strategy, batch, env, cmds) by {
        assert(overflows_after(strategy, batch, env, cmds, trace, t));
    }
    if call_ensures(env.receive, (&queue[0],), None::<ReadRsp>) {
        assert(cut_off_after(strategy, batch, env, cmds, trace));
    }
}

/// What ends the first commands ends them all.
proof fn lemma_stopped_early<
    N: Fn(u64, u64) -> Vec<CsumEntry>,
    U: Fn(&ReadCmd) -> bool,
    G: Fn(&ReadCmd) -> Option<ReadRsp>,
    L: Fn(u64, &Vec<u8>) -> Option<Reconfirm>,
    F: Fn(u64, u64, usize) -> Option<Vec<u8>>,
    O: Fn(&SectorResult),
    T: Fn(Tell),
>(
    strategy: CsumStrategy,
    batch: bool,
    env: ScrubEnv<N, U, G, L, F, O, T>,
    sent: Seq<ReadCmd>,
    all: Seq<ReadCmd>,
)
    requires
        sent.len() <= all.len(),
        forall|j: int| 0 <= j < sent.len() ==> sent[j] == #[trigger] all[j],
    ensures
        overflows(strategy, batch, env, sent) ==> overflows(strategy, batch, env, all),
        cut_off(strategy, batch, env, sent) ==> cut_off(strategy, batch, env, all),
{
    if overflows(strategy, batch, env, sent) {
        let (trace, t) = choose|trace: Seq<RunTrace>, t: RunTrace| #[trigger]
            overflows_after(strategy, batch, env, sent, trace, t);
        assert(all[trace.len() as int] == sent[trace.len() as int]);
        assert forall|i: int| 0 <= i < trace.len() implies (#[trigger] trace[i]).cmd == all[i] by {
            assert(trace[i].cmd == sent[i]);
        }
        assert(overflows_after(strategy, batch, env, all, trace, t));
    }
    if cut_off(strategy, batch, env, sent) {
        let trace = choose|trace: Seq<RunTrace>| #[trigger]
            cut_off_after(strategy, batch, env, sent, trace);
        assert(all[trace.len() as int] == sent[trace.len() as int]);
        assert forall|i: int| 0 <= i < trace.len() implies (#[trigger] trace[i]).cmd == all[i] by {
            assert(trace[i].cmd == sent[i]);
        }
        assert(cut_off_after(strategy, batch, env, all, trace));
    }
}

/// Takes in the responses still under way.
fn drain<
    N: Fn(u64, u64) -> Vec<CsumEntry>,
    U: Fn(&ReadCmd) -> bool,
    G: Fn(&ReadCmd) -> Option<ReadRsp>,
    L: Fn(u64, &Vec<u8>) -> Option<Reconfirm>,
    F: Fn(u64, u64, usize) -> Option<Vec<u8>>,
    O: Fn(&SectorResult),
    T: Fn(Tell),
>(
    queue: &mut Vec<ReadCmd>,
    stats: &mut ScrubStats,
    strategy: &CsumStrategy,
    batch: bool,
    env: &ScrubEnv<N, U, G, L, F, O, T>,
    Ghost(cmds): Ghost<Seq<ReadCmd>>,
    Ghost(trace): Ghost<Seq<RunTrace>>,
) -> (r: Result<Ghost<Seq<RunTrace>>, ScrubError>)
    requires
        strategy.wf(),
        0 < strategy.sector_size <= usize::MAX,
        env_ready(*strategy, batch, *env),
        forall|i: int|
            0 <= i < old(queue)@.len() ==> queued(env.submit, *strategy, #[trigger] old(queue)@[i]),
        in_order(cmds, trace, old(queue)@),
        accounted(*strategy, batch, *env, trace, *old(stats)),
    ensures
        match r {
            Ok(t) => {
                &&& final(queue)@.len() == 0
                &&& in_order(cmds, t@, final(queue)@)
                &&& accounted(*strategy, batch, *env, t@, *final(stats))
            },
            Err(ScrubError::TooLarge) => overflows(*strategy, batch, *env, cmds),
            Err(e) => e is PipelineFailed && cut_off(*strategy, batch, *env, cmds),
        },
{
    let ghost mut seen = trace;
    while queue.len() > 0
        invariant
            strategy.wf(),
            0 < strategy.sector_size <= usize::MAX,
            env_ready(*strategy, batch, *env),
            forall|i: int|
                0 <= i < queue@.len() ==> queued(env.submit, *strategy, #[trigger] queue@[i]),
            in_order(cmds, seen, queue@),
            accounted(*strategy, batch, *env, seen, *stats),
        decreases queue@.len(),
    {
        proof {
            assert(queued(env.submit, *strategy, queue@[0]));
            lemma_stopped(*strategy, batch, *env, cmds, seen, *stats, queue@);
        }
        let ghost waiting = queue@;
        let ghost so_far = *stats;
        match take_one(queue, stats, strategy, batch, env) {
            Ok(t) => {
                proof {
                    lemma_taken(*strategy, batch, *env, cmds, seen, so_far, waiting, t@);
                    seen = seen.push(t@);
                    assert forall|i: int| 0 <= i < queue@.len() implies queued(
                        env.submit,
                        *strategy,
                        #[trigger] queue@[i],
                    ) by {
                        assert(queue@[i] == waiting[i + 1]);
                    }
                }
            },
            Err(e) => {
                return Err(e);
            },
        }
    }
    Ok(Ghost(seen))
}

proof fn lemma_commands_prefix(
    extents: Seq<DevExtent>,
    a: Seq<ExtentTrace>,
    b: Seq<ExtentTrace>,
    sector_size: u64,
    k: int,
)
    requires
        k <= a.len() <= b.len(),
        forall|i: int| 0 <= i < k ==> #[trigger] a[i] == b[i],
    ensures
        commands(extents, a, sector_size, k) == commands(extents, b, sector_size, k),
    decreases k,
{
    if k > 0 {
        lemma_commands_prefix(extents, a, b, sector_size, k - 1);
        assert(a[k - 1] == b[k - 1]);
    }
}

/// An entry of a run is an entry of the row the run was cut from.
proof fn lemma_run_entries(runs: Seq<Vec<CsumEntry>>, k: int, i: int)
    requires
        0 <= k < runs.len(),
        0 <= i < runs[k]@.len(),
    ensures
        exists|j: int|
            0 <= j < scrub::joined(runs).len() && #[trigger] scrub::joined(runs)[j] == runs[k]@[i],
    decreases runs.len(),
{
    let front = scrub::joined(runs.drop_last());
    let all = scrub::joined(runs);
    if k == runs.len() - 1 {
        assert(all[front.len() + i] == runs[k]@[i]);
    } else {
        lemma_run_entries(runs.drop_last(), k, i);
        let j = choose|j: int| 0 <= j < front.len() && #[trigger] front[j] == runs[k]@[i];
        assert(all[j] == front[j]);
    }
}

/// Reads one extent: hands out a command for every run, verifying the oldest
/// response whenever `depth` commands are under way. Where a command is refused,
/// the responses still under way are taken in first.
fn scrub_extent<
    N: Fn(u64, u64) -> Vec<CsumEntry>,
    U: Fn(&ReadCmd) -> bool,
    G: Fn(&ReadCmd) -> Option<ReadRsp>,
    L: Fn(u64, &Vec<u8>) -> Option<Reconfirm>,
    F: Fn(u64, u64, usize) -> Option<Vec<u8>>,
    O: Fn(&SectorResult),
    T: Fn(Tell),
>(
    dext: &DevExtent,
    runs: Vec<Vec<CsumEntry>>,
    depth: usize,
    queue: &mut Vec<ReadCmd>,
    stats: &mut ScrubStats,
    strategy: &CsumStrategy,
    batch: bool,
    env: &ScrubEnv<N, U, G, L, F, O, T>,
    Ghost(cmds): Ghost<Seq<ReadCmd>>,
    Ghost(trace): Ghost<Seq<RunTrace>>,
) -> (r: Result<Ghost<Seq<RunTrace>>, ScrubError>)
    requires
        strategy.wf(),
        0 < strategy.sector_size,
        16384 * strategy.sector_size <= usize::MAX,
        env_ready(*strategy, batch, *env),
        forall|k: int|
            0 <= k < runs@.len() ==> scrub::is_run(#[trigger] runs@[k]@, strategy.sector_size),
        forall|k: int, i: int|
            0 <= k < runs@.len() && 0 <= i < runs@[k]@.len() ==> scrub::in_extent(
                *dext,
                (#[trigger] runs@[k]@[i]).logical,
            ),
        forall|k: int|
            0 <= k < runs@.len() ==> call_requires(
                env.submit,
                (&command_of(*dext, #[trigger] runs@[k], strategy.sector_size),),
            ),
        forall|i: int|
            0 <= i < old(queue)@.len() ==> queued(env.submit, *strategy, #[trigger] old(queue)@[i]),
        in_order(cmds, trace, old(queue)@),
        accounted(
            *strategy,
            batch,
            *env,
            trace,
            *old(stats),
        ),
    ensures
        match r {
            Ok(t) => {
                &&& in_order(
                    cmds + extent_commands(*dext, runs@, strategy.sector_size),
                    t@,
                    final(queue)@,
                )
                &&& accounted(
                    *strategy,
                    batch,
                    *env,
                    t@,
                    *final(stats),
                )
                &&& forall|i: int|
                    0 <= i < final(queue)@.len() ==> queued(
                        env.submit,
                        *strategy,
                        #[trigger] final(queue)@[i],
                    )
            },
            Err(ScrubError::TooLarge) => overflows(
                *strategy,
                batch,
                *env,
                cmds + extent_commands(*dext, runs@, strategy.sector_size),
            ),
            Err(e) => e is PipelineFailed && cut_off(
                *strategy,
                batch,
                *env,
                cmds + extent_commands(*dext, runs@, strategy.sector_size),
            ),
        },
{
    let ghost all = runs@;
    let ghost sz = strategy.sector_size;
    let n: usize = runs.len();
    let mut todo = runs;
    // Popped from a reversed list, the runs come in their own order.
    let mut rest: Vec<Vec<CsumEntry>> = Vec::new();
    while todo.len() > 0
        invariant
            n == all.len(),
            todo@ == all.take(todo@.len() as int),
            todo@.len() + rest@.len() == n,
            forall|k: int| 0 <= k < rest@.len() ==> #[trigger] rest@[k] == all[n - 1 - k],
        decreases todo@.len(),
    {
        match todo.pop() {
            Some(c) => {
                rest.push(c);
            },
            None => {},
        }
        assert(todo@ =~= all.take(todo@.len() as int));
    }
    let ghost mut i: int = 0;
    let ghost mut seen = trace;
    let ghost planned = extent_commands(*dext, all, sz);
    assert(cmds + planned.take(0) =~= cmds);
    while rest.len() > 0
        invariant
            n == all.len(),
            all == runs@,
            i + rest@.len() == n,
            0 <= i,
            forall|k: int| 0 <= k < rest@.len() ==> #[trigger] rest@[k] == all[n - 1 - k],
            sz == strategy.sector_size,
            planned == extent_commands(*dext, all, sz),
            strategy.wf(),
            0 < strategy.sector_size,
            16384 * strategy.sector_size <= usize::MAX,
            env_ready(*strategy, batch, *env),
            forall|k: int|
                0 <= k < all.len() ==> scrub::is_run(#[trigger] all[k]@, strategy.sector_size),
            forall|k: int, j: int|
                0 <= k < all.len() && 0 <= j < all[k]@.len() ==> scrub::in_extent(
                    *dext,
                    (#[trigger] all[k]@[j]).logical,
                ),
            forall|k: int|
                0 <= k < all.len() ==> call_requires(
                    env.submit,
                    (&command_of(*dext, #[trigger] all[k], sz),),
                ),
            forall|k: int|
                0 <= k < queue@.len() ==> queued(env.submit, *strategy, #[trigger] queue@[k]),
            in_order(cmds + planned.take(i), seen, queue@),
            accounted(
                *strategy,
                batch,
                *env,
                seen,
                *stats,
            ),
        decreases rest@.len(),
    {
        let run = match rest.pop() {
            Some(r) => r,
            None => {
                return Err(ScrubError::PipelineFailed);
            },
        };
        let ghost the_run = run;
        assert(the_run == all[i]);
        assert(scrub::is_run(all[i]@, strategy.sector_size));
        assert(run@.len() * strategy.sector_size <= 16384 * strategy.sector_size)
            by (nonlinear_arith)
            requires
                run@.len() <= 16384,
        ;
        assert(scrub::in_extent(*dext, all[i]@[0].logical));
        let cmd = scrub::read_command(dext, run, strategy.sector_size);
        assert(cmd == command_of(*dext, the_run, sz));
        assert(command_ok(cmd, *strategy)) by {
            assert forall|j: int| 0 <= j < cmd.entries@.len() implies scrub::in_extent(
                cmd.dext,
                (#[trigger] cmd.entries@[j]).logical,
            ) by {
                assert(scrub::in_extent(*dext, all[i]@[j].logical));
            }
        }
        let submit = &env.submit;
        let sent = submit(&cmd);
        if !sent {
            assert(call_ensures(env.submit, (&cmd,), false));
            let ghost handed = cmds + planned.take(i);
            let ghost whole = cmds + planned;
            proof {
                assert forall|j: int| 0 <= j < handed.len() implies handed[j]
                    == #[trigger] whole[j] by {}
                lemma_stopped_early(*strategy, batch, *env, handed, whole);
            }
            return match drain(
                queue,
                stats,
                strategy,
                batch,
                env,
                Ghost(handed),
                Ghost(seen),
            ) {
                Ok(t) => {
                    proof {
                        assert(whole[handed.len() as int] == cmd);
                        assert forall|j: int| 0 <= j < t@.len() implies (#[trigger] t@[j]).cmd
                            == whole[j] by {
                            assert(t@[j].cmd == handed[j]);
                        }
                        assert(cut_off_after(*strategy, batch, *env, whole, t@));
                    }
                    Err(ScrubError::PipelineFailed)
                },
                Err(e) => Err(e),
            };
        }
        let ghost before = queue@;
        queue.push(cmd);
        proof {
            let old_cmds = cmds + planned.take(i);
            let new_cmds = cmds + planned.take(i + 1);
            assert(new_cmds =~= old_cmds.push(cmd));
            assert(in_order(new_cmds, seen, queue@));
            i = i + 1;
        }
        if queue.len() >= depth {
            let ghost waiting = queue@;
            let ghost so_far = *stats;
            let ghost handed = cmds + planned.take(i);
            let ghost whole = cmds + planned;
            proof {
                assert(queued(env.submit, *strategy, queue@[0]));
                lemma_stopped(*strategy, batch, *env, handed, seen, *stats, queue@);
                assert forall|j: int| 0 <= j < handed.len() implies handed[j]
                    == #[trigger] whole[j] by {}
                lemma_stopped_early(*strategy, batch, *env, handed, whole);
            }
            match take_one(queue, stats, strategy, batch, env) {
                Ok(t) => {
                    proof {
                        lemma_taken(*strategy, batch, *env, handed, seen, so_far, waiting, t@);
                        seen = seen.push(t@);
                        assert forall|k: int| 0 <= k < queue@.len() implies queued(
                            env.submit,
                            *strategy,
                            #[trigger] queue@[k],
                        ) by {
                            assert(queue@[k] == waiting[k + 1]);
                        }
                    }
                },
                Err(e) => {
                    return Err(e);
                },
            }
        }
    }
    assert(planned.take(n as int) =~= planned);
    Ok(Ghost(seen))
}

/// Scrubs every data dev extent of this device: lists the extent's checksums,
/// has the bytes read, verifies them, and emits every problem. At most `depth`
/// read commands are under way at once; with a depth of 1 every command is
/// answered before the next one goes out. Where the reader is gone, what it had
/// answered is still verified and emitted. The stale branches of the checksum
/// tree are for the caller to add.
pub fn scrub_dev_tree<
    N: Fn(u64, u64) -> Vec<CsumEntry>,
    U: Fn(&ReadCmd) -> bool,
    G: Fn(&ReadCmd) -> Option<ReadRsp>,
    L: Fn(u64, &Vec<u8>) -> Option<Reconfirm>,
    F: Fn(u64, u64, usize) -> Option<Vec<u8>>,
    O: Fn(&SectorResult),
    T: Fn(Tell),
>(
    chunk_map: &ChunkMap,
    dev_extents: &Vec<DevExtent>,
    strategy: &CsumStrategy,
    batch: bool,
    depth: usize,
    env: &ScrubEnv<N, U, G, L, F, O, T>,
) -> (r: Result<ScrubStats, ScrubError>)
    requires
        chunk_map.wf(),
        strategy.wf(),
        0 < strategy.sector_size,
        16384 * strategy.sector_size <= usize::MAX,
        env_ready(*strategy, batch, *env),
        forall|k: int|
            0 <= k < dev_extents@.len() ==> #[trigger] extent_granted(
                *chunk_map,
                dev_extents@,
                strategy.sector_size,
                *env,
                k,
            ),
    ensures
        match r {
            Ok(stats) => device_scrubbed(
                *chunk_map,
                dev_extents@,
                *strategy,
                batch,
                *env,
                stats,
            ) && device_judged(*chunk_map, dev_extents@, *strategy, batch, *env, stats),
            Err(ScrubError::TooLarge) => exists|traces: Seq<ExtentTrace>| #[trigger]
                overflows_within(*chunk_map, dev_extents@, *strategy, batch, *env, traces),
            Err(ScrubError::PipelineFailed) => exists|traces: Seq<ExtentTrace>| #[trigger]
                cut_off_within(*chunk_map, dev_extents@, *strategy, batch, *env, traces),
            Err(ScrubError::OutOfRange { phys_start }) => exists|k: int|
                {
                    &&& 0 <= k < dev_extents@.len()
                    &&& (#[trigger] dev_extents@[k]).phys_start == phys_start
                    &&& scrub::maps_data(*chunk_map, dev_extents@[k].chunk_offset)
                    &&& dev_extents@[k].chunk_offset + dev_extents@[k].length > u64::MAX
                        || lists_out_of_range(
                        env.entries,
                        dev_extents@[k],
                        strategy.sector_size,
                    )
                },
        },
{
    let n: usize = dev_extents.len();
    let tell = &env.tell;
    let mut stats = ScrubStats {
        sectors_checked: 0,
        sectors_ok: 0,
        sectors_mismatch: 0,
        sectors_no_csum: 0,
        sectors_read_error: 0,
        sectors_stale: 0,
        stale_csum_branches: 0,
        isolation_truncated: 0,
        bytes_checked: 0,
        metadata_header_errors: 0,
    };
    let mut queue: Vec<ReadCmd> = Vec::new();
    let ghost mut traces: Seq<ExtentTrace> = Seq::empty();
    let ghost mut trace: Seq<RunTrace> = Seq::empty();
    let ghost sz = strategy.sector_size;
    let mut k: usize = 0;
    while k < n
        invariant
            k <= n,
            n == dev_extents@.len(),
            sz == strategy.sector_size,
            *tell == env.tell,
            chunk_map.wf(),
            strategy.wf(),
            0 < strategy.sector_size,
            16384 * strategy.sector_size <= usize::MAX,
            env_ready(*strategy, batch, *env),
            forall|j: int|
                0 <= j < n ==> #[trigger] extent_granted(
                    *chunk_map,
                    dev_extents@,
                    sz,
                    *env,
                    j,
                ),
            traces.len() == k,
            forall|j: int|
                0 <= j < k ==> #[trigger] extent_told(
                    *chunk_map,
                    dev_extents@,
                    sz,
                    env.tell,
                    j,
                ),
            forall|j: int|
                0 <= j < k ==> extent_traced(
                    *chunk_map,
                    env.entries,
                    sz,
                    dev_extents@[j],
                    #[trigger] traces[j],
                ),
            in_order(commands(dev_extents@, traces, sz, k as int), trace, queue@),
            accounted(
                *strategy,
                batch,
                *env,
                trace,
                stats,
            ),
            forall|j: int| 0 <= j < queue@.len() ==> queued(env.submit, *strategy, #[trigger] queue@[j]),
        decreases n - k,
    {
        let dext = dev_extents[k];
        let ghost old_traces = traces;
        assert(extent_granted(*chunk_map, dev_extents@, sz, *env, k as int));
        match scrub::extent_plan(chunk_map, &dext) {
            ExtentPlan::NoChunk => {
                tell(Tell::NoChunk(dext));
                proof {
                    lemma_unmapped_is_no_data(*chunk_map, dext.chunk_offset);
                    let t = ExtentTrace { entries: Seq::empty(), runs: Seq::empty() };
                    traces = traces.push(t);
                    lemma_commands_prefix(dev_extents@, old_traces, traces, sz, k as int);
                    assert(commands(dev_extents@, traces, sz, k + 1) =~= commands(
                        dev_extents@,
                        old_traces,
                        sz,
                        k as int,
                    ));
                }
            },
            ExtentPlan::NotData => {
                proof {
                    let t = ExtentTrace { entries: Seq::empty(), runs: Seq::empty() };
                    traces = traces.push(t);
                    lemma_commands_prefix(dev_extents@, old_traces, traces, sz, k as int);
                    assert(commands(dev_extents@, traces, sz, k + 1) =~= commands(
                        dev_extents@,
                        old_traces,
                        sz,
                        k as int,
                    ));
                }
            },
            ExtentPlan::OutOfRange => {
                assert(dev_extents@[k as int].phys_start == dext.phys_start);
                return Err(ScrubError::OutOfRange { phys_start: dext.phys_start });
            },
            ExtentPlan::Scrub { logical_lo, logical_hi } => {
                if k + 1 < n {
                    let next = dev_extents[k + 1];
                    match scrub::prefetch_hint(chunk_map, &next, strategy.sector_size) {
                        Some(len) => {
                            tell(Tell::Prefetch { logical: next.chunk_offset, len });
                        },
                        None => {},
                    }
                }
                let entries = &env.entries;
                let list = entries(logical_lo, logical_hi);
                let ghost row = list;
                assert(call_ensures(env.entries, (logical_lo, logical_hi), row));
                assert(listed(
                    env.entries,
                    dext.chunk_offset,
                    dext.chunk_offset + dext.length,
                    row@,
                ));
                if !scrub::all_in_range(&dext, &list, strategy.sector_size) {
                    proof {
                        let i = choose|i: int|
                            0 <= i < row@.len() && !scrub::ends_in_range(
                                dext,
                                (#[trigger] row@[i]).logical,
                                sz,
                            );
                        assert(!scrub::ends_in_range(dext, row@[i].logical, sz));
                        assert(lists_out_of_range(env.entries, dext, sz));
                        assert(dev_extents@[k as int].phys_start == dext.phys_start);
                    }
                    return Err(ScrubError::OutOfRange { phys_start: dext.phys_start });
                }
                let runs = scrub::split_runs(list, strategy.sector_size);
                let ghost cut = runs@;
                proof {
                    assert forall|a: int, b: int|
                        0 <= a < cut.len() && 0 <= b < cut[a]@.len() implies scrub::in_extent(
                        dext,
                        (#[trigger] cut[a]@[b]).logical,
                    ) by {
                        lemma_run_entries(cut, a, b);
                        let j = choose|j: int|
                            0 <= j < scrub::joined(cut).len() && #[trigger] scrub::joined(cut)[j]
                                == cut[a]@[b];
                        assert(row@[j] == cut[a]@[b]);
                        assert(scrub::ends_in_range(dext, row@[j].logical, sz));
                    }
                }
                let ghost et = ExtentTrace { entries: row@, runs: cut };
                assert(extent_traced(*chunk_map, env.entries, sz, dev_extents@[k as int], et));
                assert forall|r: int| 0 <= r < cut.len() implies call_requires(
                    env.submit,
                    (&command_of(dext, #[trigger] cut[r], sz),),
                ) by {
                    assert(et.runs[r] == cut[r]);
                }
                let ghost so_far = commands(dev_extents@, traces, sz, k as int);
                match scrub_extent(
                    &dext,
                    runs,
                    depth,
                    &mut queue,
                    &mut stats,
                    strategy,
                    batch,
                    env,
                    Ghost(so_far),
                    Ghost(trace),
                ) {
                    Ok(t) => {
                        proof {
                            trace = t@;
                            traces = traces.push(et);
                            lemma_commands_prefix(dev_extents@, old_traces, traces, sz, k as int);
                        }
                    },
                    Err(e) => {
                        proof {
                            let with = old_traces.push(et);
                            lemma_commands_prefix(dev_extents@, old_traces, with, sz, k as int);
                            assert(commands(dev_extents@, with, sz, k + 1) == so_far
                                + extent_commands(dext, cut, sz));
                            assert forall|j: int| 0 <= j < with.len() implies extent_traced(
                                *chunk_map,
                                env.entries,
                                sz,
                                dev_extents@[j],
                                #[trigger] with[j],
                            ) by {
                                if j < k {
                                    assert(with[j] == old_traces[j]);
                                }
                            }
                            if e is TooLarge {
                                assert(overflows_within(
                                    *chunk_map,
                                    dev_extents@,
                                    *strategy,
                                    batch,
                                    *env,
                                    with,
                                ));
                            } else {
                                assert(cut_off_within(
                                    *chunk_map,
                                    dev_extents@,
                                    *strategy,
                                    batch,
                                    *env,
                                    with,
                                ));
                            }
                        }
                        return Err(e);
                    },
                }
                tell(Tell::Progress(dext.length));
            },
        }
        assert(extent_told(*chunk_map, dev_extents@, sz, env.tell, k as int));
        k = k + 1;
    }
    // End of commands; drain the responses still under way.
    let ghost all = commands(dev_extents@, traces, sz, n as int);
    match drain(&mut queue, &mut stats, strategy, batch, env, Ghost(all), Ghost(trace)) {
        Ok(t) => {
            proof {
                trace = t@;
            }
        },
        Err(e) => {
            proof {
                if e is TooLarge {
                    assert(overflows_within(
                        *chunk_map,
                        dev_extents@,
                        *strategy,
                        batch,
                        *env,
                        traces,
                    ));
                } else {
                    assert(cut_off_within(
                        *chunk_map,
                        dev_extents@,
                        *strategy,
                        batch,
                        *env,
                        traces,
                    ));
                }
            }
            return Err(e);
        },
    }
    proof {
        assert(Seq::new(trace.len(), |i: int| trace[i].cmd) =~= commands(
            dev_extents@,
            traces,
            sz,
            n as int,
        ));
        assert(scrubbed(
            *chunk_map,
            dev_extents@,
            *strategy,
            batch,
            *env,
            traces,
            trace,
        ));
        laws::scrub::law_every_run_is_judged(
            *chunk_map,
            dev_extents@,
            *strategy,
            batch,
            *env,
            traces,
            trace,
        );
    }
    Ok(stats)
}

/// The device was scrubbed, and `stats` is the sum over all its runs.
pub open spec fn device_scrubbed<
    N: Fn(u64, u64) -> Vec<CsumEntry>,
    U: Fn(&ReadCmd) -> bool,
    G: Fn(&ReadCmd) -> Option<ReadRsp>,
    L: Fn(u64, &Vec<u8>) -> Option<Reconfirm>,
    F: Fn(u64, u64, usize) -> Option<Vec<u8>>,
    O: Fn(&SectorResult),
    T: Fn(Tell),
>(
    chunk_map: ChunkMap,
    extents: Seq<DevExtent>,
    strategy: CsumStrategy,
    batch: bool,
    env: ScrubEnv<N, U, G, L, F, O, T>,
    stats: ScrubStats,
) -> bool {
    exists|traces: Seq<ExtentTrace>, trace: Seq<RunTrace>|
        {
            &&& #[trigger] scrubbed(chunk_map, extents, strategy, batch, env, traces, trace)
            &&& stats == sum_stats(trace, trace.len() as int)
        }
}

/// The device was scrubbed, `stats` is the sum over all its runs, and every run
/// was judged by the checksums of the sectors that were read.
pub open spec fn device_judged<
    N: Fn(u64, u64) -> Vec<CsumEntry>,
    U: Fn(&ReadCmd) -> bool,
    G: Fn(&ReadCmd) -> Option<ReadRsp>,
    L: Fn(u64, &Vec<u8>) -> Option<Reconfirm>,
    F: Fn(u64, u64, usize) -> Option<Vec<u8>>,
    O: Fn(&SectorResult),
    T: Fn(Tell),
>(
    chunk_map: ChunkMap,
    extents: Seq<DevExtent>,
    strategy: CsumStrategy,
    batch: bool,
    env: ScrubEnv<N, U, G, L, F, O, T>,
    stats: ScrubStats,
) -> bool {
    exists|traces: Seq<ExtentTrace>, trace: Seq<RunTrace>|
        {
            &&& #[trigger] scrubbed(chunk_map, extents, strategy, batch, env, traces, trace)
            &&& stats == sum_stats(trace, trace.len() as int)
            &&& forall|i: int|
                0 <= i < trace.len() ==> laws::scrub::run_is_judged(strategy, #[trigger] trace[i])
        }
}

/// An address that no chunk maps is not data.
proof fn lemma_unmapped_is_no_data(chunk_map: ChunkMap, logical: u64)
    requires
        chunk_map.unmapped(logical),
    ensures
        !scrub::maps_data(chunk_map, logical),
{
    if scrub::maps_data(chunk_map, logical) {
        let i = choose|i: int| #[trigger] chunk_map.found(logical, i);
        assert(!chunk_map@[i].covers(logical));
    }
}

// ---------------------------------------------------------------------------
// Laws
// ---------------------------------------------------------------------------

proof fn lemma_settled_balance(before: ScrubStats, settled: Seq<Settled>, k: int)
    requires
        0 <= k,
        before.sectors_read_error + before.sectors_stale + before.sectors_mismatch + k <= u64::MAX,
    ensures
        ({
            let s = stats_settled(before, settled, k);
            &&& s.sectors_checked == before.sectors_checked
            &&& s.sectors_ok == before.sectors_ok
            &&& s.bytes_checked == before.bytes_checked
            &&& s.isolation_truncated == before.isolation_truncated
            &&& s.sectors_read_error + s.sectors_stale + s.sectors_mismatch
                == before.sectors_read_error + before.sectors_stale + before.sectors_mismatch + k
        }),
    decreases k,
{
    if k > 0 {
        lemma_settled_balance(before, settled, k - 1);
    }
}

/// Every sector of a run is accounted for once: it matched, it could not be read,
/// or it is a mismatch, which outside batch mode is settled as corrupt, stale or
/// unconfirmable.
pub proof fn law_run_account_balances<
    L: Fn(u64, &Vec<u8>) -> Option<Reconfirm>,
    F: Fn(u64, u64, usize) -> Option<Vec<u8>>,
>(
    strategy: CsumStrategy,
    batch: bool,
    live: L,
    fresh: F,
    cmd: ReadCmd,
    rsp: ReadRsp,
    d: RunDone,
)
    requires
        0 < strategy.sector_size,
        run_done(strategy, batch, live, fresh, cmd, rsp, d),
    ensures
        batch ==> d.stats.sectors_checked == d.stats.sectors_ok + d.stats.sectors_read_error
            + d.findings.mismatches@.len(),
        !batch ==> d.stats.sectors_checked == d.stats.sectors_ok + d.stats.sectors_read_error
            + d.stats.sectors_stale + d.stats.sectors_mismatch,
{
    let sz = strategy.sector_size as int;
    let total = cmd.entries@.len() as int;
    let checked = scrub::regions_sectors(rsp.good@, sz, total, rsp.good@.len() as int);
    let errors = scrub::bad_sectors(rsp.bad@, sz, total, rsp.bad@.len() as int);
    lemma_bad_sectors_bound(rsp.bad@, sz, total, rsp.bad@.len() as int);
    assert(checked + errors <= (checked + errors) * sz) by (nonlinear_arith)
        requires
            checked + errors >= 0,
            sz >= 1,
    ;
    if !batch {
        lemma_settled_balance(d.findings.stats, d.settled@, d.settled@.len() as int);
    }
}

/// A response covers its run: every sector is in a good region or bad.
pub open spec fn covers_run(t: RunTrace, sector_size: u64) -> bool {
    let sz = sector_size as int;
    let total = t.cmd.entries@.len() as int;
    scrub::regions_sectors(t.rsp.good@, sz, total, t.rsp.good@.len() as int) + scrub::bad_sectors(
        t.rsp.bad@,
        sz,
        total,
        t.rsp.bad@.len() as int,
    ) == total
}

/// Checksums in the first `k` commands.
pub open spec fn entries_in(trace: Seq<RunTrace>, k: int) -> int
    decreases k,
{
    if k <= 0 {
        0
    } else {
        entries_in(trace, k - 1) + trace[k - 1].cmd.entries@.len()
    }
}

/// The response that isolating reads gives covers its run and fits its command.
pub proof fn law_isolated_response_fits<E, R: Fn(u64, usize) -> Result<Vec<u8>, E>>(
    read: R,
    phys: int,
    cmd: ReadCmd,
    rsp: ReadRsp,
    done: RunDone,
)
    requires
        cmd.sector_size > 0,
        cmd.entries@.len() * cmd.sector_size == cmd.len,
        isolate::isolated(
            read,
            phys,
            0,
            cmd.len as int,
            cmd.sector_size as int,
            rsp.isolation_truncated,
            rsp.good@,
            rsp.bad@,
        ),
    ensures
        answers(cmd, rsp),
        covers_run(RunTrace { cmd, rsp, done }, cmd.sector_size),
{
    scrub::law_every_sector_is_checked(
        read,
        phys,
        cmd.entries@.len() as int,
        cmd.sector_size as int,
        rsp.isolation_truncated,
        rsp.good@,
        rsp.bad@,
    );
    assert forall|i: int| 0 <= i < rsp.good@.len() implies (#[trigger] rsp.good@[i]).0 as int
        % cmd.sector_size as int == 0 && rsp.good@[i].0 + rsp.good@[i].1@.len() <= cmd.len by {
        assert(isolate::region_ok(
            read,
            phys,
            0,
            cmd.len as int,
            cmd.sector_size as int,
            rsp.good@[i],
        ));
    }
}

/// Where every response covers its run, every stored checksum of the scrubbed
/// extents is checked.
pub proof fn law_scrub_checks_every_sector<
    N: Fn(u64, u64) -> Vec<CsumEntry>,
    U: Fn(&ReadCmd) -> bool,
    G: Fn(&ReadCmd) -> Option<ReadRsp>,
    L: Fn(u64, &Vec<u8>) -> Option<Reconfirm>,
    F: Fn(u64, u64, usize) -> Option<Vec<u8>>,
    O: Fn(&SectorResult),
    T: Fn(Tell),
>(
    chunk_map: ChunkMap,
    extents: Seq<DevExtent>,
    strategy: CsumStrategy,
    batch: bool,
    env: ScrubEnv<N, U, G, L, F, O, T>,
    traces: Seq<ExtentTrace>,
    trace: Seq<RunTrace>,
)
    requires
        0 < strategy.sector_size,
        scrubbed(chunk_map, extents, strategy, batch, env, traces, trace),
        forall|i: int|
            0 <= i < trace.len() ==> covers_run(#[trigger] trace[i], strategy.sector_size),
    ensures
        sum_stats(trace, trace.len() as int).sectors_checked == entries_in(
            trace,
            trace.len() as int,
        ),
{
    lemma_checked_sum(strategy, batch, env, trace, trace.len() as int);
}

proof fn lemma_checked_sum<
    N: Fn(u64, u64) -> Vec<CsumEntry>,
    U: Fn(&ReadCmd) -> bool,
    G: Fn(&ReadCmd) -> Option<ReadRsp>,
    L: Fn(u64, &Vec<u8>) -> Option<Reconfirm>,
    F: Fn(u64, u64, usize) -> Option<Vec<u8>>,
    O: Fn(&SectorResult),
    T: Fn(Tell),
>(
    strategy: CsumStrategy,
    batch: bool,
    env: ScrubEnv<N, U, G, L, F, O, T>,
    trace: Seq<RunTrace>,
    k: int,
)
    requires
        0 < strategy.sector_size,
        0 <= k <= trace.len(),
        sums_fit(trace),
        forall|i: int|
            0 <= i < trace.len() ==> run_traced(
                strategy,
                batch,
                env,
                #[trigger] trace[i],
            ),
        forall|i: int|
            0 <= i < trace.len() ==> covers_run(#[trigger] trace[i], strategy.sector_size),
    ensures
        sum_stats(trace, k).sectors_checked == entries_in(trace, k),
    decreases k,
{
    if k > 0 {
        lemma_checked_sum(strategy, batch, env, trace, k - 1);
        let t = trace[k - 1];
        assert(run_traced(strategy, batch, env, t));
        assert(covers_run(t, strategy.sector_size));
        assert(sum_stats(trace, k - 1).can_add(t.done.stats));
        let sz = strategy.sector_size as int;
        let total = t.cmd.entries@.len() as int;
        assert(total <= total * sz) by (nonlinear_arith)
            requires
                total >= 0,
                sz >= 1,
        ;
        if !batch {
            law_run_account_balances(strategy, batch, env.live, env.fresh, t.cmd, t.rsp, t.done);
            let errors = scrub::bad_sectors(t.rsp.bad@, sz, total, t.rsp.bad@.len() as int);
            lemma_bad_sectors_bound(t.rsp.bad@, sz, total, t.rsp.bad@.len() as int);
            lemma_settled_balance(
                t.done.findings.stats,
                t.done.settled@,
                t.done.settled@.len() as int,
            );
        }
    }
}

} // verus!
