//! Batches: what is counted, in what order candidates come, and what a verdict
//! of live metadata makes of them.

use vstd::prelude::*;

use crate::array::config::ArrayConfig;
use crate::array::stripe;
use crate::batch_recover;
use crate::batch_recover::{
    BatchStats, CacheDrop, Candidate, Env, Flushed, Gate, Heard, Msg, Outcome, Report,
};
use crate::btrfs::isolate::IsolationBudget;
use crate::fs::{Reconfirm, ReconfirmRequest};
use crate::laws::recovery;
use crate::recovery::engine;
use crate::recovery::laws;
use crate::status::StatusCounters;

verus! {

// ---------------------------------------------------------------------------
// Counters
// ---------------------------------------------------------------------------

/// How many of the reports tell of this outcome.
pub open spec fn outcomes(reports: Seq<Report>, o: Outcome) -> int
    decreases reports.len(),
{
    if reports.len() == 0 {
        0
    } else {
        outcomes(reports.drop_last(), o) + if reports.last().outcome == o { 1int } else { 0 }
    }
}

/// Each counter grows by the number of its outcomes. What was neither stale nor
/// skipped entered recovery, and is a mismatch besides; repeats are not counted
/// here.
pub proof fn law_counters_count_their_outcomes(before: BatchStats, reports: Seq<Report>)
    requires
        before.mismatch == before.recovered + before.failed + before.not_frozen
            + before.readback_failed + before.not_corrupt,
        before.mismatch + before.stale + before.skipped + before.deduped + reports.len()
            <= u64::MAX,
    ensures
        ({
            let s = before.after(reports);
            &&& s.stale == before.stale + outcomes(reports, Outcome::Stale)
            &&& s.skipped == before.skipped + outcomes(reports, Outcome::Skipped)
            &&& s.recovered == before.recovered + outcomes(reports, Outcome::Recovered)
            &&& s.failed == before.failed + outcomes(reports, Outcome::Failed)
            &&& s.not_frozen == before.not_frozen + outcomes(reports, Outcome::NotFrozen)
            &&& s.readback_failed == before.readback_failed + outcomes(
                reports,
                Outcome::ReadbackFailed,
            )
            &&& s.not_corrupt == before.not_corrupt + outcomes(reports, Outcome::NotCorrupt)
            &&& s.mismatch == before.mismatch + reports.len() - outcomes(reports, Outcome::Stale)
                - outcomes(reports, Outcome::Skipped)
            &&& s.deduped == before.deduped
            &&& s.mismatch == s.recovered + s.failed + s.not_frozen + s.readback_failed
                + s.not_corrupt
            &&& s.mismatch + s.stale + s.skipped + s.deduped == before.mismatch + before.stale
                + before.skipped + before.deduped + reports.len()
        }),
    decreases reports.len(),
{
    if reports.len() > 0 {
        law_counters_count_their_outcomes(before, reports.drop_last());
    }
}

/// The status page counts an outcome just as the batch does.
pub proof fn law_status_counts_as_the_batch(
    page: StatusCounters,
    batch: BatchStats,
    o: Outcome,
    repaired_live: bool,
)
    requires
        page.mismatch == batch.mismatch,
        page.stale == batch.stale,
        page.skipped == batch.skipped,
        page.recovered == batch.recovered,
        page.failed == batch.failed,
        page.not_frozen == batch.not_frozen,
        page.readback_failed == batch.readback_failed,
        page.not_corrupt == batch.not_corrupt,
        page.deduped == batch.deduped,
        batch.mismatch == batch.recovered + batch.failed + batch.not_frozen
            + batch.readback_failed + batch.not_corrupt,
        batch.mismatch + batch.stale + batch.skipped + batch.deduped < u64::MAX,
    ensures
        ({
            let p = page.reported(o, repaired_live);
            let b = batch.counted(o);
            &&& p.mismatch == b.mismatch
            &&& p.stale == b.stale
            &&& p.skipped == b.skipped
            &&& p.recovered == b.recovered
            &&& p.failed == b.failed
            &&& p.not_frozen == b.not_frozen
            &&& p.readback_failed == b.readback_failed
            &&& p.not_corrupt == b.not_corrupt
            &&& p.deduped == b.deduped
            &&& repaired_live ==> p.repaired_while_mounted == 1
            &&& !repaired_live ==> p.repaired_while_mounted == page.repaired_while_mounted
            &&& p.sectors_checked == page.sectors_checked
            &&& p.sectors_ok == page.sectors_ok
            &&& p.sectors_no_csum == page.sectors_no_csum
            &&& p.sectors_read_error == page.sectors_read_error
            &&& p.bytes_checked == page.bytes_checked
            &&& p.progress_done == page.progress_done
            &&& p.progress_total == page.progress_total
        }),
{
}

// ---------------------------------------------------------------------------
// Order
// ---------------------------------------------------------------------------

/// A batch is dealt with in order of offset, each sector once: the first of its
/// reports stands, and no other.
pub proof fn law_each_sector_comes_once_and_in_order<V>(
    batch: Seq<Candidate<V>>,
    out: Seq<Candidate<V>>,
    i: int,
)
    requires
        batch_recover::arranges(batch, out),
    ensures
        forall|a: int, b: int|
            0 <= a < b < out.len() ==> (#[trigger] out[a]).array_phys < (
            #[trigger] out[b]).array_phys,
        forall|k: int| 0 <= k < out.len() ==> batch.contains(#[trigger] out[k]),
        0 <= i < batch.len() && (forall|j: int|
            0 <= j < i ==> (#[trigger] batch[j]).array_phys != batch[i].array_phys)
            ==> out.contains(batch[i]),
        0 <= i < batch.len() ==> exists|k: int|
            0 <= k < out.len() && (#[trigger] out[k]).array_phys == batch[i].array_phys,
{
    assert forall|k: int| 0 <= k < out.len() implies batch.contains(#[trigger] out[k]) by {
        assert(batch_recover::reported_first(batch, out[k]));
        let at = choose|at: int|
            0 <= at < batch.len() && #[trigger] batch[at] == out[k]
                && batch_recover::first_report(batch, at);
        assert(batch[at] == out[k]);
    }
    if 0 <= i < batch.len() {
        let phys = batch[i].array_phys;
        assert(batch_recover::has_offset(batch, phys));
        assert(batch_recover::has_offset(out, phys));
        let k = choose|k: int| 0 <= k < out.len() && (#[trigger] out[k]).array_phys == phys;
        assert(batch_recover::reported_first(batch, out[k]));
        let at = choose|at: int|
            0 <= at < batch.len() && #[trigger] batch[at] == out[k]
                && batch_recover::first_report(batch, at);
        if forall|j: int|
            0 <= j < i ==> (#[trigger] batch[j]).array_phys != batch[i].array_phys {
            assert(at == i) by {
                if at < i {
                    assert(batch[at].array_phys != batch[i].array_phys);
                } else if i < at {
                    assert(batch[i].array_phys != batch[at].array_phys);
                }
            }
            assert(out[k] == batch[i]);
        }
    }
}

// ---------------------------------------------------------------------------
// Verdicts
// ---------------------------------------------------------------------------

/// Where live metadata says that the sector is stale, or cannot say, nothing is
/// recovered or written: the candidate is stale, or skipped.
pub proof fn law_live_metadata_is_obeyed<
    E,
    V: Fn(&[u8]) -> bool,
    C: Fn(&ReconfirmRequest) -> Reconfirm,
    S: Fn(&String) -> Result<u64, E>,
    R: Fn(&String, u64, usize) -> Result<Vec<u8>, E>,
    W: Fn(&String, u64, &[u8]) -> Result<(), E>,
    D: Fn(&String) -> CacheDrop,
>(
    cfg: ArrayConfig,
    slot: u64,
    dry_run: bool,
    writes_allowed: bool,
    env: Env<C, S, R, W, D>,
    cand: Candidate<V>,
    req: ReconfirmRequest,
    says: Reconfirm,
    r: Report,
)
    requires
        cand.reconfirm == Some(req),
        forall|v: Reconfirm| #[trigger] call_ensures(env.reconfirm, (&req,), v) ==> v == says,
        batch_recover::candidate_outcome::<E, V, C, S, R, W, D>(
            cfg,
            slot,
            dry_run,
            writes_allowed,
            env,
            cand,
            r,
        ),
    ensures
        says == Reconfirm::Stale ==> r.outcome == Outcome::Stale && !r.written,
        says == Reconfirm::Unverifiable ==> r.outcome == Outcome::Skipped && !r.written,
        r.outcome == Outcome::Skipped ==> says == Reconfirm::Unverifiable,
{
}

/// A sector whose block is on its disk after all is stale: nothing is recovered
/// or written.
pub proof fn law_block_that_is_there_is_left_alone<
    E,
    V: Fn(&[u8]) -> bool,
    C: Fn(&ReconfirmRequest) -> Reconfirm,
    S: Fn(&String) -> Result<u64, E>,
    R: Fn(&String, u64, usize) -> Result<Vec<u8>, E>,
    W: Fn(&String, u64, &[u8]) -> Result<(), E>,
    D: Fn(&String) -> CacheDrop,
>(
    cfg: ArrayConfig,
    slot: u64,
    dry_run: bool,
    writes_allowed: bool,
    env: Env<C, S, R, W, D>,
    cand: Candidate<V>,
    golden: Seq<u8>,
    r: Report,
)
    requires
        cand.block_size > 0,
        !cand.unreadable,
        recovery::disk_holds(
            cfg,
            &cand.failing_dev,
            cand.array_phys,
            cand.block_size,
            env.size,
            env.read,
            golden,
        ),
        laws::recognises(cand.verify, golden),
        cand.reconfirm is Some ==> forall|v: Reconfirm| #[trigger]
            call_ensures(env.reconfirm, (&cand.reconfirm.unwrap(),), v) ==> v
                == Reconfirm::Corruption,
        batch_recover::candidate_outcome::<E, V, C, S, R, W, D>(
            cfg,
            slot,
            dry_run,
            writes_allowed,
            env,
            cand,
            r,
        ),
    ensures
        r.outcome == Outcome::Stale,
        !r.written,
{
    assert forall|corrupt: Seq<u8>, unreadable: bool| !#[trigger]
        batch_recover::starting_block::<E, V, S, R>(
            cfg,
            cand,
            env.size,
            env.read,
            corrupt,
            unreadable,
        ) by {
        if batch_recover::starting_block::<E, V, S, R>(
            cfg,
            cand,
            env.size,
            env.read,
            corrupt,
            unreadable,
        ) {
            if unreadable {
                let e = choose|e: E| #[trigger]
                    batch_recover::own_read::<E, V, S, R>(cfg, cand, env.size, env.read, Err(e));
                recovery::lemma_disk_holds(
                    cfg,
                    &cand.failing_dev,
                    cand.array_phys,
                    cand.block_size,
                    env.size,
                    env.read,
                    golden,
                    Err::<Vec<u8>, E>(e),
                );
            } else {
                let b = choose|b: Vec<u8>| #[trigger]
                    batch_recover::own_read::<E, V, S, R>(cfg, cand, env.size, env.read, Ok(b))
                        && b@ == corrupt;
                recovery::lemma_disk_holds(
                    cfg,
                    &cand.failing_dev,
                    cand.array_phys,
                    cand.block_size,
                    env.size,
                    env.read,
                    golden,
                    Ok::<Vec<u8>, E>(b),
                );
                assert(engine::rejects(cand.verify, corrupt));
            }
        }
    }
    assert forall|result: crate::recovery::model::RecoveryResult| !#[trigger]
        batch_recover::attempt_gives::<E, V, S, R>(
            cfg,
            slot,
            cand,
            env.size,
            env.read,
            result,
        ) by {
        if batch_recover::attempt_gives::<E, V, S, R>(
            cfg,
            slot,
            cand,
            env.size,
            env.read,
            result,
        ) {
            let (chunks, input) = choose|
                chunks: stripe::StripeChunks,
                input: crate::recovery::model::RecoveryInput<V>,
            | #[trigger]
                batch_recover::attempted::<E, V, S, R>(
                    cfg,
                    slot,
                    cand,
                    env.size,
                    env.read,
                    chunks,
                    input,
                    result,
                );
            assert(batch_recover::starting_block::<E, V, S, R>(
                cfg,
                cand,
                env.size,
                env.read,
                input.corrupt_block@,
                input.unreadable_source,
            ));
        }
    }
    assert(!batch_recover::bad_now::<E, V, S, R>(cfg, cand, env.size, env.read));
}

// ---------------------------------------------------------------------------
// Collecting and flushing
// ---------------------------------------------------------------------------

/// A batch is sent when it is full, with the candidate that fills it, and whole
/// when nothing is heard for a while or nothing more will come; until then it is
/// held.
pub proof fn law_batch_is_sent_when_full<V>(
    batch_max: nat,
    earlier: Seq<Heard<V>>,
    h: Heard<V>,
    c: Candidate<V>,
)
    ensures
        ({
            let held = batch_recover::held_after(batch_max, earlier);
            let sent = batch_recover::sent_after(batch_max, earlier);
            let now_held = batch_recover::held_after(batch_max, earlier.push(h));
            let now_sent = batch_recover::sent_after(batch_max, earlier.push(h));
            &&& h == Heard::Message(Msg::Candidate(c)) && held.len() + 1 < batch_max ==> now_held
                == held.push(c) && now_sent == sent
            &&& h == Heard::Message(Msg::Candidate(c)) && held.len() + 1 >= batch_max
                ==> now_held.len() == 0 && now_sent == sent + held.push(c)
            &&& h is TimedOut || h is Disconnected || h == Heard::Message(Msg::<V>::Done)
                ==> now_held.len() == 0 && now_sent == sent + held
        }),
{
    let all = earlier.push(h);
    assert(all.drop_last() =~= earlier);
    let held = batch_recover::held_after(batch_max, earlier);
    let sent = batch_recover::sent_after(batch_max, earlier);
    assert(sent + Seq::empty() =~= sent);
}

/// The budget after so many failing reads.
pub open spec fn after_failures(b: IsolationBudget, n: nat) -> IsolationBudget
    decreases n,
{
    if n == 0 {
        b
    } else {
        after_failures(b, (n - 1) as nat).charged()
    }
}

/// A budget is spent at just the failing read that its limit counts, and not
/// before.
pub proof fn law_budget_bears_its_limit(limit: usize, n: nat)
    requires
        limit > 0,
    ensures
        ({
            let b = after_failures(IsolationBudget { remaining: limit, exhausted: false }, n);
            &&& b.exhausted <==> n >= limit
            &&& n <= limit ==> b.remaining == limit - n
            &&& n > limit ==> b.remaining == 0
        }),
    decreases n,
{
    if n > 0 {
        law_budget_bears_its_limit(limit, (n - 1) as nat);
    }
}

/// A flush deals with every sector of the batch once, or puts it off; it writes
/// only where the filesystem was frozen or is not mounted; and its counters grow
/// by one for each report, and by one for each repeat that was dropped.
pub proof fn law_flush_counts_the_whole_batch<
    E,
    V: Fn(&[u8]) -> bool,
    C: Fn(&ReconfirmRequest) -> Reconfirm,
    S: Fn(&String) -> Result<u64, E>,
    R: Fn(&String, u64, usize) -> Result<Vec<u8>, E>,
    W: Fn(&String, u64, &[u8]) -> Result<(), E>,
    D: Fn(&String) -> CacheDrop,
    F: Fn(&String) -> Result<(), E>,
    T: Fn(&String) -> Result<(), E>,
    K: Fn() -> bool,
    N: Fn(&Report),
>(
    cfg: ArrayConfig,
    slot: u64,
    dry_run: bool,
    mountpoint: Option<String>,
    env: Env<C, S, R, W, D>,
    gate: Gate<F, T, K, N>,
    batch: Seq<Candidate<V>>,
    done: Flushed<V>,
    before: BatchStats,
    after: BatchStats,
)
    requires
        batch_recover::flushes::<E, V, C, S, R, W, D, F, T, K, N>(
            cfg,
            slot,
            dry_run,
            mountpoint,
            env,
            gate,
            batch,
            done,
            before,
            after,
        ),
        done.processed@.len() + done.deferred@.len() <= batch.len(),
        before.mismatch == before.recovered + before.failed + before.not_frozen
            + before.readback_failed + before.not_corrupt,
        before.mismatch + before.stale + before.skipped + before.deduped + batch.len() <= u64::MAX,
    ensures
        done.reports@.len() == done.processed@.len(),
        done.writes_allowed ==> (mountpoint matches Some(m) ==> call_ensures(
            gate.freeze,
            (&m,),
            Ok::<(), E>(()),
        )),
        after.deduped == before.deduped + (batch.len() - done.processed@.len()
            - done.deferred@.len()),
        after.recovered == before.recovered + outcomes(done.reports@, Outcome::Recovered),
        after.failed == before.failed + outcomes(done.reports@, Outcome::Failed),
        after.stale == before.stale + outcomes(done.reports@, Outcome::Stale),
        after.skipped == before.skipped + outcomes(done.reports@, Outcome::Skipped),
        after.not_frozen == before.not_frozen + outcomes(done.reports@, Outcome::NotFrozen),
        after.mismatch + after.stale + after.skipped + after.deduped + done.deferred@.len()
            == before.mismatch + before.stale + before.skipped + before.deduped + batch.len(),
        forall|i: int|
            0 <= i < batch.len() ==> is_among(done, (#[trigger] batch[i]).array_phys),
{
    let start = BatchStats {
        deduped: (before.deduped + batch.len() - done.processed@.len()
            - done.deferred@.len()) as u64,
        ..before
    };
    law_counters_count_their_outcomes(start, done.reports@);
    assert forall|i: int| 0 <= i < batch.len() implies is_among(
        done,
        (#[trigger] batch[i]).array_phys,
    ) by {
        let out = done.processed@ + done.deferred@;
        law_each_sector_comes_once_and_in_order(batch, out, i);
        let k = choose|k: int|
            0 <= k < out.len() && (#[trigger] out[k]).array_phys == batch[i].array_phys;
        if k < done.processed@.len() {
            assert(done.processed@[k] == out[k]);
        } else {
            assert(done.deferred@[k - done.processed@.len()] == out[k]);
        }
    }
}

/// The sector was dealt with, or put off.
pub open spec fn is_among<V>(done: Flushed<V>, phys: u64) -> bool {
    ||| exists|k: int|
        0 <= k < done.processed@.len() && (#[trigger] done.processed@[k]).array_phys == phys
    ||| exists|k: int|
        0 <= k < done.deferred@.len() && (#[trigger] done.deferred@[k]).array_phys == phys
}

/// What is put off is not lost: once nothing is pending any more, every sector
/// that was pending at first was dealt with in some round.
pub proof fn law_nothing_put_off_is_lost<
    E,
    V: Fn(&[u8]) -> bool,
    C: Fn(&ReconfirmRequest) -> Reconfirm,
    S: Fn(&String) -> Result<u64, E>,
    R: Fn(&String, u64, usize) -> Result<Vec<u8>, E>,
    W: Fn(&String, u64, &[u8]) -> Result<(), E>,
    D: Fn(&String) -> CacheDrop,
    F: Fn(&String) -> Result<(), E>,
    T: Fn(&String) -> Result<(), E>,
    K: Fn() -> bool,
    N: Fn(&Report),
>(
    cfg: ArrayConfig,
    slot: u64,
    dry_run: bool,
    mountpoint: Option<String>,
    env: Env<C, S, R, W, D>,
    gate: Gate<F, T, K, N>,
    first: Seq<Candidate<V>>,
    rounds: Seq<Flushed<V>>,
    counts: Seq<BatchStats>,
    k: int,
    i: int,
) -> (at: (int, int))
    requires
        batch_recover::flush_rounds::<E, V, C, S, R, W, D, F, T, K, N>(
            cfg,
            slot,
            dry_run,
            mountpoint,
            env,
            gate,
            first,
            rounds,
            counts,
        ),
        rounds.len() > 0 && rounds.last().deferred@.len() == 0 || rounds.len() == 0 && first.len()
            == 0,
        0 <= k <= rounds.len(),
        k == 0 ==> 0 <= i < first.len(),
        k > 0 ==> 0 <= i < rounds[k - 1].deferred@.len(),
    ensures
        0 <= at.0 < rounds.len(),
        0 <= at.1 < rounds[at.0].processed@.len(),
        rounds[at.0].processed@[at.1].array_phys == (if k == 0 {
            first[i].array_phys
        } else {
            rounds[k - 1].deferred@[i].array_phys
        }),
    decreases rounds.len() - k,
{
    let pending = if k == 0 {
        first
    } else {
        rounds[k - 1].deferred@
    };
    assert(k < rounds.len());
    assert(batch_recover::round_flushed::<E, V, C, S, R, W, D, F, T, K, N>(
        cfg,
        slot,
        dry_run,
        mountpoint,
        env,
        gate,
        first,
        rounds,
        counts,
        k,
    ));
    let done = rounds[k];
    let out = done.processed@ + done.deferred@;
    law_each_sector_comes_once_and_in_order(pending, out, i);
    let j = choose|j: int|
        0 <= j < out.len() && (#[trigger] out[j]).array_phys == pending[i].array_phys;
    if j < done.processed@.len() {
        (k, j)
    } else {
        let d = j - done.processed@.len();
        assert(done.deferred@[d] == out[j]);
        law_nothing_put_off_is_lost(
            cfg,
            slot,
            dry_run,
            mountpoint,
            env,
            gate,
            first,
            rounds,
            counts,
            k + 1,
            d,
        )
    }
}

/// A block that was written counts as recovered only if reading it back gives what
/// the verifier accepts: where the disk holds bytes that it does not, the outcome
/// is another.
pub proof fn law_recovered_block_was_read_back<
    E,
    V: Fn(&[u8]) -> bool,
    C: Fn(&ReconfirmRequest) -> Reconfirm,
    S: Fn(&String) -> Result<u64, E>,
    R: Fn(&String, u64, usize) -> Result<Vec<u8>, E>,
    W: Fn(&String, u64, &[u8]) -> Result<(), E>,
    D: Fn(&String) -> CacheDrop,
>(
    cfg: ArrayConfig,
    slot: u64,
    dry_run: bool,
    writes_allowed: bool,
    env: Env<C, S, R, W, D>,
    cand: Candidate<V>,
    held: Seq<u8>,
    r: Report,
)
    requires
        cand.block_size > 0,
        recovery::disk_holds(
            cfg,
            &cand.failing_dev,
            cand.array_phys,
            cand.block_size,
            env.size,
            env.read,
            held,
        ),
        forall|s: &[u8], says: bool|
            s@ == held && #[trigger] call_ensures(cand.verify, (s,), says) ==> !says,
        batch_recover::candidate_outcome::<E, V, C, S, R, W, D>(
            cfg,
            slot,
            dry_run,
            writes_allowed,
            env,
            cand,
            r,
        ),
    ensures
        r.outcome is Recovered ==> !r.written && dry_run,
        r.written ==> r.outcome is ReadbackFailed && writes_allowed && !dry_run,
{
    if r.outcome is Recovered && r.written {
        let b = choose|b: Vec<u8>| #[trigger]
            batch_recover::own_read::<E, V, S, R>(cfg, cand, env.size, env.read, Ok(b))
                && engine::accepts(cand.verify, b@);
        recovery::lemma_disk_holds(
            cfg,
            &cand.failing_dev,
            cand.array_phys,
            cand.block_size,
            env.size,
            env.read,
            held,
            Ok::<Vec<u8>, E>(b),
        );
        let s = choose|s: &[u8]|
            s@ == b@ && #[trigger] call_ensures(cand.verify, (s,), true);
        assert(call_ensures(cand.verify, (s,), true));
        assert(false);
    }
}

/// A block that was written to a block device whose cache would not be dropped is
/// not taken as recovered: what comes back need not be on the platter.
pub proof fn law_cached_block_is_not_trusted<
    E,
    V: Fn(&[u8]) -> bool,
    C: Fn(&ReconfirmRequest) -> Reconfirm,
    S: Fn(&String) -> Result<u64, E>,
    R: Fn(&String, u64, usize) -> Result<Vec<u8>, E>,
    W: Fn(&String, u64, &[u8]) -> Result<(), E>,
    D: Fn(&String) -> CacheDrop,
>(
    cfg: ArrayConfig,
    slot: u64,
    dry_run: bool,
    writes_allowed: bool,
    env: Env<C, S, R, W, D>,
    cand: Candidate<V>,
    r: Report,
)
    requires
        forall|d: CacheDrop| #[trigger]
            call_ensures(env.drop_cache, (&cand.failing_dev,), d) ==> d == (CacheDrop::Failed {
                is_block_device: true,
            }),
        batch_recover::candidate_outcome::<E, V, C, S, R, W, D>(
            cfg,
            slot,
            dry_run,
            writes_allowed,
            env,
            cand,
            r,
        ),
    ensures
        r.written ==> r.outcome is ReadbackFailed,
{
}

} // verus!
