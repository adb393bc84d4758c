//! Batched parity recovery: dedup, freeze, re-confirm, recover, write back.

use vstd::prelude::*;

use crate::array::config;
use crate::array::config::ArrayConfig;
use crate::array::parity;
use crate::array::stripe;
use crate::array::stripe::StripeChunks;
use crate::freeze::FreezeController;
use crate::fs::{Reconfirm, ReconfirmRequest, ScrubEvent, SectorVerifier};
use crate::recovery::engine;
use crate::recovery::model::{FailureReason, ParityPath, RecoveryInput, RecoveryResult};

verus! {

/// One mismatched sector queued for recovery.
#[derive(Debug)]
pub struct Candidate<V> {
    pub array_phys: u64,
    pub block_size: usize,
    /// Verifies a candidate block against the sector's stored checksum.
    pub verify: V,
    pub raw_phys: u64,
    pub failing_dev: String,
    /// Opaque request to re-check the sector against live metadata at write
    /// time.
    pub reconfirm: Option<ReconfirmRequest>,
    /// The source read returned EIO; `verify` still carries the stored checksum.
    pub unreadable: bool,
}

/// What a scrub event means for recovery.
#[derive(Debug)]
pub enum Queued {
    Candidate(Candidate<SectorVerifier>),
    /// The sector has no stored checksum: it cannot be verified and is skipped.
    NoChecksum,
    /// The scrubbed slot is not a data disk of the array.
    NotADataDisk,
    /// The sector lies outside the disk's address space.
    OutOfRange,
}

/// Makes a recovery candidate of a scrub event on the disk in `slot`.
pub fn candidate_of(cfg: &ArrayConfig, slot: u64, ev: ScrubEvent) -> (r: Queued)
    ensures
        match r {
            Queued::NoChecksum => ev.verify is None,
            Queued::NotADataDisk => ev.verify is Some && cfg.dev(slot) is None,
            Queued::OutOfRange => ev.verify is Some && (cfg.dev(slot) matches Some(p)
                && ev.array_phys + cfg.offset(p) > u64::MAX),
            Queued::Candidate(c) => {
                &&& ev.verify == Some(c.verify)
                &&& cfg.dev(slot) == Some(c.failing_dev@)
                &&& c.raw_phys == ev.array_phys + cfg.offset(c.failing_dev@)
                &&& c.array_phys == ev.array_phys
                &&& c.block_size == ev.block_size
                &&& c.reconfirm == ev.reconfirm
                &&& c.unreadable == ev.unreadable
            },
        },
{
    let verify = match ev.verify {
        Some(v) => v,
        None => {
            return Queued::NoChecksum;
        },
    };
    let failing_dev = match cfg.data_dev(slot) {
        Some(p) => p.to_owned(),
        None => {
            return Queued::NotADataDisk;
        },
    };
    let raw_phys: u64 = match cfg.position(failing_dev.as_str(), ev.array_phys) {
        Some(raw) => raw,
        None => {
            return Queued::OutOfRange;
        },
    };
    Queued::Candidate(
        Candidate {
            array_phys: ev.array_phys,
            block_size: ev.block_size,
            verify,
            raw_phys,
            failing_dev,
            reconfirm: ev.reconfirm,
            unreadable: ev.unreadable,
        },
    )
}

// ---------------------------------------------------------------------------
// Accounting
// ---------------------------------------------------------------------------

/// What became of a candidate.
#[derive(Debug, Clone, Copy, PartialEq, Eq, Structural)]
pub enum Outcome {
    /// No longer corrupt (rewritten or freed): nothing to do.
    Stale,
    /// Skipped without recovery (re-confirm metadata unreadable).
    Skipped,
    /// Reconstructed, written, and read-back verified (or dry-run).
    Recovered,
    /// Recovery attempted but not achieved.
    Failed,
    /// Would have been written, but the freeze failed (assess-only batch).
    NotFrozen,
    /// Written but the read-back could not be verified.
    ReadbackFailed,
    /// Failed-disk read matched the stored checksum.
    NotCorrupt,
}

/// Recovery accounting; stage counters (dedup/stale/skipped/mismatch) and
/// outcome buckets are separate partitions of the same candidates.
#[derive(Debug, Clone, Copy, PartialEq, Eq, Structural)]
pub struct BatchStats {
    /// Candidates that entered recovery (after dedup and re-confirm).
    pub mismatch: u64,
    /// Sectors no longer corrupt (rewritten or freed): nothing to do.
    pub stale: u64,
    /// Reconstructed, written, and read-back verified (or dry-run).
    pub recovered: u64,
    /// Recovery attempted but not achieved.
    pub failed: u64,
    /// Skipped without recovery (e.g. re-confirm metadata unreadable).
    pub skipped: u64,
    /// Would have been written, but the freeze failed (assess-only batch).
    pub not_frozen: u64,
    /// Written but the read-back could not be verified.
    pub readback_failed: u64,
    /// Failed-disk read matched the stored checksum.
    pub not_corrupt: u64,
    /// Duplicate reports of the same sector collapsed in a batch.
    pub deduped: u64,
}

impl Default for BatchStats {
    fn default() -> (r: Self)
        ensures
            r == BatchStats::zero(),
    {
        BatchStats {
            mismatch: 0,
            stale: 0,
            recovered: 0,
            failed: 0,
            skipped: 0,
            not_frozen: 0,
            readback_failed: 0,
            not_corrupt: 0,
            deduped: 0,
        }
    }
}

impl BatchStats {
    pub open spec fn zero() -> BatchStats {
        BatchStats {
            mismatch: 0,
            stale: 0,
            recovered: 0,
            failed: 0,
            skipped: 0,
            not_frozen: 0,
            readback_failed: 0,
            not_corrupt: 0,
            deduped: 0,
        }
    }

    /// The outcome buckets partition the candidates that entered recovery.
    pub open spec fn wf(&self) -> bool {
        self.mismatch == self.recovered + self.failed + self.not_frozen + self.readback_failed
            + self.not_corrupt
    }

    /// Candidates accounted for: every one is in exactly one stage counter.
    pub open spec fn total(&self) -> int {
        self.mismatch + self.stale + self.skipped + self.deduped
    }

    /// The counters after one more outcome.
    pub open spec fn counted(&self, o: Outcome) -> BatchStats {
        let m = (self.mismatch + 1) as u64;
        match o {
            Outcome::Stale => BatchStats { stale: (self.stale + 1) as u64, ..*self },
            Outcome::Skipped => BatchStats { skipped: (self.skipped + 1) as u64, ..*self },
            Outcome::Recovered => BatchStats {
                mismatch: m,
                recovered: (self.recovered + 1) as u64,
                ..*self
            },
            Outcome::Failed => BatchStats {
                mismatch: m,
                failed: (self.failed + 1) as u64,
                ..*self
            },
            Outcome::NotFrozen => BatchStats {
                mismatch: m,
                not_frozen: (self.not_frozen + 1) as u64,
                ..*self
            },
            Outcome::ReadbackFailed => BatchStats {
                mismatch: m,
                readback_failed: (self.readback_failed + 1) as u64,
                ..*self
            },
            Outcome::NotCorrupt => BatchStats {
                mismatch: m,
                not_corrupt: (self.not_corrupt + 1) as u64,
                ..*self
            },
        }
    }

    /// Counts one outcome.
    pub fn count(&mut self, o: Outcome)
        requires
            old(self).wf(),
            old(self).total() < u64::MAX,
        ensures
            *final(self) == old(self).counted(o),
            final(self).wf(),
            final(self).total() == old(self).total() + 1,
    {
        match o {
            Outcome::Stale => {
                self.stale = self.stale + 1;
            },
            Outcome::Skipped => {
                self.skipped = self.skipped + 1;
            },
            Outcome::Recovered => {
                self.mismatch = self.mismatch + 1;
                self.recovered = self.recovered + 1;
            },
            Outcome::Failed => {
                self.mismatch = self.mismatch + 1;
                self.failed = self.failed + 1;
            },
            Outcome::NotFrozen => {
                self.mismatch = self.mismatch + 1;
                self.not_frozen = self.not_frozen + 1;
            },
            Outcome::ReadbackFailed => {
                self.mismatch = self.mismatch + 1;
                self.readback_failed = self.readback_failed + 1;
            },
            Outcome::NotCorrupt => {
                self.mismatch = self.mismatch + 1;
                self.not_corrupt = self.not_corrupt + 1;
            },
        }
    }

    /// The counters after all of these outcomes.
    pub open spec fn after(&self, reports: Seq<Report>) -> BatchStats
        decreases reports.len(),
    {
        if reports.len() == 0 {
            *self
        } else {
            self.after(reports.drop_last()).counted(reports.last().outcome)
        }
    }
}

/// What is told of a candidate that was dealt with.
#[derive(Debug)]
pub struct Report {
    pub raw_phys: u64,
    pub outcome: Outcome,
    /// The parity path that gave the block, where one did.
    pub via: Option<ParityPath>,
    /// Why no parity path gave a block.
    pub reason: Option<FailureReason>,
    /// The block was written to the failing disk.
    pub written: bool,
}

/// What dropping a device's page cache came to.
#[derive(Debug, Clone, Copy, PartialEq, Eq, Structural)]
pub enum CacheDrop {
    /// Later reads come from the platter.
    Dropped,
    /// The cache could not be dropped.
    Failed { is_block_device: bool },
}

// ---------------------------------------------------------------------------
// Order
// ---------------------------------------------------------------------------

/// Offsets ascend, none twice.
pub open spec fn ascending<V>(s: Seq<Candidate<V>>) -> bool {
    forall|i: int, j: int|
        0 <= i < j < s.len() ==> (#[trigger] s[i]).array_phys < (#[trigger] s[j]).array_phys
}

/// Entry `i` of the batch is the first report of its sector.
pub open spec fn first_report<V>(batch: Seq<Candidate<V>>, i: int) -> bool {
    forall|j: int|
        0 <= j < i ==> (#[trigger] batch[j]).array_phys != batch[i].array_phys
}

/// `c` is the first report of its sector in the batch.
pub open spec fn reported_first<V>(batch: Seq<Candidate<V>>, c: Candidate<V>) -> bool {
    exists|i: int|
        0 <= i < batch.len() && #[trigger] batch[i] == c && first_report(batch, i)
}

/// Some entry is for the offset.
pub open spec fn has_offset<V>(s: Seq<Candidate<V>>, phys: u64) -> bool {
    exists|i: int| 0 <= i < s.len() && (#[trigger] s[i]).array_phys == phys
}

/// `out` is the batch in order of array offset, with the first report of each
/// sector.
pub open spec fn arranges<V>(batch: Seq<Candidate<V>>, out: Seq<Candidate<V>>) -> bool {
    &&& ascending(out)
    &&& forall|k: int| 0 <= k < out.len() ==> reported_first(batch, #[trigger] out[k])
    &&& forall|phys: u64| #[trigger] has_offset(batch, phys) ==> has_offset(out, phys)
}

proof fn lemma_arranges_step<V>(
    batch: Seq<Candidate<V>>,
    i: int,
    before: Seq<Candidate<V>>,
    after: Seq<Candidate<V>>,
    at: int,
    fresh: bool,
)
    requires
        0 <= i < batch.len(),
        arranges(batch.take(i), before),
        0 <= at <= before.len(),
        forall|j: int|
            at <= j < before.len() ==> (#[trigger] before[j]).array_phys > batch[i].array_phys,
        fresh ==> after == before.insert(at, batch[i]) && forall|j: int|
            0 <= j < at ==> (#[trigger] before[j]).array_phys < batch[i].array_phys,
        !fresh ==> after == before && at > 0 && before[at - 1].array_phys == batch[i].array_phys,
    ensures
        arranges(batch.take(i + 1), after),
        fresh ==> !has_offset(before, batch[i].array_phys),
{
    let old_batch = batch.take(i);
    let new_batch = batch.take(i + 1);
    let phys = batch[i].array_phys;
    assert forall|c: Candidate<V>| reported_first(old_batch, c) implies #[trigger] reported_first(
        new_batch,
        c,
    ) by {
        let j = choose|j: int|
            0 <= j < old_batch.len() && #[trigger] old_batch[j] == c && first_report(old_batch, j);
        assert(new_batch[j] == c);
        assert forall|m: int| 0 <= m < j implies (#[trigger] new_batch[m]).array_phys
            != new_batch[j].array_phys by {
            assert(old_batch[m].array_phys != old_batch[j].array_phys);
        }
        assert(first_report(new_batch, j));
    }
    if fresh {
        assert(!has_offset(before, phys)) by {
            if has_offset(before, phys) {
                let j = choose|j: int|
                    0 <= j < before.len() && (#[trigger] before[j]).array_phys == phys;
                assert(before[j].array_phys != phys);
            }
        }
        assert(!has_offset(old_batch, phys));
        assert forall|m: int| 0 <= m < i implies (#[trigger] new_batch[m]).array_phys
            != new_batch[i].array_phys by {
            assert(old_batch[m] == new_batch[m]);
        }
        assert(first_report(new_batch, i));
        assert(new_batch[i] == batch[i]);
        assert(reported_first(new_batch, batch[i]));
        assert forall|k: int| 0 <= k < after.len() implies reported_first(
            new_batch,
            #[trigger] after[k],
        ) by {
            if k < at {
                assert(after[k] == before[k]);
                assert(reported_first(old_batch, before[k]));
            } else if k > at {
                assert(after[k] == before[k - 1]);
                assert(reported_first(old_batch, before[k - 1]));
            }
        }
        assert forall|a: int, b: int| 0 <= a < b < after.len() implies (#[trigger] after[a]).array_phys
            < (#[trigger] after[b]).array_phys by {
            let ba = if a < at { a } else { a - 1 };
            let bb = if b < at { b } else { b - 1 };
            if a != at && b != at {
                assert(before[ba].array_phys < before[bb].array_phys);
            } else if a == at {
                assert(before[bb].array_phys > phys);
            } else {
                assert(before[ba].array_phys < phys);
            }
        }
    } else {
        assert(after[at - 1].array_phys == phys);
        assert forall|k: int| 0 <= k < after.len() implies reported_first(
            new_batch,
            #[trigger] after[k],
        ) by {
            assert(reported_first(old_batch, before[k]));
        }
    }
    assert forall|q: u64| #[trigger] has_offset(new_batch, q) implies has_offset(after, q) by {
        let j = choose|j: int| 0 <= j < new_batch.len() && (#[trigger] new_batch[j]).array_phys == q;
        if j < i {
            assert(old_batch[j].array_phys == q);
            assert(has_offset(old_batch, q));
            let m = choose|m: int| 0 <= m < before.len() && (#[trigger] before[m]).array_phys == q;
            if fresh {
                let n = if m < at { m } else { m + 1 };
                assert(after[n] == before[m]);
            }
        } else if fresh {
            assert(after[at].array_phys == q);
        }
    }
}

/// Sorts by array offset and drops repeated reports of a sector. Returns how
/// many were dropped.
pub fn arrange<V>(batch: Vec<Candidate<V>>) -> (r: (Vec<Candidate<V>>, u64))
    ensures
        arranges(batch@, r.0@),
        r.0@.len() + r.1 == batch@.len(),
{
    let ghost all = batch@;
    let mut todo = batch;
    let n: usize = todo.len();
    // Popped from a reversed list, the reports come in their own order.
    let mut rest: Vec<Candidate<V>> = Vec::new();
    while todo.len() > 0
        invariant
            n == all.len(),
            todo@ == all.take(todo@.len() as int),
            todo@.len() + rest@.len() == n,
            forall|k: int| 0 <= k < rest@.len() ==> #[trigger] rest@[k] == all[n - 1 - k],
        decreases todo@.len(),
    {
        match todo.pop() {
            Some(c) => {
                rest.push(c);
            },
            None => {},
        }
        assert(todo@ =~= all.take(todo@.len() as int));
    }
    let mut out: Vec<Candidate<V>> = Vec::new();
    let mut dropped: u64 = 0;
    let ghost mut i: int = 0;
    assert(all.take(0) =~= Seq::<Candidate<V>>::empty());
    while rest.len() > 0
        invariant
            n == all.len(),
            i + rest@.len() == n,
            0 <= i,
            forall|k: int| 0 <= k < rest@.len() ==> #[trigger] rest@[k] == all[n - 1 - k],
            arranges(all.take(i), out@),
            out@.len() + dropped == i,
        decreases rest@.len(),
    {
        let ghost top = rest@.last();
        assert(top == all[i]);
        match rest.pop() {
            Some(c) => {
                let ghost before = out@;
                let mut at: usize = out.len();
                while at > 0 && out[at - 1].array_phys > c.array_phys
                    invariant
                        at <= out@.len(),
                        forall|j: int|
                            at <= j < out@.len() ==> (#[trigger] out@[j]).array_phys > c.array_phys,
                    decreases at,
                {
                    at = at - 1;
                }
                if at > 0 && out[at - 1].array_phys == c.array_phys {
                    dropped = dropped + 1;
                    proof {
                        lemma_arranges_step(all, i, before, out@, at as int, false);
                    }
                } else {
                    proof {
                        assert forall|j: int| 0 <= j < at implies (#[trigger] before[j]).array_phys
                            < c.array_phys by {
                            if j < at - 1 {
                                assert(before[j].array_phys < before[at - 1].array_phys);
                            }
                        }
                    }
                    out.insert(at, c);
                    proof {
                        lemma_arranges_step(all, i, before, out@, at as int, true);
                    }
                }
            },
            None => {},
        }
        proof {
            i = i + 1;
        }
    }
    assert(all.take(n as int) =~= all);
    (out, dropped)
}

// ---------------------------------------------------------------------------
// One candidate
// ---------------------------------------------------------------------------

/// What recovery asks of the world outside.
pub struct Env<C, S, R, W, D> {
    /// Re-checks a sector against live metadata.
    pub reconfirm: C,
    /// A device's capacity.
    pub size: S,
    /// The bytes at a position on a device.
    pub read: R,
    /// Writes bytes at a position on a device, durably.
    pub write: W,
    /// Drops a device's page cache.
    pub drop_cache: D,
}

/// Where on its disk the candidate lies.
pub open spec fn position<V>(cfg: ArrayConfig, cand: Candidate<V>) -> int {
    cand.array_phys + cfg.offset(cand.failing_dev@)
}

/// Reading the candidate's block from its disk may give `out`.
pub open spec fn own_read<
    E,
    V,
    S: Fn(&String) -> Result<u64, E>,
    R: Fn(&String, u64, usize) -> Result<Vec<u8>, E>,
>(cfg: ArrayConfig, cand: Candidate<V>, size: S, read: R, out: Result<Vec<u8>, E>) -> bool {
    stripe::block_read(
        cfg,
        &cand.failing_dev,
        cand.array_phys,
        cand.block_size,
        size,
        read,
        out,
    )
}

/// The sector was re-confirmed, or there is nothing to ask.
pub open spec fn confirmed<V, C: Fn(&ReconfirmRequest) -> Reconfirm>(
    cand: Candidate<V>,
    reconfirm: C,
) -> bool {
    match cand.reconfirm {
        Some(req) => call_ensures(reconfirm, (&req,), Reconfirm::Corruption),
        None => true,
    }
}

/// The block that recovery starts from: the bytes on disk, which fail the
/// verifier, or a zero placeholder where they cannot be read.
pub open spec fn starting_block<
    E,
    V: Fn(&[u8]) -> bool,
    S: Fn(&String) -> Result<u64, E>,
    R: Fn(&String, u64, usize) -> Result<Vec<u8>, E>,
>(
    cfg: ArrayConfig,
    cand: Candidate<V>,
    size: S,
    read: R,
    corrupt: Seq<u8>,
    unreadable: bool,
) -> bool {
    if unreadable {
        &&& corrupt == stripe::zeros(cand.block_size as nat)
        &&& cand.unreadable || exists|e: E| #[trigger]
            own_read::<E, V, S, R>(cfg, cand, size, read, Err(e))
    } else {
        &&& !cand.unreadable
        &&& engine::rejects(cand.verify, corrupt)
        &&& exists|b: Vec<u8>| #[trigger]
            own_read::<E, V, S, R>(cfg, cand, size, read, Ok(b)) && b@ == corrupt
    }
}

/// The block on disk fails the verifier or cannot be read.
pub open spec fn bad_now<
    E,
    V: Fn(&[u8]) -> bool,
    S: Fn(&String) -> Result<u64, E>,
    R: Fn(&String, u64, usize) -> Result<Vec<u8>, E>,
>(cfg: ArrayConfig, cand: Candidate<V>, size: S, read: R) -> bool {
    exists|corrupt: Seq<u8>, unreadable: bool| #[trigger]
        starting_block::<E, V, S, R>(cfg, cand, size, read, corrupt, unreadable)
}

/// `input` is what the recovery engine may be asked for the candidate, with the
/// chunks that reading the stripe gave.
pub open spec fn handed_on<
    E,
    V: Fn(&[u8]) -> bool,
    S: Fn(&String) -> Result<u64, E>,
    R: Fn(&String, u64, usize) -> Result<Vec<u8>, E>,
>(
    cfg: ArrayConfig,
    slot: u64,
    cand: Candidate<V>,
    size: S,
    read: R,
    chunks: StripeChunks,
    input: RecoveryInput<V>,
) -> bool {
    &&& starting_block::<E, V, S, R>(
        cfg,
        cand,
        size,
        read,
        input.corrupt_block@,
        input.unreadable_source,
    )
    &&& stripe::gathered::<E, S, R>(
        cfg,
        slot,
        cand.array_phys,
        cand.block_size,
        size,
        read,
        chunks,
    )
    &&& stripe::chunks_of(cfg, slot, cand.block_size, chunks)
    &&& input.failing_slot == slot
    &&& input.other_blocks@ == chunks.other_data@
    &&& same_chunk(input.p_block, chunks.p_block)
    &&& same_chunk(input.q_block, chunks.q_block)
    &&& *input.verifier == cand.verify
}

/// The engine was asked for the candidate, and `result` is what it may answer.
pub open spec fn attempted<
    E,
    V: Fn(&[u8]) -> bool,
    S: Fn(&String) -> Result<u64, E>,
    R: Fn(&String, u64, usize) -> Result<Vec<u8>, E>,
>(
    cfg: ArrayConfig,
    slot: u64,
    cand: Candidate<V>,
    size: S,
    read: R,
    chunks: StripeChunks,
    input: RecoveryInput<V>,
    result: RecoveryResult,
) -> bool {
    &&& handed_on::<E, V, S, R>(cfg, slot, cand, size, read, chunks, input)
    &&& engine::recovery_outcome(input, result)
}

/// Whatever reading gives, the coefficients exist that recovering the candidate
/// calls for.
#[verifier::opaque]
pub open spec fn candidate_recovers<
    E,
    V: Fn(&[u8]) -> bool,
    S: Fn(&String) -> Result<u64, E>,
    R: Fn(&String, u64, usize) -> Result<Vec<u8>, E>,
>(cfg: ArrayConfig, slot: u64, cand: Candidate<V>, size: S, read: R) -> bool {
    forall|chunks: StripeChunks, input: RecoveryInput<V>| #[trigger]
        handed_on::<E, V, S, R>(cfg, slot, cand, size, read, chunks, input)
            ==> engine::coefficients_exist(input)
}

/// The chunk is handed on as it was read.
pub open spec fn same_chunk(given: Option<&[u8]>, chunk: Option<Vec<u8>>) -> bool {
    match chunk {
        Some(c) => given matches Some(g) && g@ == c@,
        None => given is None,
    }
}

/// Recovering the candidate may give `result`.
pub open spec fn attempt_gives<
    E,
    V: Fn(&[u8]) -> bool,
    S: Fn(&String) -> Result<u64, E>,
    R: Fn(&String, u64, usize) -> Result<Vec<u8>, E>,
>(
    cfg: ArrayConfig,
    slot: u64,
    cand: Candidate<V>,
    size: S,
    read: R,
    result: RecoveryResult,
) -> bool {
    exists|chunks: StripeChunks, input: RecoveryInput<V>| #[trigger]
        attempted::<E, V, S, R>(cfg, slot, cand, size, read, chunks, input, result)
}

/// The sector was confirmed, its block is bad, and recovery gave `block` for it.
pub open spec fn rebuilt<
    E,
    V: Fn(&[u8]) -> bool,
    C: Fn(&ReconfirmRequest) -> Reconfirm,
    S: Fn(&String) -> Result<u64, E>,
    R: Fn(&String, u64, usize) -> Result<Vec<u8>, E>,
>(
    cfg: ArrayConfig,
    slot: u64,
    cand: Candidate<V>,
    reconfirm: C,
    size: S,
    read: R,
    block: Seq<u8>,
) -> bool {
    &&& confirmed(cand, reconfirm)
    &&& bad_now::<E, V, S, R>(cfg, cand, size, read)
    &&& block.len() == cand.block_size
    &&& engine::accepts(cand.verify, block)
    &&& exists|via: ParityPath, made: Vec<u8>| #[trigger]
        attempt_gives::<E, V, S, R>(
            cfg,
            slot,
            cand,
            size,
            read,
            RecoveryResult::Recovered { via, block: made },
        ) && made@ == block
}

/// Writing `block` over the candidate may come to `out`.
pub open spec fn write_gives<E, V, W: Fn(&String, u64, &[u8]) -> Result<(), E>>(
    cfg: ArrayConfig,
    cand: Candidate<V>,
    write: W,
    block: Seq<u8>,
    out: Result<(), E>,
) -> bool {
    exists|s: &[u8]|
        s@ == block && #[trigger] call_ensures(
            write,
            (&cand.failing_dev, position(cfg, cand) as u64, s),
            out,
        )
}

/// The device's cache no longer answers for the platter: it was dropped, or the
/// device is an image, whose cache is authoritative after a sync.
pub open spec fn cache_settled<V, D: Fn(&String) -> CacheDrop>(
    cand: Candidate<V>,
    drop_cache: D,
) -> bool {
    ||| call_ensures(drop_cache, (&cand.failing_dev,), CacheDrop::Dropped)
    ||| call_ensures(
        drop_cache,
        (&cand.failing_dev,),
        CacheDrop::Failed { is_block_device: false },
    )
}

/// The block that was written came back and passes the verifier.
pub open spec fn read_back_verified<
    E,
    V: Fn(&[u8]) -> bool,
    S: Fn(&String) -> Result<u64, E>,
    R: Fn(&String, u64, usize) -> Result<Vec<u8>, E>,
    D: Fn(&String) -> CacheDrop,
>(cfg: ArrayConfig, cand: Candidate<V>, size: S, read: R, drop_cache: D) -> bool {
    &&& cache_settled(cand, drop_cache)
    &&& exists|b: Vec<u8>| #[trigger]
        own_read::<E, V, S, R>(cfg, cand, size, read, Ok(b)) && engine::accepts(cand.verify, b@)
}

/// The block that was written cannot be trusted to be on the platter: the cache
/// of a block device stayed, the re-read failed, or what came back fails the
/// verifier.
pub open spec fn read_back_failed<
    E,
    V: Fn(&[u8]) -> bool,
    S: Fn(&String) -> Result<u64, E>,
    R: Fn(&String, u64, usize) -> Result<Vec<u8>, E>,
    D: Fn(&String) -> CacheDrop,
>(cfg: ArrayConfig, cand: Candidate<V>, size: S, read: R, drop_cache: D) -> bool {
    ||| call_ensures(
        drop_cache,
        (&cand.failing_dev,),
        CacheDrop::Failed { is_block_device: true },
    )
    ||| {
        &&& cache_settled(cand, drop_cache)
        &&& {
            ||| exists|b: Vec<u8>| #[trigger]
                own_read::<E, V, S, R>(cfg, cand, size, read, Ok(b)) && engine::rejects(
                    cand.verify,
                    b@,
                )
            ||| exists|e: E| #[trigger] own_read::<E, V, S, R>(cfg, cand, size, read, Err(e))
        }
    }
}

/// What one candidate may come to.
pub open spec fn candidate_outcome<
    E,
    V: Fn(&[u8]) -> bool,
    C: Fn(&ReconfirmRequest) -> Reconfirm,
    S: Fn(&String) -> Result<u64, E>,
    R: Fn(&String, u64, usize) -> Result<Vec<u8>, E>,
    W: Fn(&String, u64, &[u8]) -> Result<(), E>,
    D: Fn(&String) -> CacheDrop,
>(
    cfg: ArrayConfig,
    slot: u64,
    dry_run: bool,
    writes_allowed: bool,
    env: Env<C, S, R, W, D>,
    cand: Candidate<V>,
    r: Report,
) -> bool {
    &&& r.raw_phys == cand.raw_phys
    &&& r.written ==> r.outcome is Recovered || r.outcome is ReadbackFailed
    &&& match r.outcome {
        Outcome::Stale => {
            &&& r.via is None && r.reason is None
            &&& {
                ||| cand.reconfirm matches Some(req) && call_ensures(
                    env.reconfirm,
                    (&req,),
                    Reconfirm::Stale,
                )
                ||| {
                    &&& confirmed(cand, env.reconfirm)
                    &&& !cand.unreadable
                    &&& exists|b: Vec<u8>| #[trigger]
                        own_read::<E, V, S, R>(cfg, cand, env.size, env.read, Ok(b))
                            && engine::accepts(cand.verify, b@)
                }
            }
        },
        Outcome::Skipped => {
            &&& r.via is None && r.reason is None
            &&& cand.reconfirm matches Some(req) && call_ensures(
                env.reconfirm,
                (&req,),
                Reconfirm::Unverifiable,
            )
        },
        Outcome::NotCorrupt => {
            &&& r.via is None && r.reason is None
            &&& confirmed(cand, env.reconfirm)
            &&& attempt_gives::<E, V, S, R>(
                cfg,
                slot,
                cand,
                env.size,
                env.read,
                RecoveryResult::NotCorrupt,
            )
        },
        Outcome::Failed => {
            &&& confirmed(cand, env.reconfirm)
            &&& match (r.via, r.reason) {
                // The block is bad, and the stripe could not be read.
                (None, None) => {
                    &&& bad_now::<E, V, S, R>(cfg, cand, env.size, env.read)
                    &&& exists|e: E| #[trigger]
                        stripe::gather_error::<E, S, R>(
                            cfg,
                            slot,
                            cand.array_phys,
                            cand.block_size,
                            env.size,
                            env.read,
                            e,
                        )
                },
                // No parity path gave a block that verifies.
                (None, Some(reason)) => attempt_gives::<E, V, S, R>(
                    cfg,
                    slot,
                    cand,
                    env.size,
                    env.read,
                    RecoveryResult::Failed { reason },
                ),
                // The block could not be written.
                (Some(via), None) => {
                    &&& !dry_run && writes_allowed
                    &&& exists|block: Vec<u8>, e: E|
                        #![trigger write_gives::<E, V, W>(cfg, cand, env.write, block@, Err(e))]
                        {
                            &&& attempt_gives::<E, V, S, R>(
                                cfg,
                                slot,
                                cand,
                                env.size,
                                env.read,
                                RecoveryResult::Recovered { via, block },
                            )
                            &&& write_gives::<E, V, W>(cfg, cand, env.write, block@, Err(e))
                        }
                },
                (Some(_), Some(_)) => false,
            }
        },
        Outcome::NotFrozen => {
            &&& !writes_allowed
            &&& r.reason is None
            &&& confirmed(cand, env.reconfirm)
            &&& r.via matches Some(via) && exists|block: Vec<u8>| #[trigger]
                attempt_gives::<E, V, S, R>(
                    cfg,
                    slot,
                    cand,
                    env.size,
                    env.read,
                    RecoveryResult::Recovered { via, block },
                )
        },
        Outcome::Recovered => {
            &&& writes_allowed
            &&& r.written == !dry_run
            &&& r.reason is None
            &&& confirmed(cand, env.reconfirm)
            &&& r.via matches Some(via) && exists|block: Vec<u8>| #[trigger]
                attempt_gives::<E, V, S, R>(
                    cfg,
                    slot,
                    cand,
                    env.size,
                    env.read,
                    RecoveryResult::Recovered { via, block },
                ) && (r.written ==> write_gives::<E, V, W>(
                    cfg,
                    cand,
                    env.write,
                    block@,
                    Ok(()),
                ))
            &&& r.written ==> read_back_verified::<E, V, S, R, D>(
                cfg,
                cand,
                env.size,
                env.read,
                env.drop_cache,
            )
        },
        Outcome::ReadbackFailed => {
            &&& writes_allowed && !dry_run
            &&& r.written
            &&& r.reason is None
            &&& confirmed(cand, env.reconfirm)
            &&& r.via matches Some(via) && exists|block: Vec<u8>| #[trigger]
                attempt_gives::<E, V, S, R>(
                    cfg,
                    slot,
                    cand,
                    env.size,
                    env.read,
                    RecoveryResult::Recovered { via, block },
                ) && write_gives::<E, V, W>(cfg, cand, env.write, block@, Ok(()))
            &&& read_back_failed::<E, V, S, R, D>(
                cfg,
                cand,
                env.size,
                env.read,
                env.drop_cache,
            )
        },
    }
}

/// The array has every coefficient that recovering a disk in `slot` may call for.
pub open spec fn array_recovers(cfg: ArrayConfig, slot: u64) -> bool {
    &&& cfg.parity_q is Some ==> engine::slot_fits(slot) && parity::slots_have_columns(cfg)
    &&& cfg.parity_p is Some && cfg.parity_q is Some ==> forall|k: int|
        0 <= k < cfg.disks().len() && (#[trigger] cfg.disks()[k]).0 != slot
            ==> engine::two_disk_fits(slot, cfg.disks()[k].0)
}

/// Whether the array has every coefficient that recovering a disk in `slot` may
/// call for.
pub fn can_recover(cfg: &ArrayConfig, slot: u64) -> (r: bool)
    ensures
        r == array_recovers(*cfg, slot),
{
    if cfg.parity_q.is_none() {
        return true;
    }
    let own: i32 = slot as i32;
    if own <= i32::MIN + 1 || !parity::has_columns(cfg) {
        return false;
    }
    if cfg.parity_p.is_none() {
        return true;
    }
    let disks = cfg.disk_list();
    let n: usize = disks.len();
    let mut k: usize = 0;
    while k < n
        invariant
            disks@ == cfg.disks(),
            k <= n,
            n == cfg.disks().len(),
            own == slot as i32,
            own > i32::MIN + 1,
            parity::slots_have_columns(*cfg),
            cfg.parity_p is Some,
            cfg.parity_q is Some,
            forall|j: int|
                0 <= j < k && (#[trigger] cfg.disks()[j]).0 != slot ==> engine::two_disk_fits(
                    slot,
                    cfg.disks()[j].0,
                ),
        decreases n - k,
    {
        let other: u64 = disks[k].0;
        let theirs: i32 = other as i32;
        assert((cfg.disks()[k as int].0 as i32) > i32::MIN);
        if other != slot && own >= 1 && theirs >= 1 && own != theirs && (own > 256 || theirs > 256) {
            assert(!engine::two_disk_fits(slot, cfg.disks()[k as int].0));
            return false;
        }
        k = k + 1;
    }
    true
}

/// Everything that a candidate may need can be asked for. The one write it may
/// need is of the block that recovery gave for it, at its own position, once the
/// sector was confirmed and its block found bad, and only where writing is
/// allowed. The device's cache may be dropped once such a write went through.
#[verifier::opaque]
pub open spec fn candidate_ready<
    E,
    V: Fn(&[u8]) -> bool,
    C: Fn(&ReconfirmRequest) -> Reconfirm,
    S: Fn(&String) -> Result<u64, E>,
    R: Fn(&String, u64, usize) -> Result<Vec<u8>, E>,
    W: Fn(&String, u64, &[u8]) -> Result<(), E>,
    D: Fn(&String) -> CacheDrop,
>(
    cfg: ArrayConfig,
    slot: u64,
    may_write: bool,
    env: Env<C, S, R, W, D>,
    cand: Candidate<V>,
) -> bool {
    &&& stripe::offset_fits(cfg, cand.array_phys)
    &&& position(cfg, cand) <= u64::MAX
    &&& engine::verifies_blocks(cand.verify, cand.block_size as nat)
    &&& cand.reconfirm matches Some(req) ==> call_requires(env.reconfirm, (&req,))
    &&& forall|s: &[u8]|
        may_write && rebuilt::<E, V, C, S, R>(
            cfg,
            slot,
            cand,
            env.reconfirm,
            env.size,
            env.read,
            s@,
        ) ==> #[trigger] call_requires(
            env.write,
            (&cand.failing_dev, position(cfg, cand) as u64, s),
        )
    &&& forall|block: Seq<u8>| #[trigger]
        write_gives::<E, V, W>(cfg, cand, env.write, block, Ok(())) ==> call_requires(
            env.drop_cache,
            (&cand.failing_dev,),
        )
}

/// What came of writing a recovered block.
enum Written {
    Verified,
    Untrusted,
    NotWritten,
}

/// Reads a written block back. The device's page cache was dropped after the
/// write: `dropped` is what came of that, so that what is read comes off the
/// platter. The cache is dropped again behind it.
fn read_back<
    E,
    V: Fn(&[u8]) -> bool,
    C: Fn(&ReconfirmRequest) -> Reconfirm,
    S: Fn(&String) -> Result<u64, E>,
    R: Fn(&String, u64, usize) -> Result<Vec<u8>, E>,
    W: Fn(&String, u64, &[u8]) -> Result<(), E>,
    D: Fn(&String) -> CacheDrop,
>(
    cfg: &ArrayConfig,
    env: &Env<C, S, R, W, D>,
    cand: &Candidate<V>,
    dropped: CacheDrop,
) -> (verified: bool)
    requires
        stripe::devices_answer(env.size, env.read),
        position(*cfg, *cand) <= u64::MAX,
        engine::verifies_blocks(cand.verify, cand.block_size as nat),
        call_requires(env.drop_cache, (&cand.failing_dev,)),
        call_ensures(env.drop_cache, (&cand.failing_dev,), dropped),
    ensures
        verified ==> read_back_verified::<E, V, S, R, D>(
            *cfg,
            *cand,
            env.size,
            env.read,
            env.drop_cache,
        ),
        !verified ==> read_back_failed::<E, V, S, R, D>(
            *cfg,
            *cand,
            env.size,
            env.read,
            env.drop_cache,
        ),
{
    let drop_cache = &env.drop_cache;
    match dropped {
        CacheDrop::Failed { is_block_device: true } => {
            let _again = drop_cache(&cand.failing_dev);
            return false;
        },
        _ => {},
    }
    assert(cache_settled(*cand, env.drop_cache));
    // Only a re-read that verifies counts as recovered.
    let reread = stripe::read_block_or_zeros(
        cfg,
        &cand.failing_dev,
        cand.array_phys,
        cand.block_size,
        &env.size,
        &env.read,
    );
    let verified = match reread {
        Ok(b) => {
            assert(own_read::<E, V, S, R>(*cfg, *cand, env.size, env.read, Ok(b)));
            let verify = &cand.verify;
            verify(b.as_slice())
        },
        Err(e) => {
            assert(own_read::<E, V, S, R>(*cfg, *cand, env.size, env.read, Err(e)));
            false
        },
    };
    let _again = drop_cache(&cand.failing_dev);
    verified
}

/// Writes a recovered block to the failing disk, drops the device's cache and
/// reads the block back.
fn write_and_read_back<
    E,
    V: Fn(&[u8]) -> bool,
    C: Fn(&ReconfirmRequest) -> Reconfirm,
    S: Fn(&String) -> Result<u64, E>,
    R: Fn(&String, u64, usize) -> Result<Vec<u8>, E>,
    W: Fn(&String, u64, &[u8]) -> Result<(), E>,
    D: Fn(&String) -> CacheDrop,
>(
    cfg: &ArrayConfig,
    scrub_slot: u64,
    env: &Env<C, S, R, W, D>,
    cand: &Candidate<V>,
    block: &[u8],
) -> (r: Written)
    requires
        stripe::devices_answer(env.size, env.read),
        candidate_ready::<E, V, C, S, R, W, D>(*cfg, scrub_slot, true, *env, *cand),
        rebuilt::<E, V, C, S, R>(
            *cfg,
            scrub_slot,
            *cand,
            env.reconfirm,
            env.size,
            env.read,
            block@,
        ),
    ensures
        match r {
            Written::Verified => {
                &&& write_gives::<E, V, W>(*cfg, *cand, env.write, block@, Ok(()))
                &&& read_back_verified::<E, V, S, R, D>(
                    *cfg,
                    *cand,
                    env.size,
                    env.read,
                    env.drop_cache,
                )
            },
            Written::Untrusted => {
                &&& write_gives::<E, V, W>(*cfg, *cand, env.write, block@, Ok(()))
                &&& read_back_failed::<E, V, S, R, D>(
                    *cfg,
                    *cand,
                    env.size,
                    env.read,
                    env.drop_cache,
                )
            },
            Written::NotWritten => exists|e: E| #[trigger]
                write_gives::<E, V, W>(*cfg, *cand, env.write, block@, Err(e)),
        },
{
    proof {
        reveal(candidate_ready);
    }
    match stripe::write_block(cfg, &cand.failing_dev, cand.array_phys, block, &env.write) {
        Err(e) => {
            let ghost failure = e;
            assert(write_gives::<E, V, W>(*cfg, *cand, env.write, block@, Err(failure)));
            return Written::NotWritten;
        },
        Ok(done) => {
            assert(done == ());
            assert(write_gives::<E, V, W>(*cfg, *cand, env.write, block@, Ok(())));
        },
    }
    let drop_cache = &env.drop_cache;
    let dropped = drop_cache(&cand.failing_dev);
    if read_back(cfg, env, cand, dropped) {
        Written::Verified
    } else {
        Written::Untrusted
    }
}

/// A report without a parity path.
fn plain_report(raw_phys: u64, outcome: Outcome) -> (r: Report)
    ensures
        r == (Report { raw_phys, outcome, via: None, reason: None, written: false }),
{
    Report { raw_phys, outcome, via: None, reason: None, written: false }
}

/// Deals with one candidate: re-confirm, read the failing disk, gather the
/// stripe, recover, write back, read-back verify. A live filesystem must be held
/// frozen for as long as this may write.
pub fn process_candidate<
    E,
    V: Fn(&[u8]) -> bool,
    C: Fn(&ReconfirmRequest) -> Reconfirm,
    S: Fn(&String) -> Result<u64, E>,
    R: Fn(&String, u64, usize) -> Result<Vec<u8>, E>,
    W: Fn(&String, u64, &[u8]) -> Result<(), E>,
    D: Fn(&String) -> CacheDrop,
>(
    cfg: &ArrayConfig,
    scrub_slot: u64,
    dry_run: bool,
    freeze: &FreezeController<E>,
    writes_allowed: bool,
    env: &Env<C, S, R, W, D>,
    cand: &Candidate<V>,
) -> (r: Report)
    requires
        // A live filesystem is written only while it is frozen.
        !dry_run && writes_allowed && freeze.mountpoint is Some ==> freeze.frozen,
        stripe::devices_answer(env.size, env.read),
        candidate_ready::<E, V, C, S, R, W, D>(
            *cfg,
            scrub_slot,
            !dry_run && writes_allowed,
            *env,
            *cand,
        ),
        candidate_recovers::<E, V, S, R>(*cfg, scrub_slot, *cand, env.size, env.read),
    ensures
        candidate_outcome::<E, V, C, S, R, W, D>(
            *cfg,
            scrub_slot,
            dry_run,
            writes_allowed,
            *env,
            *cand,
            r,
        ),
{
    proof {
        reveal(candidate_ready);
    }
    // The sector may have been rewritten or freed since the scan.
    if let Some(req) = &cand.reconfirm {
        let reconfirm = &env.reconfirm;
        match reconfirm(req) {
            Reconfirm::Stale => {
                return plain_report(cand.raw_phys, Outcome::Stale);
            },
            Reconfirm::Unverifiable => {
                return plain_report(cand.raw_phys, Outcome::Skipped);
            },
            Reconfirm::Corruption => {},
        }
    }
    assert(confirmed(*cand, env.reconfirm));

    // A block that verifies now was rewritten since the scan; one that cannot
    // be read any more takes the unreadable path.
    let mut unreadable = cand.unreadable;
    let mut corrupt_block: Vec<u8> = vec![0u8; cand.block_size];
    assert(corrupt_block@ =~= stripe::zeros(cand.block_size as nat));
    if !unreadable {
        match stripe::read_block_or_zeros(
            cfg,
            &cand.failing_dev,
            cand.array_phys,
            cand.block_size,
            &env.size,
            &env.read,
        ) {
            Ok(block) => {
                assert(own_read::<E, V, S, R>(*cfg, *cand, env.size, env.read, Ok(block)));
                let verify = &cand.verify;
                if verify(block.as_slice()) {
                    return plain_report(cand.raw_phys, Outcome::Stale);
                }
                corrupt_block = block;
            },
            Err(e) => {
                assert(own_read::<E, V, S, R>(*cfg, *cand, env.size, env.read, Err(e)));
                unreadable = true;
            },
        }
    }
    assert(starting_block::<E, V, S, R>(
        *cfg,
        *cand,
        env.size,
        env.read,
        corrupt_block@,
        unreadable,
    ));
    assert(bad_now::<E, V, S, R>(*cfg, *cand, env.size, env.read));

    let chunks = match stripe::gather_stripe(
        cfg,
        scrub_slot,
        cand.array_phys,
        cand.block_size,
        &env.size,
        &env.read,
    ) {
        Ok(c) => c,
        Err(e) => {
            let ghost failure = e;
            assert(stripe::gather_error::<E, S, R>(
                *cfg,
                scrub_slot,
                cand.array_phys,
                cand.block_size,
                env.size,
                env.read,
                failure,
            ));
            return plain_report(cand.raw_phys, Outcome::Failed);
        },
    };
    let input: RecoveryInput<V> = RecoveryInput {
        failing_slot: scrub_slot,
        corrupt_block: corrupt_block.as_slice(),
        unreadable_source: unreadable,
        other_blocks: chunks.other_data.as_slice(),
        p_block: match &chunks.p_block {
            Some(p) => Some(p.as_slice()),
            None => None,
        },
        q_block: match &chunks.q_block {
            Some(q) => Some(q.as_slice()),
            None => None,
        },
        verifier: &cand.verify,
    };
    proof {
        reveal(candidate_recovers);
        assert(handed_on::<E, V, S, R>(
            *cfg,
            scrub_slot,
            *cand,
            env.size,
            env.read,
            chunks,
            input,
        ));
    }
    let result = engine::recover_block(&input, cand.block_size);
    assert(attempted::<E, V, S, R>(
        *cfg,
        scrub_slot,
        *cand,
        env.size,
        env.read,
        chunks,
        input,
        result,
    ));
    assert(attempt_gives::<E, V, S, R>(
        *cfg,
        scrub_slot,
        *cand,
        env.size,
        env.read,
        result,
    ));
    match result {
        RecoveryResult::Recovered { via, block } => {
            let ghost made = RecoveryResult::Recovered { via, block };
            assert(attempt_gives::<E, V, S, R>(
                *cfg,
                scrub_slot,
                *cand,
                env.size,
                env.read,
                made,
            ));
            // Dry-run or assess-only: report the would-be write, never issue it.
            if dry_run || !writes_allowed {
                let outcome = if writes_allowed {
                    Outcome::Recovered
                } else {
                    Outcome::NotFrozen
                };
                return Report {
                    raw_phys: cand.raw_phys,
                    outcome,
                    via: Some(via),
                    reason: None,
                    written: false,
                };
            }
            proof {
                lemma_recovered_len(input, cand.block_size as nat, via, block);
            }
            assert(rebuilt::<E, V, C, S, R>(
                *cfg,
                scrub_slot,
                *cand,
                env.reconfirm,
                env.size,
                env.read,
                block@,
            ));
            match write_and_read_back(cfg, scrub_slot, env, cand, block.as_slice()) {
                Written::NotWritten => Report {
                    raw_phys: cand.raw_phys,
                    outcome: Outcome::Failed,
                    via: Some(via),
                    reason: None,
                    written: false,
                },
                Written::Verified => Report {
                    raw_phys: cand.raw_phys,
                    outcome: Outcome::Recovered,
                    via: Some(via),
                    reason: None,
                    written: true,
                },
                Written::Untrusted => Report {
                    raw_phys: cand.raw_phys,
                    outcome: Outcome::ReadbackFailed,
                    via: Some(via),
                    reason: None,
                    written: true,
                },
            }
        },
        RecoveryResult::NotCorrupt => plain_report(cand.raw_phys, Outcome::NotCorrupt),
        RecoveryResult::Failed { reason } => {
            Report {
                raw_phys: cand.raw_phys,
                outcome: Outcome::Failed,
                via: None,
                reason: Some(reason),
                written: false,
            }
        },
    }
}

/// On an array that has every coefficient any candidate can be recovered.
pub proof fn law_able_array_recovers<
    E,
    V: Fn(&[u8]) -> bool,
    S: Fn(&String) -> Result<u64, E>,
    R: Fn(&String, u64, usize) -> Result<Vec<u8>, E>,
>(cfg: ArrayConfig, slot: u64, cand: Candidate<V>, size: S, read: R)
    requires
        array_recovers(cfg, slot),
    ensures
        candidate_recovers::<E, V, S, R>(cfg, slot, cand, size, read),
{
    reveal(candidate_recovers);
    assert forall|chunks: StripeChunks, input: RecoveryInput<V>| #[trigger]
        handed_on::<E, V, S, R>(cfg, slot, cand, size, read, chunks, input) implies
        engine::coefficients_exist(input) by {
        assert forall|k: int| 0 <= k < input.other_blocks@.len() implies exists|d: int|
            {
                &&& 0 <= d < cfg.disks().len()
                &&& (#[trigger] cfg.disks()[d]).0 == (#[trigger] input.other_blocks@[k]).0
                &&& cfg.disks()[d].0 != slot
            } by {
            let s = input.other_blocks@[k].0;
            assert(stripe::has_block(chunks.other_data@, s));
            assert(config::has_slot(cfg.disks(), s));
        }
    }
}

/// A recovered block is as long as the blocks it is made of.
proof fn lemma_recovered_len<V: Fn(&[u8]) -> bool>(
    input: RecoveryInput<V>,
    n: nat,
    via: ParityPath,
    block: Vec<u8>,
)
    requires
        engine::input_ok(input, n),
        engine::recovery_outcome(input, RecoveryResult::Recovered { via, block }),
    ensures
        block@.len() == n,
        engine::accepts(*input.verifier, block@),
{
}

/// Nothing is written in a dry run or while writing is not allowed, and what is
/// written is the block that recovery gave for a confirmed sector whose block is
/// bad. It passes the candidate's verifier.
pub proof fn law_only_verified_blocks_are_written<
    E,
    V: Fn(&[u8]) -> bool,
    C: Fn(&ReconfirmRequest) -> Reconfirm,
    S: Fn(&String) -> Result<u64, E>,
    R: Fn(&String, u64, usize) -> Result<Vec<u8>, E>,
    W: Fn(&String, u64, &[u8]) -> Result<(), E>,
    D: Fn(&String) -> CacheDrop,
>(
    cfg: ArrayConfig,
    slot: u64,
    dry_run: bool,
    writes_allowed: bool,
    env: Env<C, S, R, W, D>,
    cand: Candidate<V>,
    r: Report,
)
    requires
        candidate_outcome::<E, V, C, S, R, W, D>(
            cfg,
            slot,
            dry_run,
            writes_allowed,
            env,
            cand,
            r,
        ),
        r.written,
    ensures
        !dry_run,
        writes_allowed,
        exists|block: Seq<u8>|
            {
                &&& #[trigger] write_gives::<E, V, W>(cfg, cand, env.write, block, Ok(()))
                &&& rebuilt::<E, V, C, S, R>(
                    cfg,
                    slot,
                    cand,
                    env.reconfirm,
                    env.size,
                    env.read,
                    block,
                )
            },
{
    let via = r.via.unwrap();
    let block = choose|block: Vec<u8>| #[trigger]
        attempt_gives::<E, V, S, R>(
            cfg,
            slot,
            cand,
            env.size,
            env.read,
            RecoveryResult::Recovered { via, block },
        ) && write_gives::<E, V, W>(cfg, cand, env.write, block@, Ok(()));
    let result = RecoveryResult::Recovered { via, block };
    let (chunks, input) = choose|chunks: StripeChunks, input: RecoveryInput<V>| #[trigger]
        attempted::<E, V, S, R>(cfg, slot, cand, env.size, env.read, chunks, input, result);
    assert(engine::accepts(*input.verifier, block@));
}

// ---------------------------------------------------------------------------
// One batch
// ---------------------------------------------------------------------------

/// What a batch asks of the world outside, besides its candidates' needs.
pub struct Gate<F, T, K, N> {
    /// Freezes the filesystem at a mountpoint.
    pub freeze: F,
    /// Thaws the filesystem at a mountpoint.
    pub thaw: T,
    /// The freeze window is over.
    pub timed_out: K,
    /// Told of every candidate as it is dealt with.
    pub note: N,
}

/// What a batch came to.
#[derive(Debug)]
pub struct Flushed<V> {
    /// The candidates that were dealt with, in order of array offset.
    pub processed: Vec<Candidate<V>>,
    /// One report for each of them.
    pub reports: Vec<Report>,
    /// The candidates put off to the next flush.
    pub deferred: Vec<Candidate<V>>,
    /// The filesystem was frozen, or is not mounted.
    pub writes_allowed: bool,
}

/// Writes are issued only under an active freeze, or when there is no live mount
/// at all (an offline image).
pub open spec fn writes_possible<E, F: Fn(&String) -> Result<(), E>>(
    mountpoint: Option<String>,
    freeze: F,
) -> bool {
    mountpoint matches Some(m) ==> call_ensures(freeze, (&m,), Ok::<(), E>(()))
}

/// The filesystem could not be frozen.
pub open spec fn freeze_refused<E, F: Fn(&String) -> Result<(), E>>(
    mountpoint: Option<String>,
    freeze: F,
) -> bool {
    mountpoint matches Some(m) && exists|e: E| #[trigger]
        call_ensures(freeze, (&m,), Err::<(), E>(e))
}

/// All that the batch's candidates may need can be asked for.
pub open spec fn batch_ready<
    E,
    V: Fn(&[u8]) -> bool,
    C: Fn(&ReconfirmRequest) -> Reconfirm,
    S: Fn(&String) -> Result<u64, E>,
    R: Fn(&String, u64, usize) -> Result<Vec<u8>, E>,
    W: Fn(&String, u64, &[u8]) -> Result<(), E>,
    D: Fn(&String) -> CacheDrop,
    F: Fn(&String) -> Result<(), E>,
    T: Fn(&String) -> Result<(), E>,
    K: Fn() -> bool,
    N: Fn(&Report),
>(
    cfg: ArrayConfig,
    slot: u64,
    dry_run: bool,
    mountpoint: Option<String>,
    env: Env<C, S, R, W, D>,
    gate: Gate<F, T, K, N>,
    batch: Seq<Candidate<V>>,
) -> bool {
    &&& stripe::devices_answer(env.size, env.read)
    &&& mountpoint matches Some(m) ==> call_requires(gate.freeze, (&m,)) && call_requires(
        gate.thaw,
        (&m,),
    )
    &&& call_requires(gate.timed_out, ())
    &&& forall|r: &Report| #[trigger] call_requires(gate.note, (r,))
    &&& forall|i: int|
        0 <= i < batch.len() ==> candidate_ready::<E, V, C, S, R, W, D>(
            cfg,
            slot,
            !dry_run && writes_possible::<E, F>(mountpoint, gate.freeze),
            env,
            #[trigger] batch[i],
        )
    &&& forall|i: int|
        0 <= i < batch.len() ==> candidate_recovers::<E, V, S, R>(
            cfg,
            slot,
            #[trigger] batch[i],
            env.size,
            env.read,
        )
}

/// Each candidate was dealt with for itself, and what is left was put off
/// because the freeze window was over.
pub open spec fn dealt_with<
    E,
    V: Fn(&[u8]) -> bool,
    C: Fn(&ReconfirmRequest) -> Reconfirm,
    S: Fn(&String) -> Result<u64, E>,
    R: Fn(&String, u64, usize) -> Result<Vec<u8>, E>,
    W: Fn(&String, u64, &[u8]) -> Result<(), E>,
    D: Fn(&String) -> CacheDrop,
    F: Fn(&String) -> Result<(), E>,
    T: Fn(&String) -> Result<(), E>,
    K: Fn() -> bool,
    N: Fn(&Report),
>(
    cfg: ArrayConfig,
    slot: u64,
    dry_run: bool,
    env: Env<C, S, R, W, D>,
    gate: Gate<F, T, K, N>,
    done: Flushed<V>,
) -> bool {
    &&& done.reports@.len() == done.processed@.len()
    &&& done.deferred@.len() > 0 ==> {
        &&& done.processed@.len() > 0
        &&& done.writes_allowed
        &&& call_ensures(gate.timed_out, (), true)
    }
    &&& forall|i: int|
        0 <= i < done.reports@.len() ==> candidate_outcome::<E, V, C, S, R, W, D>(
            cfg,
            slot,
            dry_run,
            done.writes_allowed,
            env,
            done.processed@[i],
            #[trigger] done.reports@[i],
        )
    // Every report was told.
    &&& forall|i: int|
        0 <= i < done.reports@.len() ==> call_ensures(
            gate.note,
            (&#[trigger] done.reports@[i],),
            (),
        )
}

/// The freeze of a batch is over: where the filesystem was frozen for it, it was
/// thawed; where that was refused, nothing changed.
pub open spec fn released<E, T: Fn(&String) -> Result<(), E>>(
    before: FreezeController<E>,
    after: FreezeController<E>,
    thaw: T,
    writes_allowed: bool,
) -> bool {
    if writes_allowed {
        &&& !after.frozen
        &&& before.mountpoint matches Some(m) ==> call_ensures(thaw, (&m,), Ok::<(), E>(()))
    } else {
        after.frozen == before.frozen
    }
}

/// `e` is why a thaw was not done: one recorded before, or what the thaw gave,
/// with the filesystem still frozen.
pub open spec fn thaw_failed<E, T: Fn(&String) -> Result<(), E>>(
    before: FreezeController<E>,
    after: FreezeController<E>,
    thaw: T,
    e: E,
) -> bool {
    ||| before.last_thaw_error == Some(e)
    ||| before.mountpoint matches Some(m) && call_ensures(thaw, (&m,), Err::<(), E>(e))
        && after.frozen
}

/// The pause is always given back: a filesystem that is frozen afterwards and was
/// not before is one whose thaw was refused.
pub open spec fn given_back<E, T: Fn(&String) -> Result<(), E>>(
    before: FreezeController<E>,
    after: FreezeController<E>,
    thaw: T,
) -> bool {
    after.frozen && !before.frozen ==> (before.mountpoint matches Some(m) && exists|e: E| #[trigger]
        call_ensures(thaw, (&m,), Err::<(), E>(e)))
}

/// `done` is what a batch came to: the batch was arranged, writes were allowed
/// just where the filesystem was frozen or is not mounted, and the counters tell
/// of every repeat and every report.
pub open spec fn flushes<
    E,
    V: Fn(&[u8]) -> bool,
    C: Fn(&ReconfirmRequest) -> Reconfirm,
    S: Fn(&String) -> Result<u64, E>,
    R: Fn(&String, u64, usize) -> Result<Vec<u8>, E>,
    W: Fn(&String, u64, &[u8]) -> Result<(), E>,
    D: Fn(&String) -> CacheDrop,
    F: Fn(&String) -> Result<(), E>,
    T: Fn(&String) -> Result<(), E>,
    K: Fn() -> bool,
    N: Fn(&Report),
>(
    cfg: ArrayConfig,
    slot: u64,
    dry_run: bool,
    mountpoint: Option<String>,
    env: Env<C, S, R, W, D>,
    gate: Gate<F, T, K, N>,
    batch: Seq<Candidate<V>>,
    done: Flushed<V>,
    before: BatchStats,
    after: BatchStats,
) -> bool {
    &&& arranges(batch, done.processed@ + done.deferred@)
    &&& dealt_with::<E, V, C, S, R, W, D, F, T, K, N>(cfg, slot, dry_run, env, gate, done)
    &&& done.writes_allowed ==> writes_possible::<E, F>(mountpoint, gate.freeze)
    &&& !done.writes_allowed ==> freeze_refused::<E, F>(mountpoint, gate.freeze)
    &&& after == (BatchStats {
        deduped: (before.deduped + batch.len() - done.processed@.len()
            - done.deferred@.len()) as u64,
        ..before
    }).after(done.reports@)
}

/// A batch was flushed, and the counters tell of it.
pub open spec fn batch_counted<
    E,
    V: Fn(&[u8]) -> bool,
    C: Fn(&ReconfirmRequest) -> Reconfirm,
    S: Fn(&String) -> Result<u64, E>,
    R: Fn(&String, u64, usize) -> Result<Vec<u8>, E>,
    W: Fn(&String, u64, &[u8]) -> Result<(), E>,
    D: Fn(&String) -> CacheDrop,
    F: Fn(&String) -> Result<(), E>,
    T: Fn(&String) -> Result<(), E>,
    K: Fn() -> bool,
    N: Fn(&Report),
>(
    cfg: ArrayConfig,
    slot: u64,
    dry_run: bool,
    mountpoint: Option<String>,
    env: Env<C, S, R, W, D>,
    gate: Gate<F, T, K, N>,
    batch: Seq<Candidate<V>>,
    before: BatchStats,
    after: BatchStats,
) -> bool {
    exists|done: Flushed<V>| #[trigger]
        flushes::<E, V, C, S, R, W, D, F, T, K, N>(
            cfg,
            slot,
            dry_run,
            mountpoint,
            env,
            gate,
            batch,
            done,
            before,
            after,
        )
}

/// Processes one batch: sort and dedup by array offset, freeze the filesystem,
/// deal with each candidate, thaw. One freeze covers the whole batch; a failed
/// one makes the batch assess-only. Once the freeze window is over the rest of
/// the batch is put off. Fails if the thaw failed: the filesystem may still be
/// frozen.
pub fn flush_batch<
    E,
    V: Fn(&[u8]) -> bool,
    C: Fn(&ReconfirmRequest) -> Reconfirm,
    S: Fn(&String) -> Result<u64, E>,
    R: Fn(&String, u64, usize) -> Result<Vec<u8>, E>,
    W: Fn(&String, u64, &[u8]) -> Result<(), E>,
    D: Fn(&String) -> CacheDrop,
    F: Fn(&String) -> Result<(), E>,
    T: Fn(&String) -> Result<(), E>,
    K: Fn() -> bool,
    N: Fn(&Report),
>(
    batch: Vec<Candidate<V>>,
    cfg: &ArrayConfig,
    freeze: &mut FreezeController<E>,
    scrub_slot: u64,
    dry_run: bool,
    env: &Env<C, S, R, W, D>,
    gate: &Gate<F, T, K, N>,
    stats: &mut BatchStats,
) -> (r: Result<Flushed<V>, E>)
    requires
        old(freeze).wf(),
        batch_ready::<E, V, C, S, R, W, D, F, T, K, N>(
            *cfg,
            scrub_slot,
            dry_run,
            old(freeze).mountpoint,
            *env,
            *gate,
            batch@,
        ),
        old(stats).wf(),
        old(stats).total() + batch@.len() <= u64::MAX,
    ensures
        final(freeze).wf(),
        final(freeze).mountpoint == old(freeze).mountpoint,
        given_back(*old(freeze), *final(freeze), gate.thaw),
        final(freeze).last_thaw_error is None,
        final(stats).wf(),
        match r {
            Ok(done) => {
                // Every candidate is dealt with, dropped as a repeat, or put off.
                &&& final(stats).total() + done.deferred@.len() == old(stats).total() + batch@.len()
                &&& batch@.len() > 0 ==> done.deferred@.len() < batch@.len()
                &&& old(freeze).last_thaw_error is None
                &&& released(*old(freeze), *final(freeze), gate.thaw, done.writes_allowed)
                &&& !old(freeze).frozen ==> !final(freeze).frozen
                &&& flushes::<E, V, C, S, R, W, D, F, T, K, N>(
                    *cfg,
                    scrub_slot,
                    dry_run,
                    old(freeze).mountpoint,
                    *env,
                    *gate,
                    batch@,
                    done,
                    *old(stats),
                    *final(stats),
                )
            },
            // What was dealt with before the thaw failed is counted all the same.
            Err(e) => {
                &&& thaw_failed(*old(freeze), *final(freeze), gate.thaw, e)
                &&& batch_counted::<E, V, C, S, R, W, D, F, T, K, N>(
                    *cfg,
                    scrub_slot,
                    dry_run,
                    old(freeze).mountpoint,
                    *env,
                    *gate,
                    batch@,
                    *old(stats),
                    *final(stats),
                )
            },
        },
{
    let ghost all = batch@;
    let ghost mount = freeze.mountpoint;
    let (sorted, dropped) = arrange(batch);
    let mut sorted = sorted;
    let ghost arranged = sorted@;
    stats.deduped = stats.deduped + dropped;
    let ghost base = *stats;

    let has_live_mount = freeze.has_live_mount();
    let guard = match freeze.guard(&gate.freeze) {
        Ok(g) => g,
        Err(e) => {
            let ghost failure = e;
            assert(mount matches Some(m) && call_ensures(
                gate.freeze,
                (&m,),
                Err::<(), E>(failure),
            ));
            None
        },
    };
    let writes_allowed = guard.is_some() || !has_live_mount;
    assert(writes_allowed ==> writes_possible::<E, F>(mount, gate.freeze));
    assert(!writes_allowed ==> freeze_refused::<E, F>(mount, gate.freeze));

    let ghost held = *freeze;
    let n: usize = sorted.len();
    let mut reports: Vec<Report> = Vec::new();
    let mut i: usize = 0;
    let mut over = false;
    while i < n && !over
        invariant
            i <= n,
            n == sorted@.len(),
            sorted@ == arranged,
            arranges(all, arranged),
            reports@.len() == i,
            batch_ready::<E, V, C, S, R, W, D, F, T, K, N>(
                *cfg,
                scrub_slot,
                dry_run,
                mount,
                *env,
                *gate,
                all,
            ),
            writes_allowed ==> writes_possible::<E, F>(mount, gate.freeze),
            freeze.mountpoint == mount,
            writes_allowed && mount is Some ==> freeze.frozen,
            *freeze == held,
            forall|j: int|
                0 <= j < i ==> call_ensures(gate.note, (&#[trigger] reports@[j],), ()),
            over ==> 0 < i < n && writes_allowed && call_ensures(gate.timed_out, (), true),
            stats.wf(),
            stats.total() == base.total() + i,
            base.total() + n <= u64::MAX,
            *stats == base.after(reports@),
            forall|j: int|
                0 <= j < i ==> candidate_outcome::<E, V, C, S, R, W, D>(
                    *cfg,
                    scrub_slot,
                    dry_run,
                    writes_allowed,
                    *env,
                    arranged[j],
                    #[trigger] reports@[j],
                ),
        decreases n - i, (if over { 0int } else { 1 }),
    {
        // Bound the freeze window: once exceeded, the rest waits for the next
        // flush.
        if i > 0 && writes_allowed {
            let timed_out = &gate.timed_out;
            over = timed_out();
        }
        if !over {
            proof {
                reveal(candidate_ready);
                assert(reported_first(all, arranged[i as int]));
                let at = choose|at: int|
                    0 <= at < all.len() && #[trigger] all[at] == arranged[i as int] && first_report(
                        all,
                        at,
                    );
                assert(candidate_ready::<E, V, C, S, R, W, D>(
                    *cfg,
                    scrub_slot,
                    !dry_run && writes_possible::<E, F>(mount, gate.freeze),
                    *env,
                    all[at],
                ));
            }
            let report = process_candidate(
                cfg,
                scrub_slot,
                dry_run,
                &*freeze,
                writes_allowed,
                env,
                &sorted[i],
            );
            stats.count(report.outcome);
            let note = &gate.note;
            let told = note(&report);
            assert(told == ());
            let ghost before = reports@;
            reports.push(report);
            assert(reports@.drop_last() =~= before);
            i = i + 1;
        }
    }
    let deferred = sorted.split_off(i);
    proof {
        if all.len() > 0 {
            assert(has_offset(all, all[0].array_phys));
            assert(has_offset(arranged, all[0].array_phys));
        }
    }

    // A failed thaw means the filesystem may still be frozen: the run must stop.
    if let Some(g) = guard {
        freeze.release(g, &gate.thaw);
    }
    assert(sorted@ + deferred@ =~= arranged);
    let done = Flushed { processed: sorted, reports, deferred, writes_allowed };
    assert(flushes::<E, V, C, S, R, W, D, F, T, K, N>(
        *cfg,
        scrub_slot,
        dry_run,
        mount,
        *env,
        *gate,
        all,
        done,
        *old(stats),
        *stats,
    ));
    if let Some(e) = freeze.take_thaw_error() {
        return Err(e);
    }
    Ok(done)
}

/// A batch that could not be frozen, or a dry run, writes nothing.
pub proof fn law_unfrozen_batch_writes_nothing<
    E,
    V: Fn(&[u8]) -> bool,
    C: Fn(&ReconfirmRequest) -> Reconfirm,
    S: Fn(&String) -> Result<u64, E>,
    R: Fn(&String, u64, usize) -> Result<Vec<u8>, E>,
    W: Fn(&String, u64, &[u8]) -> Result<(), E>,
    D: Fn(&String) -> CacheDrop,
    F: Fn(&String) -> Result<(), E>,
    T: Fn(&String) -> Result<(), E>,
    K: Fn() -> bool,
    N: Fn(&Report),
>(
    cfg: ArrayConfig,
    slot: u64,
    dry_run: bool,
    mountpoint: Option<String>,
    env: Env<C, S, R, W, D>,
    gate: Gate<F, T, K, N>,
    batch: Seq<Candidate<V>>,
    done: Flushed<V>,
    before: BatchStats,
    after: BatchStats,
)
    requires
        flushes::<E, V, C, S, R, W, D, F, T, K, N>(
            cfg,
            slot,
            dry_run,
            mountpoint,
            env,
            gate,
            batch,
            done,
            before,
            after,
        ),
        dry_run || !writes_possible::<E, F>(mountpoint, gate.freeze),
    ensures
        forall|i: int| 0 <= i < done.reports@.len() ==> !(#[trigger] done.reports@[i]).written,
{
    assert forall|i: int| 0 <= i < done.reports@.len() implies !(
    #[trigger] done.reports@[i]).written by {
        if done.reports@[i].written {
            law_only_verified_blocks_are_written::<E, V, C, S, R, W, D>(
                cfg,
                slot,
                dry_run,
                done.writes_allowed,
                env,
                done.processed@[i],
                done.reports@[i],
            );
        }
    }
}

// ---------------------------------------------------------------------------
// Pipeline: the accumulator collects batches, the writer flushes them
// ---------------------------------------------------------------------------

/// Messages from the scrub to the accumulator.
#[derive(Debug)]
pub enum Msg<V> {
    /// One mismatched sector.
    Candidate(Candidate<V>),
    /// The scrub finished; flush everything queued.
    Done,
}

/// Messages from the accumulator to the writer.
#[derive(Debug)]
pub enum BatchMsg<V> {
    /// A full batch of candidates.
    Batch(Vec<Candidate<V>>),
    /// No more batches will arrive; drain the pending remainder.
    Done,
}

/// What the accumulator hears.
#[derive(Debug)]
pub enum Heard<V> {
    Message(Msg<V>),
    /// Nothing came within the idle limit.
    TimedOut,
    /// The scrub is gone.
    Disconnected,
}

/// What the accumulator does next.
#[derive(Debug)]
pub enum Act<V> {
    /// Wait for a message without limit.
    Wait,
    /// Wait for a message up to the idle limit.
    WaitIdle,
    /// Hand the batch to the writer, then wait without limit.
    Send(Vec<Candidate<V>>),
    /// Hand what is left, if anything, to the writer, tell it that nothing more
    /// will come, and stop.
    Finish(Vec<Candidate<V>>),
}

/// Collects candidates into batches of up to `batch_max`, flushed early when the
/// scrub falls silent.
#[derive(Debug)]
pub struct Accumulator<V> {
    pub batch: Vec<Candidate<V>>,
    pub batch_max: usize,
}

/// What is held once `h` was heard.
pub open spec fn held_next<V>(batch_max: nat, held: Seq<Candidate<V>>, h: Heard<V>) -> Seq<
    Candidate<V>,
> {
    match h {
        Heard::Message(Msg::Candidate(c)) => if held.len() + 1 < batch_max {
            held.push(c)
        } else {
            Seq::empty()
        },
        _ => Seq::empty(),
    }
}

/// What is sent when `h` was heard.
pub open spec fn sent_next<V>(batch_max: nat, held: Seq<Candidate<V>>, h: Heard<V>) -> Seq<
    Candidate<V>,
> {
    match h {
        Heard::Message(Msg::Candidate(c)) => if held.len() + 1 < batch_max {
            Seq::empty()
        } else {
            held.push(c)
        },
        _ => held,
    }
}

/// The candidate that arrives with `h`.
pub open spec fn arrival<V>(h: Heard<V>) -> Seq<Candidate<V>> {
    match h {
        Heard::Message(Msg::Candidate(c)) => seq![c],
        _ => Seq::empty(),
    }
}

impl<V> Accumulator<V> {
    pub fn new(batch_max: usize) -> (r: Self)
        ensures
            r.batch@.len() == 0,
            r.batch_max == batch_max,
    {
        Accumulator { batch: Vec::new(), batch_max }
    }

    /// Takes in what was heard and says what to do.
    pub fn hear(&mut self, h: Heard<V>) -> (r: Act<V>)
        ensures
            final(self).batch_max == old(self).batch_max,
            final(self).batch@ == held_next(old(self).batch_max as nat, old(self).batch@, h),
            ({
                let out = sent_next(old(self).batch_max as nat, old(self).batch@, h);
                match h {
                    Heard::Message(Msg::Candidate(_)) => if out.len() > 0 {
                        r matches Act::Send(b) && b@ == out
                    } else {
                        r is WaitIdle
                    },
                    Heard::TimedOut => if out.len() > 0 {
                        r matches Act::Send(b) && b@ == out
                    } else {
                        r is Wait
                    },
                    _ => r matches Act::Finish(b) && b@ == out,
                }
            }),
    {
        match h {
            Heard::Message(Msg::Candidate(c)) => {
                self.batch.push(c);
                if self.batch.len() < self.batch_max {
                    Act::WaitIdle
                } else {
                    Act::Send(self.take())
                }
            },
            Heard::TimedOut => {
                if self.batch.len() > 0 {
                    Act::Send(self.take())
                } else {
                    Act::Wait
                }
            },
            Heard::Message(Msg::Done) => Act::Finish(self.take()),
            Heard::Disconnected => Act::Finish(self.take()),
        }
    }

    /// Takes out what is held.
    fn take(&mut self) -> (r: Vec<Candidate<V>>)
        ensures
            r@ == old(self).batch@,
            final(self).batch@.len() == 0,
            final(self).batch_max == old(self).batch_max,
    {
        self.batch.split_off(0)
    }
}

/// What is held after all of these.
pub open spec fn held_after<V>(batch_max: nat, events: Seq<Heard<V>>) -> Seq<Candidate<V>>
    decreases events.len(),
{
    if events.len() == 0 {
        Seq::empty()
    } else {
        held_next(batch_max, held_after(batch_max, events.drop_last()), events.last())
    }
}

/// What was sent by the end of all of these, batch after batch.
pub open spec fn sent_after<V>(batch_max: nat, events: Seq<Heard<V>>) -> Seq<Candidate<V>>
    decreases events.len(),
{
    if events.len() == 0 {
        Seq::empty()
    } else {
        sent_after(batch_max, events.drop_last()) + sent_next(
            batch_max,
            held_after(batch_max, events.drop_last()),
            events.last(),
        )
    }
}

/// The candidates that arrived.
pub open spec fn arrivals<V>(events: Seq<Heard<V>>) -> Seq<Candidate<V>>
    decreases events.len(),
{
    if events.len() == 0 {
        Seq::empty()
    } else {
        arrivals(events.drop_last()) + arrival(events.last())
    }
}

/// No candidate is lost, repeated or moved: what was sent, followed by what is
/// still held, is what arrived. What is held stays below the batch size.
pub proof fn law_accumulator_keeps_every_candidate<V>(batch_max: nat, events: Seq<Heard<V>>)
    ensures
        sent_after(batch_max, events) + held_after(batch_max, events) == arrivals(events),
        held_after(batch_max, events).len() == 0 || held_after(batch_max, events).len() < batch_max,
    decreases events.len(),
{
    if events.len() > 0 {
        let front = events.drop_last();
        law_accumulator_keeps_every_candidate(batch_max, front);
        let held = held_after(batch_max, front);
        assert(sent_after(batch_max, events) + held_after(batch_max, events) =~= sent_after(
            batch_max,
            front,
        ) + held + arrival(events.last()));
    } else {
        assert(sent_after(batch_max, events) + held_after(batch_max, events) =~= arrivals(events));
    }
}

/// Once the scrub is done nothing is held: every candidate was sent.
pub proof fn law_finish_sends_everything<V>(batch_max: nat, events: Seq<Heard<V>>)
    requires
        events.len() > 0,
        events.last() is Disconnected || events.last() == Heard::<V>::Message(Msg::Done),
    ensures
        sent_after(batch_max, events) == arrivals(events),
{
    law_accumulator_keeps_every_candidate(batch_max, events);
    assert(sent_after(batch_max, events) + held_after(batch_max, events) =~= sent_after(
        batch_max,
        events,
    ));
}

/// The writer's state: what waits for the next flush, and the counters.
#[derive(Debug)]
pub struct Writer<V> {
    pub pending: Vec<Candidate<V>>,
    pub stats: BatchStats,
}

impl<V> Writer<V> {
    /// The counters partition, and have room for what waits.
    pub open spec fn wf(&self) -> bool {
        &&& self.stats.wf()
        &&& self.stats.total() + self.pending@.len() <= u64::MAX
    }

    pub fn new() -> (r: Self)
        ensures
            r.wf(),
            r.pending@.len() == 0,
            r.stats == BatchStats::zero(),
    {
        Writer { pending: Vec::new(), stats: BatchStats::default() }
    }
}

/// What is put off, or arranged, is as ready as the batch it came from.
proof fn lemma_deferred_ready<
    E,
    V: Fn(&[u8]) -> bool,
    C: Fn(&ReconfirmRequest) -> Reconfirm,
    S: Fn(&String) -> Result<u64, E>,
    R: Fn(&String, u64, usize) -> Result<Vec<u8>, E>,
    W: Fn(&String, u64, &[u8]) -> Result<(), E>,
    D: Fn(&String) -> CacheDrop,
    F: Fn(&String) -> Result<(), E>,
    T: Fn(&String) -> Result<(), E>,
    K: Fn() -> bool,
    N: Fn(&Report),
>(
    cfg: ArrayConfig,
    slot: u64,
    dry_run: bool,
    mountpoint: Option<String>,
    env: Env<C, S, R, W, D>,
    gate: Gate<F, T, K, N>,
    batch: Seq<Candidate<V>>,
    done: Flushed<V>,
)
    requires
        batch_ready::<E, V, C, S, R, W, D, F, T, K, N>(
            cfg,
            slot,
            dry_run,
            mountpoint,
            env,
            gate,
            batch,
        ),
        arranges(batch, done.processed@ + done.deferred@),
    ensures
        batch_ready::<E, V, C, S, R, W, D, F, T, K, N>(
            cfg,
            slot,
            dry_run,
            mountpoint,
            env,
            gate,
            done.deferred@,
        ),
{
    let arranged = done.processed@ + done.deferred@;
    assert forall|i: int| 0 <= i < done.deferred@.len() implies candidate_ready::<
        E,
        V,
        C,
        S,
        R,
        W,
        D,
    >(
        cfg,
        slot,
        !dry_run && writes_possible::<E, F>(mountpoint, gate.freeze),
        env,
        #[trigger] done.deferred@[i],
    ) && candidate_recovers::<E, V, S, R>(
        cfg,
        slot,
        done.deferred@[i],
        env.size,
        env.read,
    ) by {
        let k = done.processed@.len() + i;
        assert(arranged[k] == done.deferred@[i]);
        assert(reported_first(batch, arranged[k]));
        let at = choose|at: int|
            0 <= at < batch.len() && #[trigger] batch[at] == arranged[k] && first_report(batch, at);
        assert(candidate_ready::<E, V, C, S, R, W, D>(
            cfg,
            slot,
            !dry_run && writes_possible::<E, F>(mountpoint, gate.freeze),
            env,
            batch[at],
        ));
    }
}

/// What is pending before round `k`: what the round before it put off.
pub open spec fn pending_at<V>(first: Seq<Candidate<V>>, rounds: Seq<Flushed<V>>, k: int) -> Seq<
    Candidate<V>,
> {
    if k <= 0 { first } else { rounds[k - 1].deferred@ }
}

/// Round `k` flushes what was pending before it.
pub open spec fn round_flushed<
    E,
    V: Fn(&[u8]) -> bool,
    C: Fn(&ReconfirmRequest) -> Reconfirm,
    S: Fn(&String) -> Result<u64, E>,
    R: Fn(&String, u64, usize) -> Result<Vec<u8>, E>,
    W: Fn(&String, u64, &[u8]) -> Result<(), E>,
    D: Fn(&String) -> CacheDrop,
    F: Fn(&String) -> Result<(), E>,
    T: Fn(&String) -> Result<(), E>,
    K: Fn() -> bool,
    N: Fn(&Report),
>(
    cfg: ArrayConfig,
    slot: u64,
    dry_run: bool,
    mountpoint: Option<String>,
    env: Env<C, S, R, W, D>,
    gate: Gate<F, T, K, N>,
    first: Seq<Candidate<V>>,
    rounds: Seq<Flushed<V>>,
    counts: Seq<BatchStats>,
    k: int,
) -> bool {
    flushes::<E, V, C, S, R, W, D, F, T, K, N>(
        cfg,
        slot,
        dry_run,
        mountpoint,
        env,
        gate,
        pending_at(first, rounds, k),
        rounds[k],
        counts[k],
        counts[k + 1],
    )
}

/// `rounds` are flushes one after the other, each of what the one before it put
/// off, and `counts` the counters before, between and after them.
pub open spec fn flush_rounds<
    E,
    V: Fn(&[u8]) -> bool,
    C: Fn(&ReconfirmRequest) -> Reconfirm,
    S: Fn(&String) -> Result<u64, E>,
    R: Fn(&String, u64, usize) -> Result<Vec<u8>, E>,
    W: Fn(&String, u64, &[u8]) -> Result<(), E>,
    D: Fn(&String) -> CacheDrop,
    F: Fn(&String) -> Result<(), E>,
    T: Fn(&String) -> Result<(), E>,
    K: Fn() -> bool,
    N: Fn(&Report),
>(
    cfg: ArrayConfig,
    slot: u64,
    dry_run: bool,
    mountpoint: Option<String>,
    env: Env<C, S, R, W, D>,
    gate: Gate<F, T, K, N>,
    first: Seq<Candidate<V>>,
    rounds: Seq<Flushed<V>>,
    counts: Seq<BatchStats>,
) -> bool {
    &&& counts.len() == rounds.len() + 1
    &&& forall|k: int|
        0 <= k < rounds.len() ==> #[trigger] round_flushed::<E, V, C, S, R, W, D, F, T, K, N>(
            cfg,
            slot,
            dry_run,
            mountpoint,
            env,
            gate,
            first,
            rounds,
            counts,
            k,
        )
}

/// One round more.
proof fn lemma_round_added<
    E,
    V: Fn(&[u8]) -> bool,
    C: Fn(&ReconfirmRequest) -> Reconfirm,
    S: Fn(&String) -> Result<u64, E>,
    R: Fn(&String, u64, usize) -> Result<Vec<u8>, E>,
    W: Fn(&String, u64, &[u8]) -> Result<(), E>,
    D: Fn(&String) -> CacheDrop,
    F: Fn(&String) -> Result<(), E>,
    T: Fn(&String) -> Result<(), E>,
    K: Fn() -> bool,
    N: Fn(&Report),
>(
    cfg: ArrayConfig,
    slot: u64,
    dry_run: bool,
    mountpoint: Option<String>,
    env: Env<C, S, R, W, D>,
    gate: Gate<F, T, K, N>,
    first: Seq<Candidate<V>>,
    rounds: Seq<Flushed<V>>,
    counts: Seq<BatchStats>,
    done: Flushed<V>,
    count: BatchStats,
)
    requires
        flush_rounds::<E, V, C, S, R, W, D, F, T, K, N>(
            cfg,
            slot,
            dry_run,
            mountpoint,
            env,
            gate,
            first,
            rounds,
            counts,
        ),
        flushes::<E, V, C, S, R, W, D, F, T, K, N>(
            cfg,
            slot,
            dry_run,
            mountpoint,
            env,
            gate,
            pending_at(first, rounds, rounds.len() as int),
            done,
            counts.last(),
            count,
        ),
    ensures
        flush_rounds::<E, V, C, S, R, W, D, F, T, K, N>(
            cfg,
            slot,
            dry_run,
            mountpoint,
            env,
            gate,
            first,
            rounds.push(done),
            counts.push(count),
        ),
{
    let more = rounds.push(done);
    let longer = counts.push(count);
    assert forall|k: int| 0 <= k < more.len() implies #[trigger] round_flushed::<
        E,
        V,
        C,
        S,
        R,
        W,
        D,
        F,
        T,
        K,
        N,
    >(cfg, slot, dry_run, mountpoint, env, gate, first, more, longer, k) by {
        assert(pending_at(first, more, k) == pending_at(first, rounds, k));
        if k < rounds.len() {
            assert(round_flushed::<E, V, C, S, R, W, D, F, T, K, N>(
                cfg,
                slot,
                dry_run,
                mountpoint,
                env,
                gate,
                first,
                rounds,
                counts,
                k,
            ));
        }
    }
}

/// The candidates of `batch` were flushed: what was put off is pending, and the
/// freeze of the batch is over.
pub open spec fn batch_taken<
    E,
    V: Fn(&[u8]) -> bool,
    C: Fn(&ReconfirmRequest) -> Reconfirm,
    S: Fn(&String) -> Result<u64, E>,
    R: Fn(&String, u64, usize) -> Result<Vec<u8>, E>,
    W: Fn(&String, u64, &[u8]) -> Result<(), E>,
    D: Fn(&String) -> CacheDrop,
    F: Fn(&String) -> Result<(), E>,
    T: Fn(&String) -> Result<(), E>,
    K: Fn() -> bool,
    N: Fn(&Report),
>(
    cfg: ArrayConfig,
    slot: u64,
    dry_run: bool,
    env: Env<C, S, R, W, D>,
    gate: Gate<F, T, K, N>,
    batch: Seq<Candidate<V>>,
    before: Writer<V>,
    freeze_before: FreezeController<E>,
    after: Writer<V>,
    freeze_after: FreezeController<E>,
    reports: Seq<Report>,
) -> bool {
    exists|done: Flushed<V>|
        {
            &&& #[trigger] flushes::<E, V, C, S, R, W, D, F, T, K, N>(
                cfg,
                slot,
                dry_run,
                freeze_before.mountpoint,
                env,
                gate,
                batch,
                done,
                before.stats,
                after.stats,
            )
            &&& after.pending@ == done.deferred@
            &&& reports == done.reports@
            &&& released(freeze_before, freeze_after, gate.thaw, done.writes_allowed)
        }
}

impl<V: Fn(&[u8]) -> bool> Writer<V> {
    /// Flushes the pending candidates, keeping the deferred remainder as
    /// pending.
    pub fn flush_pending<
        E,
        C: Fn(&ReconfirmRequest) -> Reconfirm,
        S: Fn(&String) -> Result<u64, E>,
        R: Fn(&String, u64, usize) -> Result<Vec<u8>, E>,
        W: Fn(&String, u64, &[u8]) -> Result<(), E>,
        D: Fn(&String) -> CacheDrop,
        F: Fn(&String) -> Result<(), E>,
        T: Fn(&String) -> Result<(), E>,
        K: Fn() -> bool,
        N: Fn(&Report),
    >(
        &mut self,
        cfg: &ArrayConfig,
        freeze: &mut FreezeController<E>,
        scrub_slot: u64,
        dry_run: bool,
        env: &Env<C, S, R, W, D>,
        gate: &Gate<F, T, K, N>,
    ) -> (r: Result<Vec<Report>, E>)
        requires
            old(self).wf(),
            old(freeze).wf(),
            batch_ready::<E, V, C, S, R, W, D, F, T, K, N>(
                *cfg,
                scrub_slot,
                dry_run,
                old(freeze).mountpoint,
                *env,
                *gate,
                old(self).pending@,
            ),
        ensures
            final(self).stats.wf(),
            final(freeze).wf(),
            final(freeze).mountpoint == old(freeze).mountpoint,
            given_back(*old(freeze), *final(freeze), gate.thaw),
            final(freeze).last_thaw_error is None,
            match r {
                Ok(reports) => {
                    &&& final(self).wf()
                    &&& final(self).stats.total() + final(self).pending@.len() == old(
                        self,
                    ).stats.total() + old(self).pending@.len()
                    &&& old(self).pending@.len() > 0 ==> final(self).pending@.len() < old(
                        self,
                    ).pending@.len()
                    &&& batch_ready::<E, V, C, S, R, W, D, F, T, K, N>(
                        *cfg,
                        scrub_slot,
                        dry_run,
                        old(freeze).mountpoint,
                        *env,
                        *gate,
                        final(self).pending@,
                    )
                    &&& batch_taken::<E, V, C, S, R, W, D, F, T, K, N>(
                        *cfg,
                        scrub_slot,
                        dry_run,
                        *env,
                        *gate,
                        old(self).pending@,
                        *old(self),
                        *old(freeze),
                        *final(self),
                        *final(freeze),
                        reports@,
                    )
                    &&& !old(freeze).frozen ==> !final(freeze).frozen
                },
                // The batch was dealt with, and nothing of it is pending any more.
                Err(e) => {
                    &&& thaw_failed(*old(freeze), *final(freeze), gate.thaw, e)
                    &&& final(self).pending@.len() == 0
                    &&& batch_counted::<E, V, C, S, R, W, D, F, T, K, N>(
                        *cfg,
                        scrub_slot,
                        dry_run,
                        old(freeze).mountpoint,
                        *env,
                        *gate,
                        old(self).pending@,
                        old(self).stats,
                        final(self).stats,
                    )
                },
            },
    {
        let ghost mount = freeze.mountpoint;
        let ghost waiting = self.pending@;
        let batch = self.pending.split_off(0);
        assert(batch@ =~= waiting);
        match flush_batch(batch, cfg, freeze, scrub_slot, dry_run, env, gate, &mut self.stats) {
            Err(e) => Err(e),
            Ok(done) => {
                let ghost all = done;
                proof {
                    lemma_deferred_ready::<E, V, C, S, R, W, D, F, T, K, N>(
                        *cfg,
                        scrub_slot,
                        dry_run,
                        mount,
                        *env,
                        *gate,
                        waiting,
                        done,
                    );
                }
                self.pending = done.deferred;
                assert(released(*old(freeze), *freeze, gate.thaw, all.writes_allowed));
                assert(flushes::<E, V, C, S, R, W, D, F, T, K, N>(
                    *cfg,
                    scrub_slot,
                    dry_run,
                    old(freeze).mountpoint,
                    *env,
                    *gate,
                    waiting,
                    all,
                    old(self).stats,
                    self.stats,
                ));
                assert(batch_taken::<E, V, C, S, R, W, D, F, T, K, N>(
                    *cfg,
                    scrub_slot,
                    dry_run,
                    *env,
                    *gate,
                    waiting,
                    *old(self),
                    *old(freeze),
                    *self,
                    *freeze,
                    all.reports@,
                ));
                Ok(done.reports)
            },
        }
    }

    /// Takes in a batch and flushes: what was deferred before comes first.
    pub fn on_batch<
        E,
        C: Fn(&ReconfirmRequest) -> Reconfirm,
        S: Fn(&String) -> Result<u64, E>,
        R: Fn(&String, u64, usize) -> Result<Vec<u8>, E>,
        W: Fn(&String, u64, &[u8]) -> Result<(), E>,
        D: Fn(&String) -> CacheDrop,
        F: Fn(&String) -> Result<(), E>,
        T: Fn(&String) -> Result<(), E>,
        K: Fn() -> bool,
        N: Fn(&Report),
    >(
        &mut self,
        batch: Vec<Candidate<V>>,
        cfg: &ArrayConfig,
        freeze: &mut FreezeController<E>,
        scrub_slot: u64,
        dry_run: bool,
        env: &Env<C, S, R, W, D>,
        gate: &Gate<F, T, K, N>,
    ) -> (r: Result<Vec<Report>, E>)
        requires
            old(self).stats.wf(),
            old(self).stats.total() + old(self).pending@.len() + batch@.len() <= u64::MAX,
            old(freeze).wf(),
            batch_ready::<E, V, C, S, R, W, D, F, T, K, N>(
                *cfg,
                scrub_slot,
                dry_run,
                old(freeze).mountpoint,
                *env,
                *gate,
                old(self).pending@ + batch@,
            ),
        ensures
            final(self).stats.wf(),
            final(freeze).wf(),
            final(freeze).mountpoint == old(freeze).mountpoint,
            given_back(*old(freeze), *final(freeze), gate.thaw),
            match r {
                Ok(reports) => {
                    &&& final(self).wf()
                    &&& final(self).stats.total() + final(self).pending@.len() == old(
                        self,
                    ).stats.total() + old(self).pending@.len() + batch@.len()
                    &&& batch_ready::<E, V, C, S, R, W, D, F, T, K, N>(
                        *cfg,
                        scrub_slot,
                        dry_run,
                        old(freeze).mountpoint,
                        *env,
                        *gate,
                        final(self).pending@,
                    )
                    &&& batch_taken::<E, V, C, S, R, W, D, F, T, K, N>(
                        *cfg,
                        scrub_slot,
                        dry_run,
                        *env,
                        *gate,
                        old(self).pending@ + batch@,
                        *old(self),
                        *old(freeze),
                        *final(self),
                        *final(freeze),
                        reports@,
                    )
                    &&& !old(freeze).frozen ==> !final(freeze).frozen
                },
                // The batch was dealt with, and nothing of it is pending any more.
                Err(e) => {
                    &&& thaw_failed(*old(freeze), *final(freeze), gate.thaw, e)
                    &&& final(self).pending@.len() == 0
                    &&& batch_counted::<E, V, C, S, R, W, D, F, T, K, N>(
                        *cfg,
                        scrub_slot,
                        dry_run,
                        old(freeze).mountpoint,
                        *env,
                        *gate,
                        old(self).pending@ + batch@,
                        old(self).stats,
                        final(self).stats,
                    )
                },
            },
    {
        let mut arrived = batch;
        self.pending.append(&mut arrived);
        self.flush_pending(cfg, freeze, scrub_slot, dry_run, env, gate)
    }

    /// Flushes until nothing is pending. Every flush deals with at least one
    /// candidate, so this ends.
    pub fn drain<
        E,
        C: Fn(&ReconfirmRequest) -> Reconfirm,
        S: Fn(&String) -> Result<u64, E>,
        R: Fn(&String, u64, usize) -> Result<Vec<u8>, E>,
        W: Fn(&String, u64, &[u8]) -> Result<(), E>,
        D: Fn(&String) -> CacheDrop,
        F: Fn(&String) -> Result<(), E>,
        T: Fn(&String) -> Result<(), E>,
        K: Fn() -> bool,
        N: Fn(&Report),
    >(
        &mut self,
        cfg: &ArrayConfig,
        freeze: &mut FreezeController<E>,
        scrub_slot: u64,
        dry_run: bool,
        env: &Env<C, S, R, W, D>,
        gate: &Gate<F, T, K, N>,
    ) -> (r: Result<(), E>)
        requires
            old(self).wf(),
            old(freeze).wf(),
            batch_ready::<E, V, C, S, R, W, D, F, T, K, N>(
                *cfg,
                scrub_slot,
                dry_run,
                old(freeze).mountpoint,
                *env,
                *gate,
                old(self).pending@,
            ),
        ensures
            final(self).stats.wf(),
            final(freeze).wf(),
            final(freeze).mountpoint == old(freeze).mountpoint,
            given_back(*old(freeze), *final(freeze), gate.thaw),
            match r {
                Ok(_) => {
                    &&& final(self).wf()
                    &&& final(self).pending@.len() == 0
                    &&& final(self).stats.total() == old(self).stats.total() + old(
                        self,
                    ).pending@.len()
                    &&& exists|rounds: Seq<Flushed<V>>, counts: Seq<BatchStats>|
                        {
                            &&& #[trigger] flush_rounds::<E, V, C, S, R, W, D, F, T, K, N>(
                                *cfg,
                                scrub_slot,
                                dry_run,
                                old(freeze).mountpoint,
                                *env,
                                *gate,
                                old(self).pending@,
                                rounds,
                                counts,
                            )
                            &&& counts.first() == old(self).stats
                            &&& counts.last() == final(self).stats
                            &&& pending_at(
                                old(self).pending@,
                                rounds,
                                rounds.len() as int,
                            ).len() == 0
                        }
                    &&& !old(freeze).frozen ==> !final(freeze).frozen
                },
                // The last round is the one whose thaw failed.
                Err(e) => {
                    &&& old(self).pending@.len() > 0
                    &&& thaw_failed(*old(freeze), *final(freeze), gate.thaw, e)
                    &&& final(self).pending@.len() == 0
                    &&& exists|rounds: Seq<Flushed<V>>, counts: Seq<BatchStats>|
                        {
                            &&& #[trigger] flush_rounds::<E, V, C, S, R, W, D, F, T, K, N>(
                                *cfg,
                                scrub_slot,
                                dry_run,
                                old(freeze).mountpoint,
                                *env,
                                *gate,
                                old(self).pending@,
                                rounds,
                                counts,
                            )
                            &&& counts.first() == old(self).stats
                            &&& counts.last() == final(self).stats
                            &&& rounds.len() > 0
                        }
                },
            },
    {
        let ghost mut rounds: Seq<Flushed<V>> = Seq::empty();
        let ghost mut counts: Seq<BatchStats> = seq![self.stats];
        let ghost mount = freeze.mountpoint;
        let ghost first = self.pending@;
        while self.pending.len() > 0
            invariant
                mount == old(freeze).mountpoint,
                first == old(self).pending@,
                flush_rounds::<E, V, C, S, R, W, D, F, T, K, N>(
                    *cfg,
                    scrub_slot,
                    dry_run,
                    mount,
                    *env,
                    *gate,
                    first,
                    rounds,
                    counts,
                ),
                counts.first() == old(self).stats,
                counts.last() == self.stats,
                self.pending@ == pending_at(first, rounds, rounds.len() as int),
                self.wf(),
                freeze.wf(),
                freeze.mountpoint == old(freeze).mountpoint,
                !old(freeze).frozen ==> !freeze.frozen,
                freeze.last_thaw_error is None || freeze.last_thaw_error == old(
                    freeze,
                ).last_thaw_error,
                batch_ready::<E, V, C, S, R, W, D, F, T, K, N>(
                    *cfg,
                    scrub_slot,
                    dry_run,
                    freeze.mountpoint,
                    *env,
                    *gate,
                    self.pending@,
                ),
                self.stats.total() + self.pending@.len() == old(self).stats.total() + old(
                    self,
                ).pending@.len(),
                self.pending@.len() <= old(self).pending@.len(),
            decreases self.pending@.len(),
        {
            let ghost before = self.pending@;
            let ghost stats_before = self.stats;
            match self.flush_pending(cfg, freeze, scrub_slot, dry_run, env, gate) {
                Ok(_) => {
                    proof {
                        let done = choose|done: Flushed<V>|
                            {
                                &&& #[trigger] flushes::<E, V, C, S, R, W, D, F, T, K, N>(
                                    *cfg,
                                    scrub_slot,
                                    dry_run,
                                    mount,
                                    *env,
                                    *gate,
                                    before,
                                    done,
                                    stats_before,
                                    self.stats,
                                )
                                &&& self.pending@ == done.deferred@
                            };
                        lemma_round_added::<E, V, C, S, R, W, D, F, T, K, N>(
                            *cfg,
                            scrub_slot,
                            dry_run,
                            mount,
                            *env,
                            *gate,
                            first,
                            rounds,
                            counts,
                            done,
                            self.stats,
                        );
                        rounds = rounds.push(done);
                        counts = counts.push(self.stats);
                    }
                },
                Err(e) => {
                    proof {
                        let done = choose|done: Flushed<V>| #[trigger]
                            flushes::<E, V, C, S, R, W, D, F, T, K, N>(
                                *cfg,
                                scrub_slot,
                                dry_run,
                                mount,
                                *env,
                                *gate,
                                before,
                                done,
                                stats_before,
                                self.stats,
                            );
                        lemma_round_added::<E, V, C, S, R, W, D, F, T, K, N>(
                            *cfg,
                            scrub_slot,
                            dry_run,
                            mount,
                            *env,
                            *gate,
                            first,
                            rounds,
                            counts,
                            done,
                            self.stats,
                        );
                        rounds = rounds.push(done);
                        counts = counts.push(self.stats);
                        assert(counts.first() == old(self).stats);
                        assert(counts.last() == self.stats);
                    }
                    return Err(e);
                },
            }
        }
        Ok(())
    }
}

} // verus!
