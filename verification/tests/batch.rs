//! Batched recovery over disks in memory, and the freeze that guards it.

use std::cell::{Cell, RefCell};
use std::collections::BTreeMap;

use scrub_rs::array::config::ArrayConfig;
use scrub_rs::batch_recover::{
    arrange, candidate_of, flush_batch, Accumulator, Act, BatchStats, CacheDrop, Candidate, Env,
    Flushed, Gate, Heard, Msg, Outcome, Queued, Report, Writer,
};
use scrub_rs::btrfs::csum_strategy::{csum_type, CsumStrategy};
use scrub_rs::freeze::FreezeController;
use scrub_rs::fs::{Reconfirm, ReconfirmRequest, ScrubEvent, SectorVerifier};

const BLOCK: usize = 16;

type Verify = fn(&[u8]) -> bool;

fn is_golden(b: &[u8]) -> bool {
    b == &vec![0x44u8; BLOCK][..]
}

struct World {
    disks: RefCell<BTreeMap<String, Vec<u8>>>,
    stale_tokens: Vec<u64>,
    unverifiable_tokens: Vec<u64>,
    freeze_works: bool,
    thaw_works: bool,
    /// The window is over as soon as a first candidate was dealt with.
    timed_out: bool,
    cache: CacheDrop,
    /// Writes land, but the disk keeps what it had.
    lying_disk: bool,
    writes: Cell<usize>,
    /// How often a cache was dropped.
    drops: Cell<usize>,
    frozen: Cell<bool>,
}

impl World {
    fn new() -> Self {
        let mut disks = BTreeMap::new();
        for (name, fill) in [("d1", 0x11u8), ("d2", 0x22), ("p", 0x66)] {
            disks.insert(name.to_string(), vec![fill; BLOCK * 8]);
        }
        World {
            disks: RefCell::new(disks),
            stale_tokens: vec![],
            unverifiable_tokens: vec![],
            freeze_works: false,
            thaw_works: true,
            timed_out: false,
            cache: CacheDrop::Failed {
                is_block_device: false,
            },
            lying_disk: false,
            writes: Cell::new(0),
            drops: Cell::new(0),
            frozen: Cell::new(false),
        }
    }

    fn disk(&self, name: &str) -> Vec<u8> {
        self.disks.borrow().get(name).unwrap().clone()
    }

    fn size(&self, path: &String) -> Result<u64, String> {
        match self.disks.borrow().get(path) {
            Some(d) => Ok(d.len() as u64),
            None => Err("not found".to_string()),
        }
    }

    fn read(&self, path: &String, pos: u64, len: usize) -> Result<Vec<u8>, String> {
        match self.disks.borrow().get(path) {
            Some(d) => Ok(d[pos as usize..pos as usize + len].to_vec()),
            None => Err("not found".to_string()),
        }
    }

    fn write(&self, path: &String, pos: u64, data: &[u8]) -> Result<(), String> {
        self.writes.set(self.writes.get() + 1);
        let mut disks = self.disks.borrow_mut();
        let d = disks.get_mut(path).ok_or("not found".to_string())?;
        if !self.lying_disk {
            d[pos as usize..pos as usize + data.len()].copy_from_slice(data);
        }
        Ok(())
    }

    fn verdict(&self, req: &ReconfirmRequest) -> Reconfirm {
        if self.stale_tokens.contains(&req.token) {
            Reconfirm::Stale
        } else if self.unverifiable_tokens.contains(&req.token) {
            Reconfirm::Unverifiable
        } else {
            Reconfirm::Corruption
        }
    }

    fn flush(
        &self,
        cands: Vec<Candidate<Verify>>,
        freeze: &mut FreezeController<String>,
        dry_run: bool,
        stats: &mut BatchStats,
    ) -> Result<Flushed<Verify>, String> {
        let env = Env {
            reconfirm: |r: &ReconfirmRequest| self.verdict(r),
            size: |p: &String| self.size(p),
            read: |p: &String, o: u64, n: usize| self.read(p, o, n),
            write: |p: &String, o: u64, d: &[u8]| self.write(p, o, d),
            drop_cache: |_p: &String| {
                self.drops.set(self.drops.get() + 1);
                self.cache
            },
        };
        let gate = Gate {
            freeze: |_m: &String| {
                if self.freeze_works {
                    self.frozen.set(true);
                    Ok(())
                } else {
                    Err("cannot freeze".to_string())
                }
            },
            thaw: |_m: &String| {
                if self.thaw_works {
                    self.frozen.set(false);
                    Ok(())
                } else {
                    Err("cannot thaw".to_string())
                }
            },
            timed_out: || self.timed_out,
            note: |_r: &Report| {},
        };
        flush_batch(cands, &cfg(), freeze, 1, dry_run, &env, &gate, stats)
    }
}

fn cfg() -> ArrayConfig {
    ArrayConfig {
        data_devs: BTreeMap::from([(1, "d1".to_string()), (2, "d2".to_string())]),
        parity_p: Some("p".to_string()),
        parity_q: None,
        rdev_offsets: vec![],
    }
}

fn cand(array_phys: u64, token: u64, unreadable: bool) -> Candidate<Verify> {
    Candidate {
        array_phys,
        block_size: BLOCK,
        verify: is_golden,
        raw_phys: array_phys,
        failing_dev: "d1".to_string(),
        reconfirm: Some(ReconfirmRequest {
            token,
            stored_csum: vec![],
        }),
        unreadable,
    }
}

fn run_batch(
    w: &World,
    mut freeze: FreezeController<String>,
    dry_run: bool,
    cands: Vec<Candidate<Verify>>,
) -> BatchStats {
    let mut stats = BatchStats::default();
    let done = w
        .flush(cands, &mut freeze, dry_run, &mut stats)
        .expect("batch must not abort");
    assert!(
        done.deferred.is_empty(),
        "no freeze-timeout deferral expected in this test"
    );
    stats
}

#[test]
fn freeze_failure_defers_writes_into_not_frozen() {
    let w = World::new();
    let before = w.disk("d1");
    let freeze = FreezeController::new(Some("/nonexistent/mountpoint".to_string()));
    let stats = run_batch(&w, freeze, false, vec![cand(0, 0, false)]);
    assert_eq!(stats.not_frozen, 1, "write must be deferred");
    assert_eq!(stats.recovered, 0, "deferred writes are never recovered");
    assert_eq!(stats.failed, 0);
    assert_eq!(stats.mismatch, 1);
    assert_eq!(
        w.disk("d1"),
        before,
        "assess-only batch must not touch the disk"
    );
}

#[test]
fn no_declared_mount_writes_normally() {
    let w = World::new();
    let stats = run_batch(
        &w,
        FreezeController::new(None),
        false,
        vec![cand(0, 0, false)],
    );
    assert_eq!(stats.recovered, 1);
    assert_eq!(stats.not_frozen, 0);
    let after = w.disk("d1");
    assert_eq!(
        &after[..BLOCK],
        &vec![0x44u8; BLOCK],
        "block must be repaired on the failing disk"
    );
}

#[test]
fn dry_run_counts_recovered_without_writing() {
    let w = World::new();
    let before = w.disk("d1");
    let stats = run_batch(
        &w,
        FreezeController::new(None),
        true,
        vec![cand(0, 0, false)],
    );
    assert_eq!(stats.recovered, 1, "dry-run reports would-be recovery");
    assert_eq!(w.disk("d1"), before, "dry-run must not touch the disk");
    assert_eq!(w.writes.get(), 0);
}

#[test]
fn caches_are_dropped_only_behind_a_write() {
    let w = World::new();
    let plain = FreezeController::new;
    run_batch(&w, plain(None), true, vec![cand(0, 0, false)]);
    assert_eq!((w.writes.get(), w.drops.get()), (0, 0), "dry run");
    run_batch(&w, plain(Some("/mnt".to_string())), false, vec![cand(0, 0, false)]);
    assert_eq!((w.writes.get(), w.drops.get()), (0, 0), "not frozen");
    w.disks.borrow_mut().remove("d2");
    let stats = run_batch(&w, plain(None), false, vec![cand(0, 0, false)]);
    assert_eq!(stats.failed, 1, "the stripe cannot be read");
    assert_eq!((w.writes.get(), w.drops.get()), (0, 0));
    w.disks.borrow_mut().insert("d2".to_string(), vec![0x22; BLOCK * 8]);
    let stats = run_batch(&w, plain(None), false, vec![cand(0, 0, false)]);
    assert_eq!(stats.recovered, 1);
    assert_eq!((w.writes.get(), w.drops.get()), (1, 2));
}

#[test]
fn unreadable_candidate_recovers_from_parity() {
    let w = World::new();
    let stats = run_batch(
        &w,
        FreezeController::new(None),
        false,
        vec![cand(0, 0, true)],
    );
    assert_eq!(stats.recovered, 1);
    assert_eq!(
        &w.disk("d1")[..BLOCK],
        &vec![0x44u8; BLOCK],
        "unreadable sector must be rebuilt from parity"
    );
}

#[test]
fn verdicts_stale_and_unverifiable_are_counted_and_never_written() {
    let mut w = World::new();
    w.stale_tokens = vec![2];
    w.unverifiable_tokens = vec![3];
    let stats = run_batch(
        &w,
        FreezeController::new(None),
        false,
        vec![
            cand(0, 0, false),
            cand(16, 1, false),
            cand(32, 2, false),
            cand(48, 3, false),
        ],
    );
    assert_eq!(stats.recovered, 2);
    assert_eq!(stats.stale, 1);
    assert_eq!(stats.skipped, 1);

    assert_eq!(stats.mismatch, 2);
    assert_eq!(
        stats.mismatch,
        stats.recovered
            + stats.failed
            + stats.not_corrupt
            + stats.not_frozen
            + stats.readback_failed
    );
    assert_eq!(
        stats.stale + stats.skipped + stats.mismatch + stats.deduped,
        4
    );

    let after = w.disk("d1");
    assert_eq!(&after[..16], &vec![0x44u8; 16]);
    assert_eq!(&after[16..32], &vec![0x44u8; 16]);
    assert_eq!(&after[32..48], &vec![0x11u8; 16], "stale: not written");
    assert_eq!(&after[48..64], &vec![0x11u8; 16], "skipped: not written");
}

#[test]
fn array_phys_dedup_is_counted() {
    let w = World::new();
    let stats = run_batch(
        &w,
        FreezeController::new(None),
        false,
        vec![cand(0, 0, false), cand(0, 1, false)],
    );
    assert_eq!(stats.deduped, 1);
    assert_eq!(stats.mismatch, 1);
    assert_eq!(stats.recovered, 1);
    assert_eq!(stats.deduped + stats.mismatch, 2, "sent must reconcile");
}

#[test]
fn fresh_read_failure_degrades_to_unreadable_recovery_path() {
    let w = World::new();
    w.disks.borrow_mut().remove("d1");
    let stats = run_batch(
        &w,
        FreezeController::new(None),
        true,
        vec![cand(0, 0, false)],
    );
    assert_eq!(
        stats.recovered, 1,
        "degraded candidate must be recovered from parity"
    );
    assert_eq!(
        stats.failed, 0,
        "fresh-read failure must not auto-fail the candidate"
    );
    assert_eq!(stats.mismatch, 1);
}

#[test]
fn freeze_timeout_defers_the_rest_of_the_batch() {
    let mut w = World::new();
    w.timed_out = true;
    let mut stats = BatchStats::default();
    let mut freeze = FreezeController::new(None);

    let deferred = w
        .flush(
            vec![cand(0, 0, false), cand(16, 1, false), cand(32, 2, false)],
            &mut freeze,
            false,
            &mut stats,
        )
        .expect("deferral is not an abort")
        .deferred;
    assert_eq!(deferred.len(), 2, "candidates 2 and 3 deferred");
    assert_eq!(stats.recovered, 1, "first candidate still classified");
    assert_eq!(stats.mismatch, 1);
    assert_eq!(
        &w.disk("d1")[..16],
        &vec![0x44u8; 16],
        "first candidate was written before the timeout"
    );
    assert_eq!(
        &w.disk("d1")[16..48],
        &vec![0x11u8; 32],
        "deferred candidates not written yet"
    );

    let mut stats2 = BatchStats::default();
    let deferred2 = w
        .flush(deferred, &mut freeze, false, &mut stats2)
        .expect("second flush must not abort")
        .deferred;
    assert_eq!(deferred2.len(), 1);
    assert_eq!(stats2.recovered, 1);
    let deferred3 = w
        .flush(deferred2, &mut freeze, false, &mut stats2)
        .expect("third flush must not abort")
        .deferred;
    assert!(deferred3.is_empty());
    assert_eq!(stats2.recovered, 2);

    assert_eq!(stats.recovered + stats2.recovered, 3);
}

#[test]
fn failed_thaw_aborts_the_run() {
    let mut w = World::new();
    w.freeze_works = true;
    w.thaw_works = false;
    let mut freeze = FreezeController::new(Some("/mnt".to_string()));
    let mut stats = BatchStats::default();
    let err = w
        .flush(vec![cand(0, 0, false)], &mut freeze, false, &mut stats)
        .unwrap_err();
    assert_eq!(err, "cannot thaw");
    assert!(freeze.frozen, "the filesystem may still be frozen");
    assert_eq!(stats.recovered, 1);
}

#[test]
fn failed_thaw_loses_no_count() {
    let w = World::new();
    let env = Env {
        reconfirm: |r: &ReconfirmRequest| w.verdict(r),
        size: |p: &String| w.size(p),
        read: |p: &String, o: u64, n: usize| w.read(p, o, n),
        write: |p: &String, o: u64, d: &[u8]| w.write(p, o, d),
        drop_cache: |_p: &String| w.cache,
    };
    let thaws = Cell::new(0);
    let gate = Gate {
        freeze: |_m: &String| Ok::<(), String>(()),
        thaw: |_m: &String| {
            thaws.set(thaws.get() + 1);
            if thaws.get() < 3 {
                Ok(())
            } else {
                Err("cannot thaw".to_string())
            }
        },
        timed_out: || true,
        note: |_r: &Report| {},
    };
    let mut freeze = FreezeController::new(Some("/mnt".to_string()));
    let mut writer: Writer<Verify> = Writer::new();
    let four = [0, 16, 16, 32, 48];
    writer.pending = four.iter().map(|at| cand(*at, *at, false)).collect();
    // One candidate each in two rounds; the third round's thaw fails.
    let r = writer.drain(&cfg(), &mut freeze, 1, false, &env, &gate);
    assert_eq!(r, Err("cannot thaw".to_string()));
    assert_eq!((writer.stats.recovered, writer.stats.deduped), (3, 1));
    assert!(writer.pending.is_empty());
    assert!(freeze.frozen);
}

#[test]
fn frozen_batch_writes_and_thaws() {
    let mut w = World::new();
    w.freeze_works = true;
    let mut freeze = FreezeController::new(Some("/mnt".to_string()));
    let mut stats = BatchStats::default();
    let done = w
        .flush(vec![cand(0, 0, false)], &mut freeze, false, &mut stats)
        .unwrap();
    assert!(done.writes_allowed);
    assert!(done.reports[0].written);
    assert_eq!(done.reports[0].outcome, Outcome::Recovered);
    assert_eq!(done.processed.len(), 1);
    assert!(!w.frozen.get());
    assert!(!freeze.frozen);
}

#[test]
fn untrusted_read_backs_are_counted_failed() {
    let mut w = World::new();
    w.lying_disk = true;
    let stats = run_batch(
        &w,
        FreezeController::new(None),
        false,
        vec![cand(0, 0, false)],
    );
    assert_eq!(stats.readback_failed, 1);
    assert_eq!(stats.recovered, 0);

    let mut w = World::new();
    w.cache = CacheDrop::Failed {
        is_block_device: true,
    };
    let stats = run_batch(
        &w,
        FreezeController::new(None),
        false,
        vec![cand(0, 0, false)],
    );
    assert_eq!(stats.readback_failed, 1, "cache of a block device stayed");

    let mut w = World::new();
    w.cache = CacheDrop::Dropped;
    let stats = run_batch(
        &w,
        FreezeController::new(None),
        false,
        vec![cand(0, 0, false)],
    );
    assert_eq!(stats.recovered, 1);
}

#[test]
fn rewritten_sector_is_stale_and_missing_parity_fails() {
    let w = World::new();
    w.disks
        .borrow_mut()
        .insert("d1".to_string(), vec![0x44; BLOCK * 8]);
    let stats = run_batch(
        &w,
        FreezeController::new(None),
        false,
        vec![cand(0, 0, false)],
    );
    assert_eq!(stats.stale, 1);
    assert_eq!(stats.mismatch, 0);

    let w = World::new();
    w.disks.borrow_mut().remove("d2");
    let stats = run_batch(
        &w,
        FreezeController::new(None),
        false,
        vec![cand(0, 0, false)],
    );
    assert_eq!(stats.failed, 1, "a stripe that cannot be read fails");
    assert_eq!(w.writes.get(), 0);
}

#[test]
fn arranging_sorts_and_keeps_first_reports() {
    let (sorted, dropped) = arrange(vec![
        cand(32, 0, false),
        cand(0, 1, false),
        cand(32, 2, false),
        cand(16, 3, false),
        cand(0, 4, false),
    ]);
    assert_eq!(dropped, 2);
    let shown: Vec<(u64, u64)> = sorted
        .iter()
        .map(|c| (c.array_phys, c.reconfirm.as_ref().unwrap().token))
        .collect();
    assert_eq!(shown, vec![(0, 1), (16, 3), (32, 0)]);
}

#[test]
fn accumulator_sends_full_and_idle_batches() {
    let mut acc: Accumulator<Verify> = Accumulator::new(2);
    let heard = |n: u64| Heard::Message(Msg::Candidate(cand(n, n, false)));
    assert!(matches!(acc.hear(heard(0)), Act::WaitIdle));
    match acc.hear(heard(1)) {
        Act::Send(b) => assert_eq!(b.len(), 2),
        other => panic!("got {other:?}"),
    }
    assert!(matches!(acc.hear(Heard::TimedOut), Act::Wait));
    assert!(matches!(acc.hear(heard(2)), Act::WaitIdle));
    match acc.hear(Heard::TimedOut) {
        Act::Send(b) => assert_eq!(b[0].array_phys, 2),
        other => panic!("got {other:?}"),
    }
    assert!(matches!(acc.hear(heard(3)), Act::WaitIdle));
    match acc.hear(Heard::Message(Msg::Done)) {
        Act::Finish(b) => assert_eq!(b.len(), 1),
        other => panic!("got {other:?}"),
    }
    match acc.hear(Heard::Disconnected) {
        Act::Finish(b) => assert!(b.is_empty()),
        other => panic!("got {other:?}"),
    }
    let mut eager: Accumulator<Verify> = Accumulator::new(0);
    assert!(matches!(eager.hear(heard(0)), Act::Send(_)));
}

#[test]
fn writer_keeps_deferred_candidates_and_drains_them() {
    let mut w = World::new();
    w.timed_out = true;
    let w = w;
    let env = Env {
        reconfirm: |r: &ReconfirmRequest| w.verdict(r),
        size: |p: &String| w.size(p),
        read: |p: &String, o: u64, n: usize| w.read(p, o, n),
        write: |p: &String, o: u64, d: &[u8]| w.write(p, o, d),
        drop_cache: |_p: &String| w.cache,
    };
    let told = RefCell::new(Vec::new());
    let gate = Gate {
        freeze: |_m: &String| Ok::<(), String>(()),
        thaw: |_m: &String| Ok::<(), String>(()),
        timed_out: || w.timed_out,
        note: |r: &Report| told.borrow_mut().push(r.raw_phys),
    };
    let mut freeze: FreezeController<String> = FreezeController::new(None);
    let mut writer: Writer<Verify> = Writer::new();
    let reports = writer
        .on_batch(
            vec![cand(32, 0, false), cand(0, 1, false), cand(16, 2, false)],
            &cfg(),
            &mut freeze,
            1,
            false,
            &env,
            &gate,
        )
        .unwrap();
    assert_eq!(reports.len(), 1);
    assert_eq!(writer.pending.len(), 2);
    writer
        .drain(&cfg(), &mut freeze, 1, false, &env, &gate)
        .unwrap();
    assert!(writer.pending.is_empty());
    assert_eq!(writer.stats.recovered, 3);
    assert_eq!(*told.borrow(), vec![0, 16, 32]);
}

#[test]
fn events_become_candidates_of_the_scrubbed_disk() {
    let event = |verify: bool| ScrubEvent {
        array_phys: 4096,
        block_size: 4096,
        verify: if verify {
            Some(SectorVerifier {
                strategy: CsumStrategy {
                    csum_type: csum_type::CRC32C,
                    name: "crc32c",
                    hash_len: 4,
                    sector_size: 4096,
                },
                stored: vec![1, 2, 3, 4],
            })
        } else {
            None
        },
        reconfirm: None,
        unreadable: true,
    };
    let mut c = cfg();
    c.rdev_offsets.push(("d2".to_string(), 512));
    match candidate_of(&c, 2, event(true)) {
        Queued::Candidate(q) => {
            assert_eq!(q.failing_dev, "d2");
            assert_eq!(q.raw_phys, 4096 + 512);
            assert!(q.unreadable);
        }
        other => panic!("got {other:?}"),
    }
    assert!(matches!(
        candidate_of(&c, 2, event(false)),
        Queued::NoChecksum
    ));
    assert!(matches!(
        candidate_of(&c, 9, event(true)),
        Queued::NotADataDisk
    ));
    c.rdev_offsets.push(("d2".to_string(), u64::MAX));
    assert!(matches!(
        candidate_of(&c, 2, event(true)),
        Queued::OutOfRange
    ));
}

// ---------------------------------------------------------------------------
// Freezing
// ---------------------------------------------------------------------------

#[test]
fn failed_thaw_is_recorded_and_keeps_frozen_state() {
    let mut c: FreezeController<String> = FreezeController {
        mountpoint: Some("/nonexistent/freeze-test-mnt".to_string()),
        frozen: true,
        last_thaw_error: None,
    };
    c.thaw(&|_m: &String| Err("no such mount".to_string()));
    assert!(
        c.frozen,
        "failed thaw must keep frozen so Drop/retry stays possible"
    );
    assert!(
        c.take_thaw_error().is_some(),
        "failed thaw must be observable via take_thaw_error"
    );
    assert!(
        c.take_thaw_error().is_none(),
        "take_thaw_error must clear the recorded error"
    );
}

#[test]
fn no_thaw_error_by_default_and_thaw_noop_when_not_frozen() {
    let mut c: FreezeController<String> =
        FreezeController::new(Some("/nonexistent/freeze-test-mnt".to_string()));
    assert!(c.take_thaw_error().is_none());
    c.thaw(&|_m: &String| Err("must not be asked".to_string()));
    assert!(!c.frozen);
    assert!(c.take_thaw_error().is_none());
}

#[test]
fn no_mount_controller_never_frozen() {
    let mut c: FreezeController<String> = FreezeController::new(None);
    assert!(!c.has_live_mount());
    assert!(c
        .guard(&|_m: &String| Err("must not be asked".to_string()))
        .unwrap()
        .is_none());
    assert!(c.take_thaw_error().is_none());
}

#[test]
fn guard_is_given_back_by_release() {
    let mut c: FreezeController<String> = FreezeController::new(Some("/mnt".to_string()));
    assert_eq!(c.mountpoint(), Some("/mnt"));
    assert!(c.guard(&|_m: &String| Err("busy".to_string())).is_err());
    assert!(!c.frozen);
    let g = c.guard(&|_m: &String| Ok(())).unwrap().unwrap();
    assert!(c.frozen);
    c.release(g, &|_m: &String| Ok(()));
    assert!(!c.frozen);
}
