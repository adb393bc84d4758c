//! Isolation of unreadable sectors.

use scrub_rs::btrfs::isolate::{isolate_run, IsolationBudget};
use scrub_rs::btrfs::scrub::{isolate_run_read, isolation_budget_limit};

struct FaultyRead {
    data: Vec<u8>,
    fault: (usize, usize),
}

impl FaultyRead {
    fn read(&self, phys: u64, len: usize) -> Result<Vec<u8>, i32> {
        let start = phys as usize;
        let end = start + len;
        let (fstart, flen) = self.fault;
        let fend = fstart.saturating_add(flen);
        if start < fend && end > fstart {
            return Err(5);
        }
        Ok(self.data[start..end].to_vec())
    }
}

fn sector(fill: u8) -> Vec<u8> {
    vec![fill; 4096]
}

fn default_budget() -> IsolationBudget {
    IsolationBudget::new(isolation_budget_limit(None))
}

#[test]
fn isolate_bad_sector_keeps_neighbours() {
    let mut data = Vec::new();
    for i in 0..8u8 {
        data.extend_from_slice(&sector(i));
    }
    let r = FaultyRead {
        data,
        fault: (3 * 4096, 4096),
    };
    let mut good: Vec<(usize, Vec<u8>)> = Vec::new();
    let mut bad: Vec<usize> = Vec::new();
    let mut budget = default_budget();
    isolate_run(
        &|p: u64, l: usize| r.read(p, l),
        0,
        0,
        8 * 4096,
        4096,
        &mut budget,
        &mut good,
        &mut bad,
    );

    assert_eq!(bad, vec![3 * 4096], "only the faulted sector is bad");

    let mut covered = std::collections::BTreeSet::new();
    for (s, b) in &good {
        let first = s / 4096;
        let last = (s + b.len()) / 4096;
        for idx in first..last {
            covered.insert(idx);
        }

        for (off, byte) in b.iter().enumerate() {
            assert_eq!(*byte, ((s + off) / 4096) as u8, "region byte mismatch");
        }
    }
    for i in 0..8usize {
        if i == 3 {
            assert!(!covered.contains(&i), "sector 3 must be bad");
        } else {
            assert!(covered.contains(&i), "sector {i} must be covered");
        }
    }
}

#[test]
fn isolate_fully_failing_range_reports_all_bad() {
    let data: Vec<u8> = vec![0u8; 4 * 4096];
    let r = FaultyRead {
        data,
        fault: (0, usize::MAX),
    };
    let mut good = Vec::new();
    let mut bad = Vec::new();
    let mut budget = default_budget();
    isolate_run(
        &|p: u64, l: usize| r.read(p, l),
        0,
        0,
        4 * 4096,
        4096,
        &mut budget,
        &mut good,
        &mut bad,
    );
    assert!(good.is_empty(), "no good regions when everything faults");
    assert_eq!(bad, vec![0, 4096, 2 * 4096, 3 * 4096]);
}

#[test]
fn isolate_uneven_split_covers_every_sector() {
    let mut data = Vec::new();
    for i in 0..10u8 {
        data.extend_from_slice(&sector(i));
    }
    let r = FaultyRead {
        data,
        fault: (6 * 4096, 4096),
    };
    let mut good: Vec<(usize, Vec<u8>)> = Vec::new();
    let mut bad: Vec<usize> = Vec::new();
    let mut budget = default_budget();
    isolate_run(
        &|p: u64, l: usize| r.read(p, l),
        0,
        0,
        10 * 4096,
        4096,
        &mut budget,
        &mut good,
        &mut bad,
    );

    assert_eq!(bad, vec![6 * 4096], "only the faulted sector is bad");

    let mut covered = std::collections::BTreeSet::new();
    for (s, b) in &good {
        assert!(
            s % 4096 == 0 && b.len() % 4096 == 0,
            "good region must be sector-aligned on both ends"
        );
        let first = s / 4096;
        let last = (s + b.len()) / 4096;
        for idx in first..last {
            assert!(covered.insert(idx), "sector {idx} covered twice");
        }

        for (off, byte) in b.iter().enumerate() {
            assert_eq!(*byte, ((s + off) / 4096) as u8, "region byte mismatch");
        }
    }
    for i in 0..10usize {
        if i == 6 {
            assert!(!covered.contains(&i), "sector 6 must be bad");
        } else {
            assert!(covered.contains(&i), "sector {i} must be covered");
        }
    }
}

#[test]
fn isolate_small_range_smaller_than_split_factor() {
    let mut data = Vec::new();
    for i in 0..3u8 {
        data.extend_from_slice(&sector(i));
    }
    let r = FaultyRead {
        data,
        fault: (4096, 4096),
    };
    let mut good: Vec<(usize, Vec<u8>)> = Vec::new();
    let mut bad: Vec<usize> = Vec::new();
    let mut budget = default_budget();
    isolate_run(
        &|p: u64, l: usize| r.read(p, l),
        0,
        0,
        3 * 4096,
        4096,
        &mut budget,
        &mut good,
        &mut bad,
    );

    assert_eq!(bad, vec![4096], "only the faulted sector is bad");

    let mut covered = std::collections::BTreeSet::new();
    for (s, b) in &good {
        let first = s / 4096;
        let last = (s + b.len()) / 4096;
        for idx in first..last {
            covered.insert(idx);
        }
    }
    assert!(
        covered.contains(&0) && covered.contains(&2),
        "good sectors 0 and 2 must be covered"
    );
    assert!(!covered.contains(&1), "sector 1 must be bad");
}

#[test]
fn isolate_budget_exhaustion_marks_every_remaining_sector_bad_once() {
    let data: Vec<u8> = vec![0u8; 32 * 4096];
    let r = FaultyRead {
        data,
        fault: (0, usize::MAX),
    };
    let mut good: Vec<(usize, Vec<u8>)> = Vec::new();
    let mut bad: Vec<usize> = Vec::new();
    let mut budget = IsolationBudget {
        remaining: 4,
        exhausted: false,
    };
    isolate_run(
        &|p: u64, l: usize| r.read(p, l),
        0,
        0,
        32 * 4096,
        4096,
        &mut budget,
        &mut good,
        &mut bad,
    );

    assert!(budget.exhausted, "budget must be exhausted");
    assert!(good.is_empty(), "no good regions when everything faults");

    let mut seen = std::collections::BTreeSet::new();
    for &s in &bad {
        assert_eq!(s % 4096, 0, "bad start not sector-aligned: {s}");
        assert!(
            seen.insert(s / 4096),
            "sector {} marked bad twice",
            s / 4096
        );
    }
    assert_eq!(seen.len(), 32, "every sector must be covered exactly once");
}

#[test]
fn isolate_budget_untouched_on_healthy_range() {
    let mut data = Vec::new();
    for i in 0..8u8 {
        data.extend_from_slice(&sector(i));
    }

    let r = FaultyRead {
        data,
        fault: (usize::MAX, 1),
    };
    let mut good: Vec<(usize, Vec<u8>)> = Vec::new();
    let mut bad: Vec<usize> = Vec::new();
    let mut budget = IsolationBudget {
        remaining: 4,
        exhausted: false,
    };
    isolate_run(
        &|p: u64, l: usize| r.read(p, l),
        0,
        0,
        8 * 4096,
        4096,
        &mut budget,
        &mut good,
        &mut bad,
    );

    assert!(!budget.exhausted, "healthy run must not exhaust the budget");
    assert_eq!(budget.remaining, 4, "no failing reads consumed");
    assert!(bad.is_empty(), "no bad sectors on a healthy run");

    let covered: usize = good.iter().map(|(_, b)| b.len()).sum();
    assert_eq!(covered, 8 * 4096, "all sectors covered as good");
}

#[test]
fn budget_limit_is_read_from_the_setting() {
    assert_eq!(isolation_budget_limit(None), 64);
    assert_eq!(isolation_budget_limit(Some(" 7 ")), 7);
    assert_eq!(isolation_budget_limit(Some("0")), 64);
    assert_eq!(isolation_budget_limit(Some("many")), 64);
}

#[test]
fn a_run_read_keeps_offsets_relative_to_the_run() {
    let mut data = vec![0u8; 4 * 4096];
    data[2 * 4096] = 9;
    let r = FaultyRead {
        data,
        fault: (3 * 4096, 1),
    };
    let rsp = isolate_run_read(&|p: u64, l: usize| r.read(p, l), 2 * 4096, 2 * 4096, 4096, 64);
    assert_eq!(rsp.bad, vec![4096]);
    assert_eq!(rsp.good.len(), 1);
    assert_eq!(rsp.good[0].0, 0);
    assert_eq!(rsp.good[0].1[0], 9);
    assert!(!rsp.isolation_truncated);
}
