//! Parity math and the recovery cascade.

use std::num::Wrapping;

use scrub_rs::recovery::gf;
use scrub_rs::recovery::gf::{gf_exp, gf_inv, gf_mul, gf_pow};
use scrub_rs::recovery::{
    recover_block, recover_via_p, solve_two_disk, FailureReason, ParityPath, RecoveryInput,
    RecoveryResult,
};

const BLOCK: usize = 8;

/// A `block_size`-byte stripe of `n` data disks with computed P and Q.
#[derive(Clone)]
struct Stripe {
    data: Vec<(u64, Vec<u8>)>,
    p: Vec<u8>,
    q: Vec<u8>,
}

impl Stripe {
    fn new(block_size: usize, n: u8, seed: u64) -> Self {
        let mut s = Wrapping(seed.max(1));
        let mut lcg = move || {
            s ^= s >> 12;
            s ^= s << 25;
            s ^= s >> 27;
            (s.0.wrapping_mul(0x2545F4914F6CDD1D)) as u8
        };
        let data: Vec<(u64, Vec<u8>)> = (1..=n)
            .map(|slot| (slot as u64, (0..block_size).map(|_| lcg()).collect()))
            .collect();
        Stripe {
            p: compute_p(&data, block_size),
            q: compute_q(&data, block_size),
            data,
        }
    }

    fn chunk(&self, slot: u64) -> &[u8] {
        &self.data.iter().find(|(s, _)| *s == slot).unwrap().1
    }

    fn others(&self, failing_slot: u64) -> Vec<(u64, Vec<u8>)> {
        self.data
            .iter()
            .filter(|(s, _)| *s != failing_slot)
            .cloned()
            .collect()
    }
}

fn compute_p(data: &[(u64, Vec<u8>)], block_size: usize) -> Vec<u8> {
    let mut p = vec![0u8; block_size];
    for (_, b) in data {
        for (x, y) in p.iter_mut().zip(b.iter()) {
            *x ^= y;
        }
    }
    p
}

fn compute_q(data: &[(u64, Vec<u8>)], block_size: usize) -> Vec<u8> {
    let gfmul = gf::build_gfmul();
    let mut q = vec![0u8; block_size];
    for (slot, b) in data {
        let coef = gf_exp(*slot as i32 - 1);
        let table = &gfmul[coef as usize];
        for (q_byte, d_byte) in q.iter_mut().zip(b.iter()) {
            *q_byte ^= table[*d_byte as usize];
        }
    }
    q
}

// Flip byte 1 of `chunk` by 0x5a to corrupt it.
fn corrupt(chunk: &[u8]) -> Vec<u8> {
    let mut c = chunk.to_vec();
    c[1] ^= 0x5a;
    c
}

fn replaced(stripe: &Stripe, failing: u64, corrupt: &[u8]) -> Vec<(u64, Vec<u8>)> {
    stripe
        .data
        .iter()
        .map(|(s, b)| {
            (
                *s,
                if *s == failing {
                    corrupt.to_vec()
                } else {
                    b.clone()
                },
            )
        })
        .collect()
}

// Recompute P with the failing slot's chunk replaced by `corrupt`.
fn bake_p(stripe: &Stripe, failing: u64, corrupt: &[u8]) -> Vec<u8> {
    compute_p(&replaced(stripe, failing, corrupt), BLOCK)
}

// Recompute Q with the failing slot's chunk replaced by `corrupt`.
fn bake_q(stripe: &Stripe, failing: u64, corrupt: &[u8]) -> Vec<u8> {
    compute_q(&replaced(stripe, failing, corrupt), BLOCK)
}

// Assert the recovery used the expected path and returned `golden`.
fn expect_recovered(r: RecoveryResult, expect_via: ParityPath, golden: &[u8]) {
    match r {
        RecoveryResult::Recovered { via, block } => {
            assert_eq!(via, expect_via, "wrong parity path");
            assert_eq!(block, golden, "recovered block != original");
        }
        other => panic!("expected Recovered via {expect_via:?}, got {other:?}"),
    }
}

#[test]
fn p_path_recovers_when_q_unavailable() {
    // 3 data disks, no Q, P intact: the P path must reconstruct D2.
    let stripe = Stripe::new(BLOCK, 3, 0xA1);
    let failing = 2;
    let golden = stripe.chunk(failing).to_vec();
    let corrupt = corrupt(&golden);
    let others = stripe.others(failing);
    let v = |b: &[u8]| b == golden;
    let input = RecoveryInput {
        failing_slot: failing,
        corrupt_block: &corrupt,
        unreadable_source: false,
        other_blocks: &others,
        p_block: Some(&stripe.p),
        q_block: None,
        verifier: &v,
    };
    expect_recovered(recover_block(&input, BLOCK), ParityPath::P, &golden);
}

#[test]
fn q_path_recovers_when_p_baked_in() {
    // P recomputed from the corrupt bytes; Q still reflects the original data,
    // so the Q path must succeed.
    let stripe = Stripe::new(BLOCK, 4, 0xB2);
    let failing = 2;
    let golden = stripe.chunk(failing).to_vec();
    let corrupt = corrupt(&golden);
    let p_baked = bake_p(&stripe, failing, &corrupt);
    let q_orig = stripe.q.clone();
    let others = stripe.others(failing);
    let v = |b: &[u8]| b == golden;
    let input = RecoveryInput {
        failing_slot: failing,
        corrupt_block: &corrupt,
        unreadable_source: false,
        other_blocks: &others,
        p_block: Some(&p_baked),
        q_block: Some(&q_orig),
        verifier: &v,
    };
    expect_recovered(recover_block(&input, BLOCK), ParityPath::Q, &golden);
}

#[test]
fn p_path_recovers_when_q_baked_in() {
    // Q baked in from the corrupt bytes; P intact: the P path must succeed.
    let stripe = Stripe::new(BLOCK, 4, 0xC3);
    let failing = 3;
    let golden = stripe.chunk(failing).to_vec();
    let corrupt = corrupt(&golden);
    let p_orig = stripe.p.clone();
    let q_baked = bake_q(&stripe, failing, &corrupt);
    let others = stripe.others(failing);
    let v = |b: &[u8]| b == golden;
    let input = RecoveryInput {
        failing_slot: failing,
        corrupt_block: &corrupt,
        unreadable_source: false,
        other_blocks: &others,
        p_block: Some(&p_orig),
        q_block: Some(&q_baked),
        verifier: &v,
    };
    expect_recovered(recover_block(&input, BLOCK), ParityPath::P, &golden);
}

#[test]
fn pq_two_disk_solve_when_both_corrupt() {
    // Two disks silently corrupt; P and Q still reflect the original stripe (no
    // parity resync). Single paths inherit the partner's bad bytes and fail; the
    // PQ solve must isolate both unknowns.
    let stripe = Stripe::new(BLOCK, 4, 0xD4);
    let failing = 1;
    let partner = 3;
    let golden = stripe.chunk(failing).to_vec();
    let golden_partner = stripe.chunk(partner).to_vec();
    let corrupt = corrupt(&golden);
    let partner_corrupt = {
        let mut c = golden_partner.clone();
        c[2] ^= 0xa5;
        c
    };
    // Original P and Q, computed from the uncorrupted stripe.
    let p = stripe.p.clone();
    let q = stripe.q.clone();
    // Other data includes the partner's corrupt chunk: the engine does not know
    // it is bad.
    let others: Vec<(u64, Vec<u8>)> = stripe
        .data
        .iter()
        .map(|(s, b)| {
            let chunk = if *s == partner {
                partner_corrupt.clone()
            } else {
                b.clone()
            };
            (*s, chunk)
        })
        .filter(|(s, _)| *s != failing)
        .collect();
    let v = |b: &[u8]| b == golden;
    let input = RecoveryInput {
        failing_slot: failing,
        corrupt_block: &corrupt,
        unreadable_source: false,
        other_blocks: &others,
        p_block: Some(&p),
        q_block: Some(&q),
        verifier: &v,
    };
    expect_recovered(
        recover_block(&input, BLOCK),
        ParityPath::PQ {
            partner_slot: partner,
        },
        &golden,
    );
}

#[test]
fn all_paths_fail_when_both_parity_baked() {
    // Both P and Q recomputed from the corrupt bytes: every path reproduces the
    // corruption, so recovery must fail.
    let stripe = Stripe::new(BLOCK, 4, 0xE5);
    let failing = 2;
    let golden = stripe.chunk(failing).to_vec();
    let corrupt = corrupt(&golden);
    let p_baked = bake_p(&stripe, failing, &corrupt);
    let q_baked = bake_q(&stripe, failing, &corrupt);
    let others = stripe.others(failing);
    let v = |b: &[u8]| b == golden;
    let input = RecoveryInput {
        failing_slot: failing,
        corrupt_block: &corrupt,
        unreadable_source: false,
        other_blocks: &others,
        p_block: Some(&p_baked),
        q_block: Some(&q_baked),
        verifier: &v,
    };
    match recover_block(&input, BLOCK) {
        RecoveryResult::Failed {
            reason:
                FailureReason::AllPathsFailed {
                    pq_partners_tried, ..
                },
        } => {
            assert!(!pq_partners_tried.is_empty(), "should have tried partners");
        }
        other => panic!("expected AllPathsFailed, got {other:?}"),
    }
}

#[test]
fn not_corrupt_when_verifier_accepts_on_disk() {
    // The on-disk block already passes the verifier (raced rewrite): return
    // NotCorrupt without consulting parity.
    let stripe = Stripe::new(BLOCK, 3, 0xF6);
    let failing = 1;
    let golden = stripe.chunk(failing).to_vec();
    let others = stripe.others(failing);
    let v = |b: &[u8]| b == golden;
    // Pass the golden (uncorrupted) block as corrupt_block.
    let input = RecoveryInput {
        failing_slot: failing,
        corrupt_block: &golden,
        unreadable_source: false,
        other_blocks: &others,
        p_block: Some(&stripe.p),
        q_block: Some(&stripe.q),
        verifier: &v,
    };
    assert!(matches!(
        recover_block(&input, BLOCK),
        RecoveryResult::NotCorrupt
    ));
}

#[test]
fn no_q_and_p_fails_reports_no_q_path_and_p_failed() {
    // Single-parity array; P corrupted independently of the data: expect
    // NoQPathAndPFailed, not AllPathsFailed.
    let stripe = Stripe::new(BLOCK, 3, 0xA1);
    let failing = 2;
    let golden = stripe.chunk(failing).to_vec();
    let corrupt = corrupt(&golden);
    // Independent P corruption: flip one byte of the real P.
    let mut p_bad = stripe.p.clone();
    p_bad[3] ^= 0x11;
    let others = stripe.others(failing);
    let v = |b: &[u8]| b == golden;
    let input = RecoveryInput {
        failing_slot: failing,
        corrupt_block: &corrupt,
        unreadable_source: false,
        other_blocks: &others,
        p_block: Some(&p_bad),
        q_block: None,
        verifier: &v,
    };
    match recover_block(&input, BLOCK) {
        RecoveryResult::Failed {
            reason: FailureReason::NoQPathAndPFailed { .. },
        } => {}
        other => panic!("expected NoQPathAndPFailed, got {other:?}"),
    }
}

#[test]
fn unreadable_source_recovers_all_zero_block_via_p() {
    // Unreadable source whose real data is all-zero: without the flag the engine
    // would misclassify it as NotCorrupt/ParityBakedIn; with it, P-only recovery
    // must return Recovered.
    let block_size = BLOCK;
    let n = 3u8;
    // Slot 2's data is all zeros.
    let mut data: Vec<(u64, Vec<u8>)> = (1..=n as u64)
        .map(|slot| {
            let bytes = if slot == 2 {
                vec![0u8; block_size]
            } else {
                (0..block_size)
                    .map(|i| (slot as u8) * 7 + (i % 251) as u8)
                    .collect()
            };
            (slot, bytes)
        })
        .collect();
    let p = compute_p(&data, block_size);
    // Slot 2 (failing) is excluded from other_blocks.
    data.retain(|(s, _)| *s != 2);
    let golden: Vec<u8> = vec![0u8; block_size];
    let placeholder: Vec<u8> = vec![0u8; block_size];
    let v = |b: &[u8]| b == golden;
    let input = RecoveryInput {
        failing_slot: 2,
        corrupt_block: &placeholder,
        unreadable_source: true,
        other_blocks: &data,
        p_block: Some(&p),
        q_block: None,
        verifier: &v,
    };
    expect_recovered(recover_block(&input, block_size), ParityPath::P, &golden);
}

#[test]
fn unreadable_source_skips_not_corrupt_when_verifier_accepts_placeholder() {
    // The verifier accepts zeros here, but the placeholder proves nothing: the
    // engine must still reconstruct from parity.
    let block_size = BLOCK;
    let n = 3u8;
    let mut data: Vec<(u64, Vec<u8>)> = (1..=n as u64)
        .map(|slot| {
            let bytes = (0..block_size)
                .map(|i| (slot as u8) * 3 + (i % 199) as u8)
                .collect();
            (slot, bytes)
        })
        .collect();
    // Failing slot 2 is all-zero on disk.
    data = data
        .iter()
        .map(|(s, b)| {
            if *s == 2 {
                (*s, vec![0u8; block_size])
            } else {
                (*s, b.clone())
            }
        })
        .collect();
    let p = compute_p(&data, block_size);
    data.retain(|(s, _)| *s != 2);
    let placeholder: Vec<u8> = vec![0u8; block_size];
    // Verifier accepts zeros (would-be NotCorrupt trap).
    let v = |b: &[u8]| b == vec![0u8; block_size];
    let input = RecoveryInput {
        failing_slot: 2,
        corrupt_block: &placeholder,
        unreadable_source: true,
        other_blocks: &data,
        p_block: Some(&p),
        q_block: None,
        verifier: &v,
    };
    match recover_block(&input, block_size) {
        RecoveryResult::Recovered { block, .. } => {
            assert_eq!(block, vec![0u8; block_size]);
        }
        other => panic!("expected Recovered via P, got {other:?}"),
    }
}

#[test]
fn gfmul_table_is_consistent() {
    // g * 1 == g and g * 0 == 0 for every g.
    for g in 0..=255u8 {
        assert_eq!(gf_mul(g, 0), 0);
        assert_eq!(gf_mul(g, 1), g);
    }
}

#[test]
fn gfexp_matches_double_and_reduce() {
    // The entry at e must equal 2 multiplied by itself e times.
    let table = gf::build_gfexp();
    let mut v: u8 = 1;
    for (e, gfexp) in table.iter().enumerate().take(255) {
        assert_eq!(gfexp, &v, "GFEXP[{e}]");
        let hi = v & 0x80;
        v = (v << 1) ^ (if hi != 0 { 0x1d } else { 0 });
    }
}

#[test]
fn gf_inv_round_trip() {
    for x in 1..=255u8 {
        let inv = gf_inv(x);
        assert_ne!(inv, 0, "gf_inv({x}) = 0");
        assert_eq!(gf_mul(x, inv), 1, "gf_inv({x}) = {inv}");
    }
}

#[test]
fn gf_exp_period_255() {
    // g^255 == g^0 == 1.
    assert_eq!(gf_exp(0), 1);
    assert_eq!(gf_exp(255), 1);
    assert_eq!(gf_exp(256), 2);
    assert_eq!(gf_exp(-1), gf_exp(254));
}

#[test]
fn q_syndrome_matches_gen_syndrome_pattern() {
    // Cross-check the walk that multiplies by 2 at every step against the closed
    // form Q = XOR g^(j-1) * D_j for a 3-disk stripe.
    let d: [u8; 3] = [0x11, 0x22, 0x80];
    // 3 data disks, slots 1..=3.
    let n = d.len();

    // The walk: wq = d[z0]; stepping down: wq = (wq*2) ^ d[z].
    let z0 = n - 1;
    let mut wq: u8 = d[z0];
    for z in (0..z0).rev() {
        wq = gf_mul(wq, 2) ^ d[z];
    }

    // Closed form: Q = XOR over slots j of g^(j-1) * D_j.
    let mut q: u8 = 0;
    for j in 1..=n {
        q ^= gf_mul(gf_exp((j - 1) as i32), d[j - 1]);
    }
    assert_eq!(wq, q, "gen_syndrome walk vs closed-form Q");
}

#[test]
fn recover_one_disk_via_q() {
    // Reconstruct slot k (1-based) from Q + the other slots:
    // D_k = g^-(k-1) * (Q XOR XOR_{j!=k} g^(j-1) * D_j).
    let d: [u8; 4] = [0x01, 0x02, 0x04, 0x08];
    let n = d.len();
    let mut q: u8 = 0;
    for j in 1..=n {
        q ^= gf_mul(gf_exp((j - 1) as i32), d[j - 1]);
    }
    let k = 2;
    let mut acc: u8 = q;
    for j in 1..=n {
        if j == k {
            continue;
        }
        acc ^= gf_mul(gf_exp((j - 1) as i32), d[j - 1]);
    }
    let recovered = gf_mul(gf_exp(-((k - 1) as i32)), acc);
    assert_eq!(recovered, d[k - 1]);
}

#[test]
fn field_tables_have_known_entries() {
    // 0x80 * 2 wraps through the field polynomial 0x11d.
    assert_eq!(gf_mul(0x80, 2), 0x1d);
    assert_eq!(gf_mul(0x53, 0xca), gf_mul(0xca, 0x53));
    assert_eq!(gf_exp(8), 0x1d);
    assert_eq!(gf_inv(0), 0);
    assert_eq!(gf_inv(2), 0x8e);
    assert_eq!(gf_pow(2, 8), 0x1d);
    assert_eq!(gf_pow(3, 0), 1);
    let exi = gf::build_gfexi();
    for e in 1..255usize {
        assert_eq!(gf_mul(exi[e], gf_exp(e as i32) ^ 1), 1, "entry {e}");
    }
    assert_eq!(gf::build_gfinv()[2], 0x8e);
    assert_eq!(gf::gf_pow_const(2, 9), 0x3a);
    assert_eq!(gf::gfmul_row(2)[0x80], gf::gf_mul_scalar(2, 0x80));
}

#[test]
fn every_lost_disk_comes_back_from_each_path() {
    let stripe = Stripe::new(BLOCK, 6, 0x77);
    for failing in 1..=6u64 {
        let golden = stripe.chunk(failing).to_vec();
        let others = stripe.others(failing);
        assert_eq!(
            recover_via_p(&golden, &others, &stripe.p, BLOCK),
            golden,
            "P, slot {failing}"
        );
        for partner in 1..=6u64 {
            let solved =
                solve_two_disk(&stripe.p, &stripe.q, &others, partner, failing, BLOCK);
            if partner == failing {
                assert!(solved.is_none());
            } else {
                assert_eq!(solved.unwrap(), golden, "PQ, slots {failing} and {partner}");
            }
        }
    }
}

#[test]
fn absent_parity_is_named_in_the_reasons() {
    let stripe = Stripe::new(BLOCK, 3, 0x31);
    let golden = stripe.chunk(1).to_vec();
    let bad = corrupt(&golden);
    let others = stripe.others(1);
    let v = |b: &[u8]| b == golden;
    let input = RecoveryInput {
        failing_slot: 1,
        corrupt_block: &bad,
        unreadable_source: false,
        other_blocks: &others,
        p_block: None,
        q_block: None,
        verifier: &v,
    };
    match recover_block(&input, BLOCK) {
        RecoveryResult::Failed {
            reason: FailureReason::NoQPathAndPFailed { p_reason },
        } => assert!(matches!(
            *p_reason,
            FailureReason::ParityAbsent { via: ParityPath::P }
        )),
        other => panic!("got {other:?}"),
    }
}
