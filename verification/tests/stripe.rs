//! Stripe chunks, parity syndromes, the parity canary and one-sector recovery,
//! over disks in memory.

use std::cell::RefCell;
use std::collections::BTreeMap;

use scrub_rs::array::config::ArrayConfig;
use scrub_rs::array::parity::{
    compute_p, compute_p_with_override, compute_q, compute_q_with_override, has_columns,
};
use scrub_rs::array::recover;
use scrub_rs::array::recover::{
    assess_sector, recover_sector, recover_sector_on, Fault, RecoverOpts, SectorRead,
};
use scrub_rs::array::resolve::ResolvedLocation;
use scrub_rs::array::stripe::{gather_stripe, in_range, read_block_or_zeros, write_block};
use scrub_rs::batch_recover::can_recover;
use scrub_rs::canary::{judge, reconstruct_block, CanaryError, Verdict};
use scrub_rs::recovery::gf::{gf_exp, gf_mul};

/// Disks by path. A path without a disk cannot be opened.
struct Disks {
    disks: RefCell<BTreeMap<String, Vec<u8>>>,
}

impl Disks {
    fn new(disks: Vec<(&str, Vec<u8>)>) -> Self {
        Disks {
            disks: RefCell::new(
                disks
                    .into_iter()
                    .map(|(p, d)| (p.to_string(), d))
                    .collect(),
            ),
        }
    }

    fn size(&self, path: &String) -> Result<u64, String> {
        match self.disks.borrow().get(path) {
            Some(d) => Ok(d.len() as u64),
            None => Err(format!("not found: {path}")),
        }
    }

    fn read(&self, path: &String, pos: u64, len: usize) -> Result<Vec<u8>, String> {
        match self.disks.borrow().get(path) {
            Some(d) => Ok(d[pos as usize..pos as usize + len].to_vec()),
            None => Err(format!("not found: {path}")),
        }
    }

    fn write(&self, path: &String, pos: u64, data: &[u8]) -> Result<(), String> {
        let mut disks = self.disks.borrow_mut();
        let d = disks.get_mut(path).ok_or("not found".to_string())?;
        d[pos as usize..pos as usize + data.len()].copy_from_slice(data);
        Ok(())
    }
}

fn config(
    data: Vec<(u64, &str)>,
    p: Option<&str>,
    q: Option<&str>,
    offsets: Vec<(&str, u64)>,
) -> ArrayConfig {
    ArrayConfig {
        data_devs: data.into_iter().map(|(s, d)| (s, d.to_string())).collect(),
        parity_p: p.map(|s| s.to_string()),
        parity_q: q.map(|s| s.to_string()),
        rdev_offsets: offsets.into_iter().map(|(d, o)| (d.to_string(), o)).collect(),
    }
}

#[test]
fn gather_reads_aligned_chunks_across_disks() {
    let disks = Disks::new(vec![
        ("d1", vec![0x11; 4096]),
        ("d2", vec![0x22; 4096]),
        ("d3", vec![0x33; 4096]),
        ("p", vec![0x44; 4096]),
    ]);
    let cfg = config(vec![(1, "d1"), (2, "d2"), (3, "d3")], Some("p"), None, vec![]);
    let chunks = gather_stripe(
        &cfg,
        1,
        0,
        4,
        &|p: &String| disks.size(p),
        &|p: &String, o: u64, n: usize| disks.read(p, o, n),
    )
    .unwrap();

    assert_eq!(chunks.other_data.len(), 2);
    let (s2, b2) = &chunks.other_data[0];
    let (s3, b3) = &chunks.other_data[1];
    assert_eq!(*s2, 2);
    assert_eq!(b2, &[0x22; 4]);
    assert_eq!(*s3, 3);
    assert_eq!(b3, &[0x33; 4]);
    assert_eq!(chunks.p_block.as_deref(), Some(&[0x44; 4][..]));
    assert!(chunks.q_block.is_none());
}

#[test]
fn gather_zero_pads_past_smaller_disk_end() {
    let disks = Disks::new(vec![("d1", vec![0x11; 8192]), ("d2", vec![0x22; 4096])]);
    let cfg = config(vec![(1, "d1"), (2, "d2")], None, None, vec![]);
    let size = |p: &String| disks.size(p);
    let read = |p: &String, o: u64, n: usize| disks.read(p, o, n);

    let chunks = gather_stripe(&cfg, 1, 4096, 4096, &size, &read).unwrap();
    let other: BTreeMap<u64, Vec<u8>> = chunks.other_data.iter().cloned().collect();

    assert_eq!(other.len(), 1);
    assert!(other.contains_key(&2));
    assert_eq!(other.get(&2).unwrap(), &vec![0u8; 4096]);

    let chunks0 = gather_stripe(&cfg, 1, 0, 4096, &size, &read).unwrap();
    let other0: BTreeMap<u64, Vec<u8>> = chunks0.other_data.iter().cloned().collect();
    assert_eq!(other0.get(&2).unwrap(), &vec![0x22; 4096]);
}

#[test]
fn gather_missing_disk_is_a_hard_error() {
    let disks = Disks::new(vec![("d1", vec![0x11; 8192])]);
    let cfg = config(vec![(1, "d1"), (2, "does-not-exist")], None, None, vec![]);
    let err = gather_stripe(
        &cfg,
        1,
        0,
        4096,
        &|p: &String| disks.size(p),
        &|p: &String, o: u64, n: usize| disks.read(p, o, n),
    )
    .unwrap_err();
    assert_eq!(
        err, "not found: does-not-exist",
        "missing disk must surface as an open error, not zeros"
    );
}

#[test]
fn gather_zero_fills_only_the_straddle_tail() {
    let mut d2 = vec![0x22u8; 4096];
    d2.extend(vec![0x33u8; 2048]);
    let disks = Disks::new(vec![("d1", vec![0x11; 8192]), ("d2", d2)]);
    let cfg = config(vec![(1, "d1"), (2, "d2")], None, None, vec![]);
    let chunks = gather_stripe(
        &cfg,
        1,
        4096,
        4096,
        &|p: &String| disks.size(p),
        &|p: &String, o: u64, n: usize| disks.read(p, o, n),
    )
    .unwrap();
    let other: BTreeMap<u64, Vec<u8>> = chunks.other_data.iter().cloned().collect();
    let b = other.get(&2).unwrap();
    assert_eq!(
        &b[..2048],
        &vec![0x33u8; 2048],
        "real bytes inside the device"
    );
    assert_eq!(&b[2048..], &vec![0u8; 2048], "tail past the end zero-filled");
}

#[test]
fn gather_adds_per_disk_rdev_offset() {
    let mut d1 = vec![0u8; 64 * 1024];
    d1[32 * 1024] = 0xAA;
    let mut d2 = vec![0u8; 32 * 1024 * 1024 + 4096];
    d2[32 * 1024 * 1024] = 0xBB;
    let disks = Disks::new(vec![("d1", d1), ("d2", d2)]);
    let cfg = config(
        vec![(1, "d1"), (2, "d2")],
        None,
        None,
        vec![("d1", 32 * 1024), ("d2", 32 * 1024 * 1024)],
    );

    let chunks = gather_stripe(
        &cfg,
        1,
        0,
        4,
        &|p: &String| disks.size(p),
        &|p: &String, o: u64, n: usize| disks.read(p, o, n),
    )
    .unwrap();
    let other: BTreeMap<u64, Vec<u8>> = chunks.other_data.iter().cloned().collect();
    let b2 = other.get(&2).unwrap();
    assert_eq!(b2[0], 0xBB, "d2 chunk must be read at its 32M rdevOffset");
    assert_eq!(&b2[1..], &[0u8; 3]);

    assert!(!other.contains_key(&1));
}

#[test]
fn blocks_are_read_and_written_at_the_disk_offset() {
    let disks = Disks::new(vec![("d1", (0..=255u8).collect())]);
    let cfg = config(vec![(1, "d1")], None, None, vec![("d1", 16)]);
    let size = |p: &String| disks.size(p);
    let read = |p: &String, o: u64, n: usize| disks.read(p, o, n);
    let path = "d1".to_string();
    let b = read_block_or_zeros(&cfg, &path, 4, 4, &size, &read).unwrap();
    assert_eq!(b, vec![20, 21, 22, 23]);
    write_block(&cfg, &path, 4, &[9, 9], &|p: &String, o: u64, d: &[u8]| {
        disks.write(p, o, d)
    })
    .unwrap();
    let b = read_block_or_zeros(&cfg, &path, 4, 4, &size, &read).unwrap();
    assert_eq!(b, vec![9, 9, 22, 23]);
    let past = read_block_or_zeros(&cfg, &path, 240, 4, &size, &read).unwrap();
    assert_eq!(past, vec![0u8; 4]);
}

#[test]
fn only_bytes_past_the_end_read_as_zeros() {
    let mut image = vec![0x11u8; 4096];
    image.extend(vec![0x22u8; 4096]);
    image.extend(vec![0x33u8; 4096]);
    let disks = Disks::new(vec![("img", image)]);
    let cfg = config(vec![(1, "img")], None, None, vec![]);
    let path = "img".to_string();
    let size = |p: &String| disks.size(p);
    let read = |p: &String, o: u64, n: usize| disks.read(p, o, n);
    let block = |at: u64| read_block_or_zeros(&cfg, &path, at, 4096, &size, &read).unwrap();
    assert_eq!(block(0), vec![0x11u8; 4096]);
    assert_eq!(block(4096), vec![0x22u8; 4096]);
    assert_eq!(block(8192), vec![0x33u8; 4096]);
    let s = block(8192 + 2048);
    assert_eq!(&s[..2048], &vec![0x33u8; 2048]);
    assert_eq!(&s[2048..], &vec![0u8; 2048]);
    assert_eq!(block(12288), vec![0u8; 4096]);
}

#[test]
fn arrays_outside_the_arithmetic_are_told_apart() {
    let cfg = config(vec![(1, "a"), (2, "b")], Some("p"), Some("q"), vec![("b", 10)]);
    assert!(in_range(&cfg, u64::MAX - 10));
    assert!(!in_range(&cfg, u64::MAX - 9), "past the end of b");
    assert!(has_columns(&cfg));
    assert!(can_recover(&cfg, 1));

    let no_column = config(vec![(1, "a"), (0x8000_0000, "b")], Some("p"), Some("q"), vec![]);
    assert!(!has_columns(&no_column));
    assert!(!can_recover(&no_column, 1));

    // Two-disk solves look coefficients up by slot.
    let far = config(vec![(1, "a"), (257, "b")], Some("p"), Some("q"), vec![]);
    assert!(has_columns(&far));
    assert!(!can_recover(&far, 1));
    let p_only = config(vec![(1, "a"), (257, "b")], Some("p"), None, vec![]);
    assert!(can_recover(&p_only, 1));
}

#[test]
fn syndromes_are_those_of_the_data_disks() {
    let disks = Disks::new(vec![
        ("d1", vec![0x11, 0x80]),
        ("d2", vec![0x22, 0x01]),
        ("d3", vec![0x44, 0x02]),
    ]);
    let cfg = config(vec![(1, "d1"), (2, "d2"), (3, "d3")], None, None, vec![]);
    let size = |p: &String| disks.size(p);
    let read = |p: &String, o: u64, n: usize| disks.read(p, o, n);
    assert_eq!(
        compute_p(&cfg, 0, 2, &size, &read).unwrap(),
        vec![0x77, 0x83]
    );
    let q0 = 0x11 ^ gf_mul(2, 0x22) ^ gf_mul(4, 0x44);
    let q1 = 0x80 ^ gf_mul(gf_exp(1), 0x01) ^ gf_mul(gf_exp(2), 0x02);
    assert_eq!(compute_q(&cfg, 0, 2, &size, &read).unwrap(), vec![q0, q1]);
    assert_eq!(
        compute_p_with_override(&cfg, 2, &[0x22, 0x01], 0, 2, &size, &read).unwrap(),
        vec![0x77, 0x83],
        "a disk's own block changes nothing"
    );
    assert_eq!(
        compute_p_with_override(&cfg, 2, &[0, 0], 0, 2, &size, &read).unwrap(),
        vec![0x55, 0x82]
    );
    assert_eq!(
        compute_q_with_override(&cfg, 2, &[0x22], 0, 2, &size, &read).unwrap(),
        vec![q0, 0x80 ^ gf_mul(4, 0x02)],
        "a short block stands for zeros behind it"
    );
    let gone = config(vec![(1, "d1"), (2, "none")], None, None, vec![]);
    assert!(compute_p(&gone, 0, 2, &size, &read).is_err());
    assert_eq!(
        compute_p_with_override(&gone, 2, &[0, 0], 0, 2, &size, &read).unwrap(),
        vec![0x11, 0x80],
        "an overridden disk is not read"
    );
}

#[test]
fn override_changes_one_part_of_the_parity() {
    let disks = Disks::new(vec![
        ("d1", vec![0x11, 0x80]),
        ("d2", vec![0x22, 0x01]),
        ("d3", vec![0x44, 0x02]),
    ]);
    let cfg = config(vec![(1, "d1"), (2, "d2"), (3, "d3")], None, None, vec![]);
    let size = |p: &String| disks.size(p);
    let read = |p: &String, o: u64, n: usize| disks.read(p, o, n);
    let p = compute_p(&cfg, 0, 2, &size, &read).unwrap();
    let q = compute_q(&cfg, 0, 2, &size, &read).unwrap();
    let stand_in = [0xa5u8, 0x3c];
    for (slot, own, factor) in [
        (1, [0x11u8, 0x80], 1),
        (2, [0x22, 0x01], 2),
        (3, [0x44, 0x02], 4),
    ] {
        let over_p = compute_p_with_override(&cfg, slot, &stand_in, 0, 2, &size, &read).unwrap();
        let over_q = compute_q_with_override(&cfg, slot, &stand_in, 0, 2, &size, &read).unwrap();
        for i in 0..2 {
            assert_eq!(over_p[i] ^ p[i], stand_in[i] ^ own[i], "P, slot {slot}");
            assert_eq!(
                over_q[i] ^ q[i],
                gf_mul(factor, stand_in[i] ^ own[i]),
                "Q, slot {slot}"
            );
        }
    }
    assert_eq!(
        compute_p_with_override(&cfg, 9, &stand_in, 0, 2, &size, &read).unwrap(),
        p,
        "slot 9 has no disk"
    );
    assert_eq!(
        compute_q_with_override(&cfg, 9, &stand_in, 0, 2, &size, &read).unwrap(),
        q
    );
    assert_eq!(
        compute_p_with_override(&cfg, 9, &[1, 2, 3], 0, 2, &size, &read).unwrap(),
        p,
        "and its block may have any length"
    );
}

#[test]
fn failing_disk_itself_is_not_read() {
    let disks = Disks::new(vec![
        ("d1", vec![0x10; 8]),
        ("d2", vec![0x02; 8]),
        ("p", vec![0x12; 8]),
    ]);
    let cfg = config(vec![(1, "d1"), (2, "d2")], Some("p"), None, vec![]);
    let asked = RefCell::new(vec![]);
    let size = |p: &String| disks.size(p);
    let read = |p: &String, o: u64, n: usize| {
        asked.borrow_mut().push(p.clone());
        disks.read(p, o, n)
    };
    gather_stripe(&cfg, 1, 0, 8, &size, &read).unwrap();
    assert_eq!(asked.take(), ["d2", "p"]);
    reconstruct_block(&cfg, 1, 0, 8, &size, &read).unwrap();
    assert_eq!(asked.take(), ["d2", "p"]);
    compute_p_with_override(&cfg, 1, &[0; 8], 0, 8, &size, &read).unwrap();
    assert_eq!(asked.take(), ["d2"]);
    compute_q_with_override(&cfg, 2, &[0; 8], 0, 8, &size, &read).unwrap();
    assert_eq!(asked.take(), ["d1"]);
}

#[test]
fn canary_reconstructs_the_missing_block() {
    let disks = Disks::new(vec![
        ("d1", vec![0x10; 8]),
        ("d2", vec![0x02; 8]),
        ("p", vec![0x12; 8]),
    ]);
    let cfg = config(vec![(1, "d1"), (2, "d2")], Some("p"), None, vec![]);
    let size = |p: &String| disks.size(p);
    let read = |p: &String, o: u64, n: usize| disks.read(p, o, n);
    assert_eq!(
        reconstruct_block(&cfg, 1, 0, 8, &size, &read).unwrap(),
        vec![0x10; 8]
    );
    let no_p = config(vec![(1, "d1"), (2, "d2")], None, None, vec![]);
    assert!(matches!(
        reconstruct_block(&no_p, 1, 0, 8, &size, &read),
        Err(CanaryError::NoParity)
    ));
    let neither = config(vec![(1, "d1"), (2, "none")], None, None, vec![]);
    assert!(
        matches!(
            reconstruct_block(&neither, 1, 0, 8, &size, &read),
            Err(CanaryError::Read(_))
        ),
        "the stripe is read before parity is asked for"
    );
    let gone = config(vec![(1, "d1"), (2, "none")], Some("p"), None, vec![]);
    assert!(matches!(
        reconstruct_block(&gone, 1, 0, 8, &size, &read),
        Err(CanaryError::Read(_))
    ));
}

#[test]
fn only_a_rebuilt_superblock_with_magic_is_sound() {
    let magic = |b: &[u8]| b == &b"magic"[..];
    let good: Result<Vec<u8>, CanaryError<String>> = Ok(b"magic".to_vec());
    assert!(matches!(judge(good, &magic), Verdict::Sound));
    let blank: Result<Vec<u8>, CanaryError<String>> = Ok(vec![0; 5]);
    assert!(matches!(judge(blank, &magic), Verdict::NoMagic));
    let none: Result<Vec<u8>, CanaryError<String>> = Err(CanaryError::NoParity);
    assert!(matches!(
        judge(none, &magic),
        Verdict::NotRebuilt(CanaryError::NoParity)
    ));
    match judge(Err(CanaryError::Read("EIO".to_string())), &magic) {
        Verdict::NotRebuilt(CanaryError::Read(e)) => assert_eq!(e, "EIO"),
        other => panic!("got {other:?}"),
    }
}

// ---------------------------------------------------------------------------
// One sector
// ---------------------------------------------------------------------------

fn location(raw: u64) -> ResolvedLocation {
    ResolvedLocation {
        devid: 1,
        dev_path: "d1".to_string(),
        raw_phys: raw,
        array_phys: raw,
    }
}

fn ask(disks: &Disks, path: &String, pos: u64, len: usize) -> SectorRead {
    match disks.disks.borrow().get(path) {
        None => SectorRead::OpenFailed {
            fault: Fault::NotFound,
            message: "gone".to_string(),
        },
        Some(d) => {
            let from = (pos as usize).min(d.len());
            let to = (pos as usize + len).min(d.len());
            SectorRead::Bytes(d[from..to].to_vec())
        }
    }
}

#[test]
fn sector_is_recovered_through_each_path_and_written_back() {
    let good: Vec<u8> = (0..16u8).collect();
    let d2: Vec<u8> = (0..16u8).map(|i| i * 3 + 1).collect();
    let d3: Vec<u8> = (0..16u8).map(|i| i * 5 + 7).collect();
    let p: Vec<u8> = (0..16).map(|i| good[i] ^ d2[i] ^ d3[i]).collect();
    let q: Vec<u8> = (0..16)
        .map(|i| good[i] ^ gf_mul(2, d2[i]) ^ gf_mul(4, d3[i]))
        .collect();
    let expected = crc32c::crc32c(&good);
    let mut bad = good.clone();
    bad[3] ^= 0x40;
    let bad_p: Vec<u8> = (0..16).map(|i| bad[i] ^ d2[i] ^ d3[i]).collect();
    let mut bad_d3 = d3.clone();
    bad_d3[9] ^= 1;
    let cfg = config(
        vec![(1, "d1"), (2, "d2"), (3, "d3")],
        Some("p"),
        Some("q"),
        vec![],
    );
    let cases: Vec<(Vec<u8>, Vec<u8>, recover::ParityPath)> = vec![
        (p.clone(), d3.clone(), recover::ParityPath::P),
        (bad_p, d3.clone(), recover::ParityPath::Q),
        (p.clone(), bad_d3, recover::ParityPath::PQ { partner_slot: 3 }),
    ];
    for (p_disk, d3_disk, path) in cases {
        let disks = Disks::new(vec![
            ("d1", bad.clone()),
            ("d2", d2.clone()),
            ("d3", d3_disk),
            ("p", p_disk),
            ("q", q.clone()),
        ]);
        for dry_run in [true, false] {
            let r = recover_sector(
                &cfg,
                &location(0),
                expected,
                16,
                RecoverOpts { dry_run },
                &|path: &String, pos: u64, n: usize| ask(&disks, path, pos, n),
                &|path: &String, pos: u64, d: &[u8]| disks.write(path, pos, d),
            );
            match r {
                recover::RecoveryResult::Recovered {
                    via,
                    expected_csum,
                    recovered_csum,
                    written,
                    location,
                } => {
                    assert_eq!(via, path);
                    assert_eq!(expected_csum, expected);
                    assert_eq!(recovered_csum, expected);
                    assert_eq!(written, !dry_run);
                    assert_eq!(location.dev_path, "d1");
                }
                other => panic!("got {other:?}"),
            }
            let on_disk = disks.disks.borrow().get("d1").unwrap().clone();
            assert_eq!(on_disk, if dry_run { bad.clone() } else { good.clone() });
        }
    }
    assert!(RecoverOpts::default().dry_run);
}

#[test]
fn assessing_a_sector_writes_nothing() {
    let good = vec![6u8; 8];
    let expected = crc32c::crc32c(&good);
    let disks = Disks::new(vec![
        ("d1", vec![1u8; 8]),
        ("d2", vec![2u8; 8]),
        ("p", vec![4u8; 8]),
    ]);
    let device = |path: &String, pos: u64, n: usize| ask(&disks, path, pos, n);
    let cfg = config(vec![(1, "d1"), (2, "d2")], Some("p"), None, vec![]);
    match assess_sector(&cfg, &location(0), expected, 8, &device) {
        Some(recover::RecoveryResult::Recovered {
            via,
            recovered_csum,
            written,
            ..
        }) => {
            assert_eq!(via, recover::ParityPath::P);
            assert_eq!(recovered_csum, expected);
            assert!(!written);
        }
        other => panic!("got {other:?}"),
    }
    assert_eq!(disks.disks.borrow().get("d1").unwrap(), &vec![1u8; 8]);
    assert!(matches!(
        assess_sector(&cfg, &location(0), crc32c::crc32c(&[1u8; 8]), 8, &device),
        Some(recover::RecoveryResult::NotCorrupt { .. })
    ));
    assert!(matches!(
        assess_sector(&cfg, &location(0), 0xdead_beef, 8, &device),
        Some(recover::RecoveryResult::Failed { .. })
    ));
    let far = config(vec![(1, "d1"), (300, "d2")], Some("p"), Some("q"), vec![]);
    assert!(assess_sector(&far, &location(0), expected, 8, &device).is_none());
}

#[test]
fn sector_that_matches_is_not_touched() {
    let good = vec![7u8; 8];
    let disks = Disks::new(vec![("d1", good.clone())]);
    let cfg = config(vec![(1, "d1")], None, None, vec![]);
    let r = recover_sector(
        &cfg,
        &location(0),
        crc32c::crc32c(&good),
        8,
        RecoverOpts { dry_run: false },
        &|path: &String, pos: u64, n: usize| ask(&disks, path, pos, n),
        &|_p: &String, _o: u64, _d: &[u8]| Err("must not be written".to_string()),
    );
    assert!(matches!(
        r,
        recover::RecoveryResult::NotCorrupt { on_disk_csum, .. } if on_disk_csum == crc32c::crc32c(&good)
    ));
}

#[test]
fn coefficients_are_asked_for_only_where_they_are_needed() {
    let good = vec![7u8; 8];
    let disks = Disks::new(vec![
        ("d1", good.clone()),
        ("d2", vec![2u8; 8]),
        ("p", vec![5u8; 8]),
        ("q", vec![9u8; 8]),
    ]);
    let no_write = |_p: &String, _o: u64, _d: &[u8]| Err("must not be written".to_string());
    let opts = RecoverOpts { dry_run: true };
    let far = config(vec![(1, "d1"), (300, "d2")], Some("p"), Some("q"), vec![]);
    let device = |path: &String, pos: u64, n: usize| ask(&disks, path, pos, n);
    // A block that matches needs no parity, and so no coefficient of slot 300.
    let r = recover_sector(
        &far,
        &location(0),
        crc32c::crc32c(&good),
        8,
        opts,
        &device,
        &no_write,
    );
    assert!(matches!(r, recover::RecoveryResult::NotCorrupt { .. }));
    assert!(
        recover_sector_on(&far, &location(0), 1, 8, opts, &device, &no_write).is_none(),
        "the two-disk solve might need it"
    );
    let near = config(vec![(1, "d1"), (3, "d2")], Some("p"), Some("q"), vec![]);
    let r = recover_sector_on(
        &near,
        &location(0),
        crc32c::crc32c(&good),
        8,
        opts,
        &device,
        &no_write,
    );
    assert!(matches!(r, Some(recover::RecoveryResult::NotCorrupt { .. })));
}

#[test]
fn sector_failures_carry_their_reasons() {
    let disks = Disks::new(vec![("d1", vec![1u8; 8]), ("d2", vec![2u8; 8])]);
    let no_write = |_p: &String, _o: u64, _d: &[u8]| Err("must not be written".to_string());
    let opts = RecoverOpts { dry_run: false };
    let single = config(vec![(1, "d1"), (2, "d2")], None, None, vec![]);
    let r = recover_sector(
        &single,
        &location(0),
        0xdead_beef,
        8,
        opts,
        &|path: &String, pos: u64, n: usize| ask(&disks, path, pos, n),
        &no_write,
    );
    match r {
        recover::RecoveryResult::Failed {
            reason: recover::FailureReason::BothPathsFailed { p_reason, q_reason },
            ..
        } => {
            assert!(matches!(*p_reason, recover::FailureReason::Io(ref m)
                if m == "no primary parity disk in array config"));
            assert!(matches!(*q_reason, recover::FailureReason::Io(ref m)
                if m == "no secondary parity (Q) disk in array config"));
        }
        other => panic!("got {other:?}"),
    }

    let broken = |_p: &String, _o: u64, _n: usize| SectorRead::ReadFailed {
        fault: Fault::Other,
        message: "EIO".to_string(),
    };
    let r = recover_sector(&single, &location(0), 1, 8, opts, &broken, &no_write);
    assert!(matches!(r, recover::RecoveryResult::Failed {
        reason: recover::FailureReason::Io(ref m), .. } if m == "read failing disk: EIO"));

    let second = |p: &String, o: u64, n: usize| {
        if p == "d2" {
            SectorRead::SeekFailed {
                fault: Fault::Other,
                message: "EIO".to_string(),
            }
        } else {
            ask(&disks, p, o, n)
        }
    };
    let r = recover_sector(&single, &location(0), 1, 8, opts, &second, &no_write);
    assert!(matches!(r, recover::RecoveryResult::Failed {
        reason: recover::FailureReason::Io(ref m), .. } if m == "read data disk d2: EIO"));

    // A disk that is gone counts as zeros: P then gives d2's complement.
    let cfg = config(vec![(1, "d1"), (2, "gone")], Some("p"), None, vec![]);
    let disks = Disks::new(vec![("d1", vec![1u8; 8]), ("p", vec![5u8; 8])]);
    let r = recover_sector(
        &cfg,
        &location(0),
        crc32c::crc32c(&[5u8; 8]),
        8,
        opts,
        &|path: &String, pos: u64, n: usize| ask(&disks, path, pos, n),
        &no_write,
    );
    assert!(matches!(r, recover::RecoveryResult::Failed {
        reason: recover::FailureReason::Io(ref m), .. } if m == "write back: must not be written"));

    // P that reproduces the corruption is baked in.
    let disks = Disks::new(vec![
        ("d1", vec![1u8; 8]),
        ("d2", vec![2u8; 8]),
        ("p", vec![3u8; 8]),
        ("q", vec![1 ^ gf_mul(2, 2); 8]),
    ]);
    let cfg = config(vec![(1, "d1"), (2, "d2")], Some("p"), Some("q"), vec![]);
    let r = recover_sector(
        &cfg,
        &location(0),
        0xdead_beef,
        8,
        opts,
        &|path: &String, pos: u64, n: usize| ask(&disks, path, pos, n),
        &no_write,
    );
    match r {
        recover::RecoveryResult::Failed {
            reason:
                recover::FailureReason::AllPathsFailed {
                    p_reason,
                    q_reason,
                    pq_partners_tried,
                },
            ..
        } => {
            assert!(matches!(*p_reason, recover::FailureReason::ParityBakedIn));
            assert!(matches!(
                *q_reason,
                recover::FailureReason::CsumMismatch {
                    via: recover::ParityPath::Q,
                    expected_csum: 0xdead_beef,
                    ..
                }
            ));
            assert_eq!(pq_partners_tried, vec![2]);
        }
        other => panic!("got {other:?}"),
    }
}

#[test]
fn short_and_failed_reads_become_zeros_or_errors() {
    let block = recover::read_block_or_zeros;
    assert_eq!(block(SectorRead::Bytes(vec![1, 2]), 4).unwrap(), vec![1, 2, 0, 0]);
    let read = |fault| SectorRead::ReadFailed {
        fault,
        message: "m".to_string(),
    };
    assert_eq!(block(read(Fault::UnexpectedEof), 2).unwrap(), vec![0, 0]);
    assert_eq!(block(read(Fault::InvalidInput), 2).unwrap(), vec![0, 0]);
    assert_eq!(block(read(Fault::NotFound), 2).unwrap_err(), "m");
    let open = |fault| SectorRead::OpenFailed {
        fault,
        message: "m".to_string(),
    };
    assert_eq!(block(open(Fault::PermissionDenied), 1).unwrap(), vec![0]);
    assert_eq!(block(open(Fault::InvalidInput), 1).unwrap_err(), "m");
    let seek = |fault| SectorRead::SeekFailed {
        fault,
        message: "m".to_string(),
    };
    assert_eq!(block(seek(Fault::InvalidInput), 1).unwrap(), vec![0]);
    assert_eq!(block(seek(Fault::Other), 1).unwrap_err(), "m");
}
