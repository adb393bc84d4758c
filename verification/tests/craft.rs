//! Crafted corruptions: arguments, the sector's place, what is written, and the
//! way back.

use std::cell::RefCell;
use std::collections::BTreeMap;

use scrub_rs::array::config::ArrayConfig;
use scrub_rs::array::parity::{compute_p, compute_q};
use scrub_rs::array::stripe::gather_stripe;
use scrub_rs::btrfs::chunk::{ChunkItem, ChunkMap, ChunkRecord, Stripe};
use scrub_rs::btrfs::extent::FileExtent;
use scrub_rs::craft::restore::{find_partner, restore, RestoreError};
use scrub_rs::craft::{
    find_file_sector, parse_args, parse_flip, plan_corruption, writes, ArgError, CraftError,
    CraftFlag, FindError, Opts, Plan, Targets, BLOCK,
};
use scrub_rs::recovery::{recover_block, ParityPath, RecoveryInput, RecoveryResult};
use scrub_rs::text::IntError;

struct Disks {
    disks: RefCell<BTreeMap<String, Vec<u8>>>,
    refuse_write_to: RefCell<Option<String>>,
}

impl Disks {
    /// Three data disks with P and Q in sync, two blocks each.
    fn in_sync() -> Self {
        let d = Disks {
            disks: RefCell::new(BTreeMap::new()),
            refuse_write_to: RefCell::new(None),
        };
        for (name, seed) in [("d1", 3usize), ("d2", 5), ("d3", 11)] {
            let bytes = (0..2 * BLOCK).map(|i| (i * seed / 7) as u8).collect();
            d.disks.borrow_mut().insert(name.to_string(), bytes);
        }
        let mut p = vec![];
        let mut q = vec![];
        for at in [0, BLOCK as u64] {
            p.extend(compute_p(&cfg(), at, BLOCK, &|x: &String| d.size(x), &|x: &String, o: u64, n: usize| d.read(x, o, n)).unwrap());
            q.extend(compute_q(&cfg(), at, BLOCK, &|x: &String| d.size(x), &|x: &String, o: u64, n: usize| d.read(x, o, n)).unwrap());
        }
        d.disks.borrow_mut().insert("p".to_string(), p);
        d.disks.borrow_mut().insert("q".to_string(), q);
        d
    }

    fn size(&self, path: &String) -> Result<u64, String> {
        match self.disks.borrow().get(path) {
            Some(d) => Ok(d.len() as u64),
            None => Err(format!("not found: {path}")),
        }
    }

    fn read(&self, path: &String, pos: u64, len: usize) -> Result<Vec<u8>, String> {
        match self.disks.borrow().get(path) {
            Some(d) => Ok(d[pos as usize..pos as usize + len].to_vec()),
            None => Err(format!("not found: {path}")),
        }
    }

    fn write(&self, path: &String, pos: u64, data: &[u8]) -> Result<(), String> {
        if self.refuse_write_to.borrow().as_ref() == Some(path) {
            return Err(format!("refused: {path}"));
        }
        let mut disks = self.disks.borrow_mut();
        let d = disks.get_mut(path).ok_or("not found".to_string())?;
        d[pos as usize..pos as usize + data.len()].copy_from_slice(data);
        Ok(())
    }

    fn plan(&self, opts: &Opts) -> Result<Plan, CraftError<String>> {
        self.plan_on(&cfg(), opts)
    }

    fn plan_on(&self, cfg: &ArrayConfig, opts: &Opts) -> Result<Plan, CraftError<String>> {
        plan_corruption(
            cfg,
            1,
            BLOCK as u64,
            opts,
            &|x: &String| self.size(x),
            &|x: &String, o: u64, n: usize| self.read(x, o, n),
        )
    }

    fn carry_out(&self, plan: &Plan) -> Vec<String> {
        let mut names = vec![];
        for w in writes(plan) {
            self.write(&w.path, BLOCK as u64, &w.block).unwrap();
            names.push(w.path);
        }
        names
    }

    fn restore(
        &self,
        saved: &Vec<u8>,
        partner: Result<Option<Vec<u8>>, String>,
    ) -> Result<Option<u64>, RestoreError<String>> {
        restore(
            &cfg(),
            1,
            BLOCK as u64,
            saved,
            &|x: &String| self.size(x),
            &|x: &String, o: u64, n: usize| self.read(x, o, n),
            &|x: &String, o: u64, n: usize| self.read(x, o, n),
            &|x: &String, o: u64, b: &[u8]| self.write(x, o, b),
            &|| partner.clone(),
        )
    }

    fn recover(&self, good: &[u8]) -> RecoveryResult {
        let stripe = gather_stripe(
            &cfg(),
            1,
            BLOCK as u64,
            BLOCK,
            &|x: &String| self.size(x),
            &|x: &String, o: u64, n: usize| self.read(x, o, n),
        )
        .unwrap();
        let on_disk = self.read(&"d1".to_string(), BLOCK as u64, BLOCK).unwrap();
        recover_block(&RecoveryInput {
            failing_slot: 1,
            corrupt_block: &on_disk,
            unreadable_source: false,
            other_blocks: &stripe.other_data,
            p_block: stripe.p_block.as_deref(),
            q_block: stripe.q_block.as_deref(),
            verifier: &|b: &[u8]| b == good,
        }, BLOCK)
    }
}

fn cfg() -> ArrayConfig {
    ArrayConfig {
        data_devs: BTreeMap::from([
            (1, "d1".to_string()),
            (2, "d2".to_string()),
            (3, "d3".to_string()),
        ]),
        parity_p: Some("p".to_string()),
        parity_q: Some("q".to_string()),
        rdev_offsets: vec![],
    }
}

fn opts(targets: Targets) -> Opts {
    let mut o = Opts::default();
    o.targets = targets;
    o
}

fn words(args: &[&str]) -> Vec<String> {
    args.iter().map(|a| a.to_string()).collect()
}

// ---------------------------------------------------------------------------
// Arguments
// ---------------------------------------------------------------------------

#[test]
fn scenarios_are_named() {
    for (name, t) in [
        ("data", Targets::Data),
        ("bake-p", Targets::BakeP),
        ("bake-q", Targets::BakeQ),
        ("bake-both", Targets::BakeBoth),
        ("two-disk", Targets::TwoDisk),
    ] {
        assert_eq!(Targets::parse(name), Ok(t));
    }
    assert_eq!(
        Targets::parse("bake"),
        Err(
            "unknown --targets value: bake (expected: data, bake-p, bake-q, bake-both, two-disk)"
                .to_string()
        )
    );
}

#[test]
fn flips_are_hexadecimal_and_keep_the_low_byte() {
    assert_eq!(parse_flip("0x5a"), Ok(0x5a));
    assert_eq!(parse_flip("FF"), Ok(0xff));
    assert_eq!(parse_flip("0x0x10"), Ok(0x10));
    assert_eq!(parse_flip("1234"), Ok(0x34));
    assert_eq!(parse_flip("0x"), Err(IntError::Empty));
    assert_eq!(parse_flip("q"), Err(IntError::InvalidDigit));
    assert_eq!(parse_flip("10000000000000000"), Err(IntError::TooLarge));
}

#[test]
fn arguments_are_read_in_any_order() {
    let r = parse_args(&words(&["/dev/nmd1p1", "file"])).unwrap();
    assert_eq!((r.dev.as_str(), r.file_path.as_str()), ("/dev/nmd1p1", "file"));
    assert_eq!(r.opts.sector, 0);
    assert_eq!(r.opts.byte_offset, 100);
    assert_eq!(r.opts.flip, 0x5a);
    assert_eq!(r.opts.targets, Targets::BakeP);
    assert!(r.opts.partner_slot.is_none() && r.opts.backup.is_none() && r.opts.restore.is_none());

    let r = parse_args(&words(&[
        "--sector", "7", "/dev/nmd1p1", "--byte", "9", "--flip", "0x1", "--targets", "two-disk",
        "--partner", "3", "f", "--backup", "b", "--restore", "r",
    ]))
    .unwrap();
    assert_eq!(r.opts.sector, 7);
    assert_eq!(r.opts.byte_offset, 9);
    assert_eq!(r.opts.flip, 1);
    assert_eq!(r.opts.targets, Targets::TwoDisk);
    assert_eq!(r.opts.partner_slot, Some(3));
    assert_eq!(r.opts.backup.as_deref(), Some("b"));
    assert_eq!(r.opts.restore.as_deref(), Some("r"));
}

#[test]
fn refused_arguments_are_told_apart() {
    assert!(matches!(parse_args(&words(&["-h"])), Err(ArgError::Help)));
    assert!(matches!(
        parse_args(&words(&["a", "b", "--help"])),
        Err(ArgError::Help)
    ));
    assert!(matches!(
        parse_args(&words(&["a"])),
        Err(ArgError::Positional)
    ));
    assert!(matches!(
        parse_args(&words(&["a", "b", "c"])),
        Err(ArgError::Positional)
    ));
    match parse_args(&words(&["--what"])) {
        Err(ArgError::Unknown(a)) => assert_eq!(a, "--what"),
        other => panic!("got {other:?}"),
    }
    assert!(matches!(
        parse_args(&words(&["--sector"])),
        Err(ArgError::Missing(CraftFlag::Sector))
    ));
    assert!(matches!(
        parse_args(&words(&["--byte", "x"])),
        Err(ArgError::Invalid(CraftFlag::Byte))
    ));
    match parse_args(&words(&["--targets", "x"])) {
        Err(ArgError::BadTargets(m)) => assert!(m.starts_with("unknown --targets value: x")),
        other => panic!("got {other:?}"),
    }
}

// ---------------------------------------------------------------------------
// The sector's place
// ---------------------------------------------------------------------------

fn file_extent(disk_bytenr: u64, offset: u64, num_bytes: u64, inode: u64) -> FileExtent {
    FileExtent {
        inode,
        file_offset: 0,
        extent_type: 1,
        disk_bytenr,
        disk_num_bytes: num_bytes,
        offset,
        num_bytes,
    }
}

fn one_chunk(stripes: Vec<Stripe>) -> ChunkMap {
    let mut m = ChunkMap::default();
    m.insert(&ChunkRecord {
        logical: 0x10000,
        chunk: ChunkItem {
            length: 0x10000,
            stripe_len: 0x10000,
            ty: 1,
            num_stripes: stripes.len() as u16,
            stripes,
        },
    });
    m
}

#[test]
fn sectors_are_counted_over_all_extents() {
    let m = one_chunk(vec![Stripe {
        devid: 1,
        offset: 0x400000,
    }]);
    let exts = vec![
        file_extent(0x10000, 0x1000, 0x2000, 257),
        file_extent(0x18000, 0, 0x1fff, 258),
    ];
    let f = find_file_sector(&exts, 1, &m).unwrap();
    assert_eq!(
        (f.devid, f.array_phys, f.logical, f.inode),
        (1, 0x402000, 0x12000, 257)
    );
    let f = find_file_sector(&exts, 2, &m).unwrap();
    assert_eq!((f.array_phys, f.logical, f.inode), (0x408000, 0x18000, 258));
    assert_eq!(
        find_file_sector(&exts, 3, &m),
        Err(FindError::PastEnd { sector: 3 }),
        "a partial sector does not count"
    );
    assert_eq!(
        find_file_sector(&vec![], 0, &m),
        Err(FindError::NoExtents)
    );
    assert_eq!(
        find_file_sector(&vec![file_extent(0x90000, 0, 0x1000, 1)], 0, &m),
        Err(FindError::Unmapped { logical: 0x90000 })
    );
    assert_eq!(
        find_file_sector(&vec![file_extent(u64::MAX, 1, 0x1000, 1)], 0, &m),
        Err(FindError::Malformed)
    );
    assert_eq!(
        find_file_sector(&exts, 0, &one_chunk(vec![])),
        Err(FindError::Malformed)
    );
}

// ---------------------------------------------------------------------------
// Corrupting
// ---------------------------------------------------------------------------

#[test]
fn plans_flip_one_byte_and_touch_nothing() {
    let d = Disks::in_sync();
    let before = d.disks.borrow().clone();
    let plan = d.plan(&opts(Targets::Data)).unwrap();
    assert_eq!(*d.disks.borrow(), before);
    assert_eq!(plan.dev_path, "d1");
    let differing: Vec<usize> = (0..BLOCK).filter(|&i| plan.orig[i] != plan.corrupt[i]).collect();
    assert_eq!(differing, vec![100]);
    assert_eq!(plan.corrupt[100], plan.orig[100] ^ 0x5a);
    assert_ne!(plan.orig_csum, plan.corrupt_csum);
    assert_eq!(plan.p_expected, plan.p_before, "in sync");
    assert_eq!(plan.q_expected, plan.q_before, "in sync");
    assert_eq!(d.carry_out(&plan), vec!["d1"]);
}

#[test]
fn checksums_of_a_plan_are_crc32c() {
    let d = Disks::in_sync();
    d.disks
        .borrow_mut()
        .insert("d1".to_string(), vec![0; 2 * BLOCK]);
    let plan = d.plan(&opts(Targets::Data)).unwrap();
    assert_eq!(plan.orig_csum, crc32c::crc32c(&vec![0u8; BLOCK]));
    assert_eq!(plan.corrupt_csum, crc32c::crc32c(&plan.corrupt));
    assert_ne!(plan.p_expected, plan.p_before, "no longer in sync");
}

#[test]
fn scenarios_leave_the_recovery_paths_they_promise() {
    let cases = [
        (Targets::Data, vec!["d1"], Some(ParityPath::P)),
        (Targets::BakeP, vec!["d1", "p"], Some(ParityPath::Q)),
        (Targets::BakeQ, vec!["d1", "q"], Some(ParityPath::P)),
        (Targets::BakeBoth, vec!["d1", "p", "q"], None),
        (
            Targets::TwoDisk,
            vec!["d1", "d2"],
            Some(ParityPath::PQ { partner_slot: 2 }),
        ),
    ];
    for (targets, written, path) in cases {
        let d = Disks::in_sync();
        let plan = d.plan(&opts(targets)).unwrap();
        assert_eq!(d.carry_out(&plan), written, "{targets:?}");
        match (d.recover(&plan.orig), path) {
            (RecoveryResult::Recovered { via, block }, Some(path)) => {
                assert_eq!(via, path, "{targets:?}");
                assert_eq!(block, plan.orig);
            }
            (RecoveryResult::Failed { .. }, None) => {}
            (other, _) => panic!("{targets:?}: got {other:?}"),
        }
    }
}

#[test]
fn partners_are_chosen_or_given() {
    let d = Disks::in_sync();
    let mut o = opts(Targets::TwoDisk);
    let plan = d.plan(&o).unwrap();
    let partner = plan.partner.unwrap();
    assert_eq!((partner.slot, partner.path.as_str()), (2, "d2"));
    let differing: Vec<usize> = (0..BLOCK)
        .filter(|&i| partner.orig[i] != partner.corrupt[i])
        .collect();
    assert_eq!(differing, vec![101]);
    assert_eq!(partner.corrupt[101], partner.orig[101] ^ 0x5b);

    o.partner_slot = Some(3);
    o.byte_offset = 4095;
    let partner = d.plan(&o).unwrap().partner.unwrap();
    assert_eq!(partner.slot, 3);
    assert_ne!(partner.orig[0], partner.corrupt[0], "the flip wraps round");
}

#[test]
fn plans_are_refused_for_a_reason() {
    let d = Disks::in_sync();
    let mut o = opts(Targets::Data);
    o.flip = 0;
    assert!(matches!(d.plan(&o), Err(CraftError::SameChecksum)));

    let mut o = opts(Targets::TwoDisk);
    o.flip = 1;
    assert!(matches!(d.plan(&o), Err(CraftError::PartnerSameChecksum)));
    let mut o = opts(Targets::TwoDisk);
    o.partner_slot = Some(9);
    assert!(matches!(
        d.plan(&o),
        Err(CraftError::PartnerNotInArray { slot: 9 })
    ));

    let o = opts(Targets::Data);
    let mut c = cfg();
    c.parity_q = None;
    assert!(matches!(d.plan_on(&c, &o), Err(CraftError::NoQ)));
    c.parity_p = None;
    assert!(matches!(d.plan_on(&c, &o), Err(CraftError::NoP)));
    c.data_devs = BTreeMap::from([(2, "d2".to_string())]);
    assert!(matches!(d.plan_on(&c, &o), Err(CraftError::NotInArray)));
    let mut c = cfg();
    c.data_devs = BTreeMap::from([(1, "d1".to_string())]);
    assert!(matches!(
        d.plan_on(&c, &opts(Targets::TwoDisk)),
        Err(CraftError::NoPartner)
    ));
    let mut c = cfg();
    c.data_devs.insert(1, "gone".to_string());
    match d.plan_on(&c, &o) {
        Err(CraftError::Read(e)) => assert_eq!(e, "not found: gone"),
        other => panic!("got {other:?}"),
    }
}

#[test]
fn first_of_two_reasons_is_given() {
    let d = Disks::in_sync();
    let read_error = |c: &ArrayConfig, o: &Opts| match d.plan_on(c, o) {
        Err(CraftError::Read(e)) => e,
        other => panic!("got {other:?}"),
    };
    let plain = opts(Targets::Data);
    let mut same = opts(Targets::TwoDisk);
    same.flip = 0;

    // The data block is read before the parity disks are asked for.
    let mut c = cfg();
    c.data_devs.insert(1, "gone".to_string());
    c.parity_p = None;
    assert_eq!(read_error(&c, &plain), "not found: gone");
    // Both parity disks are asked for before either is read.
    let mut c = cfg();
    c.parity_p = Some("no p".to_string());
    c.parity_q = None;
    assert!(matches!(d.plan_on(&c, &plain), Err(CraftError::NoQ)));
    // P is read before Q, and both before the other data disks.
    let mut c = cfg();
    c.data_devs.insert(3, "no d3".to_string());
    c.parity_q = Some("no q".to_string());
    c.parity_p = Some("no p".to_string());
    assert_eq!(read_error(&c, &same), "not found: no p");
    c.parity_p = Some("p".to_string());
    assert_eq!(read_error(&c, &same), "not found: no q");
    c.parity_q = Some("q".to_string());
    assert_eq!(read_error(&c, &same), "not found: no d3");
    // The flip is looked at before the partner.
    let mut c = cfg();
    c.data_devs = BTreeMap::from([(1, "d1".to_string())]);
    assert!(matches!(d.plan_on(&c, &same), Err(CraftError::SameChecksum)));
}

// ---------------------------------------------------------------------------
// Restoring
// ---------------------------------------------------------------------------

#[test]
fn restoring_gives_every_disk_back() {
    for targets in [
        Targets::Data,
        Targets::BakeP,
        Targets::BakeQ,
        Targets::BakeBoth,
        Targets::TwoDisk,
    ] {
        let d = Disks::in_sync();
        let before = d.disks.borrow().clone();
        let plan = d.plan(&opts(targets)).unwrap();
        d.carry_out(&plan);
        assert_ne!(*d.disks.borrow(), before);
        let partner = plan.partner.as_ref().map(|p| p.orig.clone());
        let wanted = plan.partner.as_ref().map(|p| p.slot);
        assert_eq!(
            d.restore(&plan.orig, Ok(partner)).unwrap(),
            wanted,
            "{targets:?}"
        );
        assert_eq!(*d.disks.borrow(), before, "{targets:?}");
    }
}

#[test]
fn restoration_stops_at_the_first_failure() {
    let whole = vec![1u8; BLOCK];
    let refuse = |d: &Disks, name: &str| {
        *d.refuse_write_to.borrow_mut() = Some(name.to_string());
    };

    let d = Disks::in_sync();
    match d.restore(&vec![0; 12], Ok(None)) {
        Err(RestoreError::BadBackup { len }) => assert_eq!(len, 12),
        other => panic!("got {other:?}"),
    }
    match d.restore(&whole, Err("torn".to_string())) {
        Err(RestoreError::ReadPartnerBackup(e)) => assert_eq!(e, "torn"),
        other => panic!("got {other:?}"),
    }
    match d.restore(&whole, Ok(Some(vec![0; 9]))) {
        Err(RestoreError::BadPartnerBackup { len }) => assert_eq!(len, 9),
        other => panic!("got {other:?}"),
    }
    refuse(&d, "d1");
    assert!(matches!(
        d.restore(&whole, Ok(None)),
        Err(RestoreError::Write(_))
    ));
    refuse(&d, "d2");
    match d.restore(&whole, Ok(Some(whole.clone()))) {
        Err(RestoreError::WritePartner { slot, error }) => {
            assert_eq!(slot, 2);
            assert_eq!(error, "refused: d2");
        }
        other => panic!("got {other:?}"),
    }
    refuse(&d, "p");
    assert!(matches!(
        d.restore(&whole, Ok(None)),
        Err(RestoreError::WriteP(_))
    ));
    refuse(&d, "q");
    assert!(matches!(
        d.restore(&whole, Ok(None)),
        Err(RestoreError::WriteQ(_))
    ));
    d.disks.borrow_mut().remove("d3");
    assert!(matches!(
        d.restore(&whole, Ok(None)),
        Err(RestoreError::ComputeP(_))
    ));

    let mut c = cfg();
    c.data_devs.remove(&1);
    let r = restore(
        &c,
        1,
        0,
        &whole,
        &|x: &String| d.size(x),
        &|x: &String, o: u64, n: usize| d.read(x, o, n),
        &|x: &String, o: u64, n: usize| d.read(x, o, n),
        &|x: &String, o: u64, b: &[u8]| d.write(x, o, b),
        &|| Ok(None),
    );
    assert!(matches!(r, Err(RestoreError::NotInArray)));
}

#[test]
fn restoration_keeps_its_order() {
    let d = Disks::in_sync();
    let plan = d.plan(&opts(Targets::TwoDisk)).unwrap();
    d.carry_out(&plan);
    let log = RefCell::new(Vec::<String>::new());
    let note = |what: &str, path: &String| log.borrow_mut().push(format!("{what} {path}"));
    let r = restore(
        &cfg(),
        1,
        BLOCK as u64,
        &plan.orig,
        &|x: &String| d.size(x),
        &|x: &String, o: u64, n: usize| {
            note("read", x);
            d.read(x, o, n)
        },
        &|x: &String, o: u64, n: usize| {
            note("reread", x);
            d.read(x, o, n)
        },
        &|x: &String, o: u64, b: &[u8]| {
            note("write", x);
            d.write(x, o, b)
        },
        &|| {
            note("backup", &"of the partner".to_string());
            Ok(plan.partner.as_ref().map(|p| p.orig.clone()))
        },
    );
    assert_eq!(r.unwrap(), plan.partner.as_ref().map(|p| p.slot));
    assert_eq!(
        *log.borrow(),
        [
            "write d1",
            "backup of the partner",
            "read d2",
            "write d2",
            "reread d1",
            "reread d2",
            "reread d3",
            "reread d1",
            "reread d2",
            "reread d3",
            "write p",
            "write q",
        ]
    );
}

#[test]
fn second_read_failure_stops_q() {
    let d = Disks::in_sync();
    let reads = RefCell::new(0);
    let r = restore(
        &cfg(),
        1,
        0,
        &vec![1u8; BLOCK],
        &|x: &String| d.size(x),
        &|x: &String, o: u64, n: usize| d.read(x, o, n),
        &|x: &String, o: u64, n: usize| {
            *reads.borrow_mut() += 1;
            if *reads.borrow() > 3 {
                Err("worn out".to_string())
            } else {
                d.read(x, o, n)
            }
        },
        &|x: &String, o: u64, b: &[u8]| d.write(x, o, b),
        &|| Ok(None),
    );
    match r {
        Err(RestoreError::ComputeQ(e)) => assert_eq!(e, "worn out"),
        other => panic!("got {other:?}"),
    }
}

#[test]
fn partner_is_the_first_disk_that_differs() {
    let d = Disks::in_sync();
    let saved = d.read(&"d2".to_string(), 0, BLOCK).unwrap();
    let find = |c: &ArrayConfig, slot: u64| {
        find_partner(
            c,
            slot,
            0,
            &saved,
            &|x: &String| d.size(x),
            &|x: &String, o: u64, n: usize| d.read(x, o, n),
        )
    };
    assert_eq!(find(&cfg(), 1), Some(2), "disk 2 still matches");
    assert_eq!(find(&cfg(), 3), Some(0));
    let mut c = cfg();
    c.data_devs.insert(3, "gone".to_string());
    assert_eq!(find(&c, 1), None, "a disk that cannot be read is passed over");
}
