//! A whole filesystem in memory: opened, walked, scrubbed and re-confirmed.

use std::cell::{Cell, RefCell};

use scrub_rs::btrfs::chunk::{profile_name, ChunkItem, ChunkMap, ChunkRecord, Stripe};
use scrub_rs::btrfs::csum::{CsumEntry, LazyCsumProvider, RangeError, RangeRead};
use scrub_rs::btrfs::csum_strategy::{csum_type, CsumError, CsumStrategy};
use scrub_rs::btrfs::dev_extent::{absorb_dev_leaf, DevExtent, DevExtentError};
use scrub_rs::btrfs::extent::{FileExtent, Phase, ReconfirmWalk};
use scrub_rs::btrfs::key::{bg_flag, key_type, objectid, Key};
use scrub_rs::btrfs::node::{Leaf, Node};
use scrub_rs::btrfs::open::{begin, open, BtrfsContext, OpenError};
use scrub_rs::btrfs::reader::{FsReader, ReadError, ReadNodeResult, GEN_DONT_CHECK};
use scrub_rs::btrfs::scrub;
use scrub_rs::btrfs::scrub::{
    compute_csums, isolate_run_read, prefetch_depth_for, settle_mismatch, ReadCmd, ReadRsp,
    SectorResult, Settled,
};
use scrub_rs::btrfs::scrub_driver::{
    cached_roots_at, event_of, live_check, mismatch_line, BtrfsReconfirmer, BtrfsScrub, LiveCheck,
    LiveError, LiveVerdict,
};
use scrub_rs::btrfs::scrub_run::{scrub_dev_tree, ScrubEnv, ScrubError, Tell};
use scrub_rs::btrfs::superblock::{
    has_magic_at, CopyFault, CopyRead, Superblock, SuperblockError, BTRFS_MAGIC, SUPERBLOCK_OFFSET,
};
use scrub_rs::btrfs::tree::{walk_leaves, walk_leaves_range, TreeWalk, WalkCounts, WalkStep};
use scrub_rs::btrfs::util::{fault_hits, fault_range, hex, le_u16, le_u32, le_u64};
use scrub_rs::btrfs::walk::{advance, WalkTell};
use scrub_rs::craft::{collect_extents, file_extents};
use scrub_rs::fs::{Reconfirm, ReconfirmRequest};
use scrub_rs::status::{MetadataKind, StatusCounters};

const NODE: usize = 4096;
const SECTOR: usize = 4096;
const FSID: [u8; 16] = [7; 16];
const GENERATION: u64 = 9;

const CHUNK_ROOT: u64 = 0x10_0000;
const ROOT: u64 = 0x20_0000;
const DEV_ROOT: u64 = 0x20_1000;
const EXTENT_ROOT: u64 = 0x20_2000;
const FS_ROOT: u64 = 0x20_3000;
const CSUM_ROOT: u64 = 0x20_4000;
const CSUM_LEAF_A: u64 = 0x20_5000;
const CSUM_LEAF_B: u64 = 0x20_6000;
const MIRROR: u64 = 0x10_0000;
const DATA: u64 = 0x40_0000;
const DATA_PHYS: u64 = 0x50_0000;
const DATA_LEN: u64 = 0x8_0000;

fn put16(b: &mut [u8], at: usize, v: u16) {
    b[at..at + 2].copy_from_slice(&v.to_le_bytes());
}

fn put32(b: &mut [u8], at: usize, v: u32) {
    b[at..at + 4].copy_from_slice(&v.to_le_bytes());
}

fn put64(b: &mut [u8], at: usize, v: u64) {
    b[at..at + 8].copy_from_slice(&v.to_le_bytes());
}

fn put_key(b: &mut [u8], at: usize, k: Key) {
    put64(b, at, k.objectid);
    b[at + 8] = k.ty;
    put64(b, at + 9, k.offset);
}

fn strategy(ty: u16) -> CsumStrategy {
    let mut b = superblock_bytes(ty, &[]);
    put32(&mut b, 144, SECTOR as u32);
    seal(&mut b, ty);
    CsumStrategy::from_superblock(&Superblock::read_one(&b).unwrap()).unwrap()
}

/// Writes the header checksum over everything behind it.
fn seal(b: &mut [u8], ty: u16) {
    let csum = match ty {
        0 => crc32c::crc32c(&b[32..]).to_le_bytes().to_vec(),
        1 => xxhash_rust::xxh64::xxh64(&b[32..], 0).to_le_bytes().to_vec(),
        2 => <sha2::Sha256 as sha2::Digest>::digest(&b[32..]).to_vec(),
        _ => <blake2::Blake2b<blake2::digest::consts::U32> as blake2::Digest>::digest(&b[32..])
            .to_vec(),
    };
    b[..csum.len()].copy_from_slice(&csum);
}

fn chunk_item(length: u64, ty: u64, offsets: &[u64]) -> Vec<u8> {
    let mut b = vec![0; 48 + 32 * offsets.len()];
    put64(&mut b, 0, length);
    put64(&mut b, 16, 0x10000);
    put64(&mut b, 24, ty);
    put16(&mut b, 44, offsets.len() as u16);
    for (i, off) in offsets.iter().enumerate() {
        put64(&mut b, 48 + 32 * i, 1);
        put64(&mut b, 56 + 32 * i, *off);
    }
    b
}

fn superblock_bytes(ty: u16, sys: &[u8]) -> Vec<u8> {
    let mut b = vec![0u8; 4096];
    b[32..48].copy_from_slice(&FSID);
    put64(&mut b, 48, SUPERBLOCK_OFFSET);
    b[64..72].copy_from_slice(&BTRFS_MAGIC);
    put64(&mut b, 72, GENERATION);
    put64(&mut b, 80, ROOT);
    put64(&mut b, 88, CHUNK_ROOT);
    put64(&mut b, 112, 0x60_0000);
    put64(&mut b, 120, 0x8000);
    put64(&mut b, 136, 1);
    put32(&mut b, 144, SECTOR as u32);
    put32(&mut b, 148, NODE as u32);
    put32(&mut b, 156, SECTOR as u32);
    put32(&mut b, 160, sys.len() as u32);
    put64(&mut b, 164, GENERATION);
    put16(&mut b, 196, ty);
    put64(&mut b, 201, 1);
    b[811..811 + sys.len()].copy_from_slice(sys);
    seal(&mut b, ty);
    b
}

fn header(b: &mut [u8], logical: u64, owner: u64, generation: u64, n: usize, level: u8) {
    b[32..48].copy_from_slice(&FSID);
    put64(b, 48, logical);
    put64(b, 80, generation);
    put64(b, 88, owner);
    put32(b, 96, n as u32);
    b[100] = level;
}

fn leaf_bytes(ty: u16, logical: u64, owner: u64, items: &[(Key, Vec<u8>)]) -> Vec<u8> {
    let mut b = vec![0u8; NODE];
    header(&mut b, logical, owner, GENERATION, items.len(), 0);
    let mut end = NODE;
    for (i, (key, data)) in items.iter().enumerate() {
        end -= data.len();
        b[end..end + data.len()].copy_from_slice(data);
        put_key(&mut b, 101 + 25 * i, *key);
        put32(&mut b, 101 + 25 * i + 17, (end - 101) as u32);
        put32(&mut b, 101 + 25 * i + 21, data.len() as u32);
    }
    seal(&mut b, ty);
    b
}

fn internal_bytes(ty: u16, logical: u64, owner: u64, ptrs: &[(Key, u64, u64)]) -> Vec<u8> {
    let mut b = vec![0u8; NODE];
    header(&mut b, logical, owner, GENERATION, ptrs.len(), 1);
    for (i, (key, child, generation)) in ptrs.iter().enumerate() {
        put_key(&mut b, 101 + 33 * i, *key);
        put64(&mut b, 101 + 33 * i + 17, *child);
        put64(&mut b, 101 + 33 * i + 25, *generation);
    }
    seal(&mut b, ty);
    b
}

fn root_item(bytenr: u64) -> Vec<u8> {
    let mut b = vec![0; 239];
    put64(&mut b, 176, bytenr);
    b
}

fn dev_extent_item(chunk_offset: u64, length: u64) -> Vec<u8> {
    let mut b = vec![0; 48];
    put64(&mut b, 16, chunk_offset);
    put64(&mut b, 24, length);
    b
}

fn extent_item(flags: u64) -> Vec<u8> {
    let mut b = vec![0; 24];
    put64(&mut b, 16, flags);
    b
}

fn file_extent_item(ty: u8, disk_bytenr: u64, len: u64) -> Vec<u8> {
    let mut b = vec![0; 53];
    b[20] = ty;
    put64(&mut b, 21, disk_bytenr);
    put64(&mut b, 29, len);
    put64(&mut b, 37, 0);
    put64(&mut b, 45, len);
    b
}

fn csum_key(logical: u64) -> Key {
    Key::new(
        objectid::EXTENT_CSUM_OBJECTID,
        key_type::EXTENT_CSUM,
        logical,
    )
}

fn sector_bytes(i: u64) -> Vec<u8> {
    (0..SECTOR).map(|j| (i * 31 + j as u64 / 5) as u8).collect()
}

/// The backing store: two runs of checksummed sectors, 0..=3 and 6..=9, of which
/// none is corrupt.
struct Store {
    bytes: RefCell<Vec<u8>>,
    /// A range of the store that cannot be read.
    fault: Cell<Option<(u64, u64)>>,
    ty: u16,
}

impl Store {
    fn new(ty: u16) -> Self {
        let store = Store {
            bytes: RefCell::new(vec![0u8; 0x60_0000]),
            fault: Cell::new(None),
            ty,
        };
        let mut sys = vec![0u8; 17];
        put_key(&mut sys, 0, Key::new(256, key_type::CHUNK_ITEM, 0x10_0000));
        sys.extend(chunk_item(0x8_0000, bg_flag::SYSTEM, &[0x10_0000]));
        store.put(SUPERBLOCK_OFFSET, &superblock_bytes(ty, &sys));

        let chunk = |logical: u64| Key::new(256, key_type::CHUNK_ITEM, logical);
        store.put(
            CHUNK_ROOT,
            &leaf_bytes(
                ty,
                CHUNK_ROOT,
                objectid::CHUNK_TREE,
                &[
                    (
                        chunk(0x10_0000),
                        chunk_item(0x8_0000, bg_flag::SYSTEM, &[0x10_0000]),
                    ),
                    (
                        chunk(0x20_0000),
                        chunk_item(
                            0x8_0000,
                            bg_flag::METADATA | bg_flag::DUP,
                            &[0x20_0000, 0x20_0000 + MIRROR],
                        ),
                    ),
                    (
                        chunk(DATA),
                        chunk_item(DATA_LEN, bg_flag::DATA, &[DATA_PHYS]),
                    ),
                ],
            ),
        );
        let root = |id: u64| Key::new(id, key_type::ROOT_ITEM, 0);
        store.node(
            ROOT,
            &leaf_bytes(
                ty,
                ROOT,
                objectid::ROOT_TREE,
                &[
                    (root(objectid::EXTENT_TREE), root_item(EXTENT_ROOT)),
                    (root(objectid::DEV_TREE), root_item(DEV_ROOT)),
                    (root(objectid::FS_TREE), root_item(FS_ROOT)),
                    (root(objectid::CSUM_TREE), root_item(CSUM_ROOT)),
                ],
            ),
        );
        let dev = |devid: u64, phys: u64| Key::new(devid, key_type::DEV_EXTENT_KEY, phys);
        store.node(
            DEV_ROOT,
            &leaf_bytes(
                ty,
                DEV_ROOT,
                objectid::DEV_TREE,
                &[
                    (dev(1, 0x20_0000), dev_extent_item(0x20_0000, 0x8_0000)),
                    (dev(1, DATA_PHYS), dev_extent_item(DATA, DATA_LEN)),
                    (dev(1, 0x5f_0000), dev_extent_item(0x90_0000, 0x1000)),
                    (dev(2, 0), dev_extent_item(DATA, DATA_LEN)),
                ],
            ),
        );
        let extent = |at: u64, len: u64| Key::new(at, key_type::EXTENT_ITEM, len);
        store.node(
            EXTENT_ROOT,
            &leaf_bytes(
                ty,
                EXTENT_ROOT,
                objectid::EXTENT_TREE,
                &[
                    (extent(DATA, 0x4000), extent_item(1)),
                    (extent(DATA + 0x6000, 0x2000), extent_item(1)),
                    (extent(DATA + 0x8000, 0x2000), extent_item(1 | 8)),
                ],
            ),
        );
        let file = |ino: u64, off: u64| Key::new(ino, key_type::EXTENT_DATA, off);
        store.node(
            FS_ROOT,
            &leaf_bytes(
                ty,
                FS_ROOT,
                objectid::FS_TREE,
                &[
                    (Key::new(257, key_type::INODE_ITEM, 0), vec![0; 160]),
                    (file(257, 0), file_extent_item(1, DATA, 0x4000)),
                    (file(258, 0), file_extent_item(0, 0, 0)),
                    (file(258, 4096), file_extent_item(2, DATA + 0x6000, 0x2000)),
                ],
            ),
        );
        for i in 0..10 {
            store.put(DATA_PHYS + i * SECTOR as u64, &sector_bytes(i));
        }
        let sums = |from: u64, to: u64| -> Vec<u8> {
            (from..to)
                .flat_map(|i| {
                    let mut b = vec![0u8; 32];
                    b.extend(sector_bytes(i));
                    seal(&mut b, ty);
                    b[..hash_len(ty)].to_vec()
                })
                .collect()
        };
        store.node(
            CSUM_LEAF_A,
            &leaf_bytes(
                ty,
                CSUM_LEAF_A,
                objectid::CSUM_TREE,
                &[(csum_key(DATA), sums(0, 4))],
            ),
        );
        store.node(
            CSUM_LEAF_B,
            &leaf_bytes(
                ty,
                CSUM_LEAF_B,
                objectid::CSUM_TREE,
                &[(csum_key(DATA + 0x6000), sums(6, 10))],
            ),
        );
        store.node(
            CSUM_ROOT,
            &internal_bytes(
                ty,
                CSUM_ROOT,
                objectid::CSUM_TREE,
                &[
                    (csum_key(DATA), CSUM_LEAF_A, GENERATION),
                    (csum_key(DATA + 0x6000), CSUM_LEAF_B, GENERATION),
                ],
            ),
        );
        store
    }

    fn put(&self, at: u64, b: &[u8]) {
        self.bytes.borrow_mut()[at as usize..at as usize + b.len()].copy_from_slice(b);
    }

    /// A metadata node, on both of its stripes.
    fn node(&self, at: u64, b: &[u8]) {
        self.put(at, b);
        self.put(at + MIRROR, b);
    }

    fn flip(&self, at: u64) {
        self.bytes.borrow_mut()[at as usize] ^= 0xff;
    }

    fn read(&self, at: u64, n: usize) -> Result<Vec<u8>, String> {
        if let Some(f) = self.fault.get() {
            if fault_hits(f, at, n as u64) {
                return Err("injected".to_string());
            }
        }
        let b = self.bytes.borrow();
        match b.get(at as usize..at as usize + n) {
            Some(s) => Ok(s.to_vec()),
            None => Err("past the end".to_string()),
        }
    }

    fn read_node(
        &self,
        reader: &FsReader,
        map: &ChunkMap,
        logical: u64,
        generation: u64,
        level: Option<u8>,
        owner: Option<u64>,
    ) -> Result<ReadNodeResult, ReadError> {
        let pread = |pos: u64, n: usize| self.read(pos, n).ok();
        reader
            .fetch_node(map, &pread, logical, generation, level, owner)
            .0
    }

    /// Walks a tree, telling of each step.
    fn walk<F: FnMut(u64, &WalkStep)>(
        &self,
        reader: &FsReader,
        map: &ChunkMap,
        mut walk: TreeWalk,
        mut on: F,
    ) {
        let pread = |pos: u64, n: usize| self.read(pos, n).ok();
        while let Some(v) = advance(&mut walk, reader, map, &pread, &|_: WalkTell| {}) {
            on(v.logical, &v.step);
        }
    }

    fn superblock(&self) -> Superblock {
        Superblock::read(vec![CopyRead::<String>::Block(
            self.read(SUPERBLOCK_OFFSET, 4096).unwrap(),
        )])
        .unwrap()
    }

    fn open(&self) -> Result<BtrfsContext, OpenError> {
        self.open_with(self.superblock())
    }

    fn open_with(&self, sb: Superblock) -> Result<BtrfsContext, OpenError> {
        let pread = |pos: u64, n: usize| self.read(pos, n).ok();
        open(sb, true, 0x60_0000, 0, &pread, &|_: WalkTell| {})
    }

    fn scrub(&self) -> BtrfsScrub {
        let pread = |pos: u64, n: usize| self.read(pos, n).ok();
        BtrfsScrub::open(
            self.open().unwrap(),
            "/dev/x".to_string(),
            &pread,
            &|_: WalkTell| {},
        )
        .unwrap()
    }

    /// The checksums of a range, with the failures met on the way.
    fn range(
        &self,
        reader: &FsReader,
        map: &ChunkMap,
        provider: &mut LazyCsumProvider,
        lo: u64,
        hi: u64,
    ) -> Result<RangeRead, RangeError> {
        let pread = |pos: u64, n: usize| self.read(pos, n).ok();
        provider.range(reader, map, &pread, &|_: WalkTell| {}, lo, hi)
    }

    /// The checksums of a range.
    fn entries(
        &self,
        reader: &FsReader,
        map: &ChunkMap,
        provider: &mut LazyCsumProvider,
        lo: u64,
        hi: u64,
    ) -> Vec<CsumEntry> {
        self.range(reader, map, provider, lo, hi).unwrap().entries
    }

    /// What live metadata says of a mismatch.
    fn live(&self, s: &BtrfsScrub, logical: u64, stored: &Vec<u8>) -> LiveCheck {
        let pread = |pos: u64, n: usize| self.read(pos, n).ok();
        live_check(
            &s.reader,
            &s.chunk_map,
            &pread,
            &|_: WalkTell| {},
            Some(&self.superblock()),
            &s.strategy,
            logical,
            stored,
        )
        .unwrap()
    }

    /// Re-confirms under a superblock.
    fn reconfirm(
        &self,
        s: &BtrfsScrub,
        rec: &mut BtrfsReconfirmer,
        sb: Option<&Superblock>,
        req: &ReconfirmRequest,
    ) -> Result<LiveVerdict, LiveError> {
        let pread = |pos: u64, n: usize| self.read(pos, n).ok();
        rec.reconfirm(
            &s.reader,
            &s.chunk_map,
            &pread,
            &|_: WalkTell| {},
            sb,
            req,
        )
    }
}

fn hash_len(ty: u16) -> usize {
    match ty {
        0 => 4,
        1 => 8,
        _ => 32,
    }
}

/// One scrub pass over the store.
struct Pass {
    stats: Result<scrub::ScrubStats, ScrubError>,
    emitted: Vec<(u64, bool)>,
    told: Vec<Tell>,
    commands: Vec<(u64, usize)>,
}

fn pass(store: &Store, s: &mut BtrfsScrub, batch: bool, depth: usize, reader_dies: bool) -> Pass {
    let answers = if reader_dies { 0 } else { usize::MAX };
    cut_pass(store, s, batch, depth, usize::MAX, answers)
}

/// A pass whose reader takes the first `takes` commands and answers the first
/// `answers` of them.
fn cut_pass(
    store: &Store,
    s: &mut BtrfsScrub,
    batch: bool,
    depth: usize,
    takes: usize,
    answers: usize,
) -> Pass {
    let provider = RefCell::new(LazyCsumProvider::new(
        NODE,
        s.strategy,
        CSUM_ROOT,
    ));
    let emitted = RefCell::new(vec![]);
    let told = RefCell::new(vec![]);
    let commands = RefCell::new(vec![]);
    let answered = Cell::new(0usize);
    let stats = {
        let env = ScrubEnv {
            entries: |lo: u64, hi: u64| {
                store.entries(
                    &s.reader,
                    &s.chunk_map,
                    &mut provider.borrow_mut(),
                    lo,
                    hi,
                )
            },
            submit: |c: &ReadCmd| {
                if commands.borrow().len() == takes {
                    return false;
                }
                commands.borrow_mut().push((c.phys, c.len));
                true
            },
            receive: |c: &ReadCmd| -> Option<ReadRsp> {
                if answered.get() == answers {
                    return None;
                }
                answered.set(answered.get() + 1);
                Some(isolate_run_read(
                    &|p: u64, n: usize| store.read(p, n),
                    c.phys,
                    c.len,
                    c.sector_size,
                    64,
                ))
            },
            live: |logical: u64, stored: &Vec<u8>| store.live(s, logical, stored).verdict,
            fresh: |_devid: u64, phys: u64, n: usize| store.read(phys, n).ok(),
            emit: |r: &SectorResult| emitted.borrow_mut().push((r.logical, r.unreadable)),
            tell: |t: Tell| told.borrow_mut().push(t),
        };
        scrub_dev_tree(
            &s.chunk_map,
            &s.dev_extents,
            &s.strategy,
            batch,
            depth,
            &env,
        )
    };
    s.csum_provider = provider.into_inner();
    Pass {
        stats,
        emitted: emitted.into_inner(),
        told: told.into_inner(),
        commands: commands.into_inner(),
    }
}

// ---------------------------------------------------------------------------
// Checksums
// ---------------------------------------------------------------------------

#[test]
fn known_checksums_of_every_type() {
    let check = b"123456789";
    assert_eq!(
        strategy(csum_type::CRC32C).compute(check),
        0xe306_9283u32.to_le_bytes()
    );
    assert_eq!(
        hex(&strategy(csum_type::SHA256).compute(b"abc")),
        "ba7816bf8f01cfea414140de5dae2223b00361a396177a9cb410ff61f20015ad"
    );
    assert_eq!(
        strategy(csum_type::XXHASH).compute(b""),
        0xef46_db37_51d8_e999u64.to_le_bytes()
    );
    let b2 = strategy(csum_type::BLAKE2).compute(b"abc");
    assert_eq!(
        hex(&b2),
        "bddd813c634239723171ef3fee98579b94964e3bb1cb3e427262c8c068d52319"
    );
    for ty in 0..4 {
        let s = strategy(ty);
        assert_eq!(s.hash_len, hash_len(ty));
        assert_eq!(s.sector_size, 4096);
        let sum = s.compute(check);
        assert!(s.matches(&sum, check));
        assert!(!s.matches(&sum, b"123456780"));
        assert!(!s.matches(&sum[1..], check));
    }
}

#[test]
fn sector_checksums_come_in_order() {
    for ty in 0..4 {
        let s = strategy(ty);
        for n in [0usize, 1, 3, 40] {
            let buf: Vec<u8> = (0..n as u64).flat_map(sector_bytes).collect();
            let sums = compute_csums(&s, &buf, n);
            assert_eq!(sums.len(), n);
            for (i, sum) in sums.iter().enumerate() {
                assert_eq!(*sum, s.compute(&sector_bytes(i as u64)), "sector {i} of {n}");
            }
        }
    }
}

#[test]
fn header_checksums_are_verified() {
    for ty in 0..4u16 {
        let b = leaf_bytes(ty, 0, 1, &[]);
        assert_eq!(CsumStrategy::verify_header(ty, &b).unwrap(), true);
        assert!(strategy(ty).verify_node_header(&b));
        let mut bad = b.clone();
        bad[NODE - 1] ^= 1;
        assert_eq!(CsumStrategy::verify_header(ty, &bad).unwrap(), false);
        assert!(!strategy(ty).verify_node_header(&bad));
    }
    assert_eq!(CsumStrategy::verify_header(0, &[0; 32]).unwrap(), false);
    assert!(matches!(
        CsumStrategy::verify_header(4, &[0; 33]),
        Err(CsumError::UnsupportedType(4))
    ));
}

#[test]
fn strategies_need_a_known_type_and_a_sector_size() {
    let mut b = superblock_bytes(0, &[]);
    put32(&mut b, 144, 0);
    seal(&mut b, 0);
    let sb = Superblock::read_one(&b).unwrap();
    assert!(matches!(
        CsumStrategy::from_superblock(&sb),
        Err(CsumError::ZeroSectorSize)
    ));
    let mut sb = Superblock::read_one(&superblock_bytes(0, &[])).unwrap();
    sb.csum_type = 9;
    assert!(matches!(
        CsumStrategy::from_superblock(&sb),
        Err(CsumError::UnsupportedType(9))
    ));
    assert_eq!(strategy(0).name, "crc32c");
    assert_eq!(strategy(3).name, "blake2");
    assert_eq!(prefetch_depth_for(&strategy(0)), prefetch_depth_for(&strategy(1)));
    assert!(prefetch_depth_for(&strategy(2)) != prefetch_depth_for(&strategy(0)));
}

// ---------------------------------------------------------------------------
// Superblock
// ---------------------------------------------------------------------------

#[test]
fn superblock_fields_are_read() {
    let sb = Superblock::read_one(&superblock_bytes(2, &[1, 2, 3])).unwrap();
    assert_eq!(sb.fsid, FSID);
    assert_eq!(sb.bytenr, SUPERBLOCK_OFFSET);
    assert_eq!(sb.magic, BTRFS_MAGIC);
    assert_eq!(sb.generation, GENERATION);
    assert_eq!((sb.root, sb.chunk_root), (ROOT, CHUNK_ROOT));
    assert_eq!((sb.total_bytes, sb.bytes_used), (0x60_0000, 0x8000));
    assert_eq!((sb.num_devices, sb.devid), (1, 1));
    assert_eq!((sb.sector_size, sb.node_size, sb.stripesize), (4096, 4096, 4096));
    assert_eq!((sb.chunk_root_generation, sb.csum_type), (GENERATION, 2));
    assert_eq!(sb.sys_chunks, vec![1, 2, 3]);
}

#[test]
fn bad_superblock_copies_are_told_apart() {
    let mut b = superblock_bytes(0, &[]);
    b[64] = 0;
    match Superblock::read_one(&b) {
        Err(CopyFault::BadMagic(m)) => assert_eq!(m[1..], BTRFS_MAGIC[1..]),
        other => panic!("got {other:?}"),
    }
    let mut b = superblock_bytes(0, &[]);
    put16(&mut b, 196, 7);
    assert!(matches!(
        Superblock::read_one(&b),
        Err(CopyFault::UnsupportedCsum(7))
    ));
    let mut b = superblock_bytes(0, &[]);
    b[500] ^= 1;
    assert!(matches!(
        Superblock::read_one(&b),
        Err(CopyFault::HeaderMismatch)
    ));
    let mut b = superblock_bytes(0, &[]);
    put32(&mut b, 160, 3286);
    seal(&mut b, 0);
    assert!(matches!(
        Superblock::read_one(&b),
        Err(CopyFault::SysChunksOverrun)
    ));
    assert!(has_magic_at(&superblock_bytes(0, &[]), 64));
    assert!(!has_magic_at(&[0x5f; 71], 64));
}

#[test]
fn first_good_superblock_copy_is_used() {
    let good = |g: u64| {
        let mut b = superblock_bytes(0, &[]);
        put64(&mut b, 72, g);
        seal(&mut b, 0);
        CopyRead::<String>::Block(b)
    };
    let bad = || CopyRead::<String>::Block(vec![0; 4096]);
    let sb = Superblock::read(vec![bad(), CopyRead::PastEnd, good(5), good(6)]).unwrap();
    assert_eq!(sb.generation, 5);
    assert!(matches!(
        Superblock::read(vec![bad(), CopyRead::Failed("eio".to_string()), CopyRead::PastEnd]),
        Err(SuperblockError::Read(e)) if e == "eio"
    ));
    assert!(matches!(
        Superblock::read::<String>(vec![CopyRead::PastEnd, CopyRead::PastEnd]),
        Err(SuperblockError::NoneFound)
    ));
    assert!(matches!(
        Superblock::read_primary(bad()),
        Err(SuperblockError::Fault(CopyFault::BadMagic(_)))
    ));
    assert!(matches!(
        Superblock::read_primary::<String>(CopyRead::PastEnd),
        Err(SuperblockError::PastEnd)
    ));
    assert_eq!(Superblock::read_primary(good(3)).unwrap().generation, 3);
}

// ---------------------------------------------------------------------------
// Opening
// ---------------------------------------------------------------------------

#[test]
fn filesystem_opens_with_its_trees() {
    for ty in 0..4 {
        let ctx = Store::new(ty).open().unwrap();
        assert_eq!(ctx.roots.fs_root, FS_ROOT);
        assert_eq!(ctx.roots.csum_root, CSUM_ROOT);
        assert_eq!(ctx.roots.dev_tree_root, Some(DEV_ROOT));
        assert_eq!(ctx.roots.extent_tree_root, Some(EXTENT_ROOT));
        assert_eq!(ctx.strategy.csum_type, ty);
        assert_eq!(ctx.chunk_map.lookup(DATA + 5), Some((1, DATA_PHYS + 5)));
        assert_eq!(
            ctx.chunk_map.lookup_stripes(ROOT),
            Some(vec![(1, ROOT), (1, ROOT + MIRROR)])
        );
        assert_eq!(ctx.chunk_map.lookup(0), None);
        assert_eq!(
            (
                ctx.metadata_header_errors,
                ctx.metadata_mirror_mismatches,
                ctx.metadata_read_errors
            ),
            (0, 0, 0)
        );
    }
}

#[test]
fn unusable_superblocks_are_refused() {
    let store = Store::new(0);
    let mut sb = store.superblock();
    sb.num_devices = 2;
    assert!(matches!(
        store.open_with(sb),
        Err(OpenError::MultiDevice { num_devices: 2 })
    ));
    let mut sb = store.superblock();
    sb.total_bytes = 0x60_0001;
    assert!(matches!(
        store.open_with(sb),
        Err(OpenError::DeviceTooShort {
            dev_size: 0x60_0000,
            total_bytes: 0x60_0001,
            base_offset: 0
        })
    ));
    let mut sb = store.superblock();
    sb.csum_type = 8;
    assert!(matches!(
        store.open_with(sb),
        Err(OpenError::Csum(CsumError::UnsupportedType(8)))
    ));
    let mut sb = store.superblock();
    sb.node_size = 100;
    assert!(matches!(
        store.open_with(sb),
        Err(OpenError::NodeTooSmall { node_size: 100 })
    ));
    let mut sb = store.superblock();
    put64(&mut sb.sys_chunks, 17, u64::MAX);
    assert!(matches!(
        store.open_with(sb),
        Err(OpenError::ChunkOutOfRange { logical: 0x10_0000 })
    ));
}

#[test]
fn missing_trees_and_striped_data_are_refused() {
    let store = Store::new(0);
    let root = |id: u64| Key::new(id, key_type::ROOT_ITEM, 0);
    store.node(ROOT, &leaf_bytes(0, ROOT, 1, &[(root(7), root_item(1))]));
    assert!(matches!(store.open(), Err(OpenError::FsTreeNotFound)));
    store.node(ROOT, &leaf_bytes(0, ROOT, 1, &[(root(5), root_item(1))]));
    assert!(matches!(store.open(), Err(OpenError::CsumTreeNotFound)));
    store.node(ROOT, &leaf_bytes(0, ROOT, 1, &[(root(5), vec![0; 238])]));
    assert!(matches!(store.open(), Err(OpenError::ItemOutOfBounds)));

    let store = Store::new(0);
    store.put(
        CHUNK_ROOT,
        &leaf_bytes(
            0,
            CHUNK_ROOT,
            3,
            &[(
                Key::new(256, key_type::CHUNK_ITEM, DATA),
                chunk_item(0x1000, bg_flag::DATA | bg_flag::RAID0, &[1, 2]),
            )],
        ),
    );
    match store.open() {
        Err(OpenError::Profile(p)) => {
            assert_eq!(p.logical, DATA);
            assert_eq!(profile_name(p.profile), "RAID0");
            assert_eq!(
                p.message(),
                "data chunk at logical 0x400000 uses profile RAID0 \u{2014} only SINGLE and DUP \
                 data chunks are supported (striped RAID profiles cannot be mapped linearly by \
                 this tool)"
            );
        }
        other => panic!("got {:?}", other.err()),
    }
}

#[test]
fn metadata_failures_are_counted_while_opening() {
    let store = Store::new(0);
    store.flip(ROOT + 200);
    let ctx = store.open().unwrap();
    assert_eq!(ctx.metadata_mirror_mismatches, 1, "one of two copies is bad");
    assert_eq!(ctx.metadata_header_errors, 0);

    store.flip(ROOT + MIRROR + 200);
    assert!(matches!(store.open(), Err(OpenError::FsTreeNotFound)));

    let store = Store::new(0);
    let scan = begin(store.superblock(), false, 0, 0).unwrap();
    assert_eq!(scan.counts.mirror_mismatches, 1, "unusable primary superblock");
}

// ---------------------------------------------------------------------------
// Nodes and walks
// ---------------------------------------------------------------------------

#[test]
fn node_copies_are_judged() {
    let store = Store::new(0);
    let ctx = store.open().unwrap();
    let read = |generation: u64, level: Option<u8>, owner: Option<u64>| {
        store.read_node(&ctx.reader, &ctx.chunk_map, CSUM_ROOT, generation, level, owner)
    };
    let r = read(GENERATION, Some(1), Some(7)).unwrap();
    assert!(!r.all_mirrors_failed && !r.generation_mismatch && !r.mirror_mismatch);
    match r.node.unwrap() {
        Node::Internal(i) => {
            assert_eq!(i.ptrs.len(), 2);
            assert_eq!(i.ptrs[1].blockptr, CSUM_LEAF_B);
            assert_eq!(i.ptrs[1].generation, GENERATION);
        }
        Node::Leaf(_) => panic!("not a leaf"),
    }
    assert!(read(GENERATION + 1, None, None).unwrap().generation_mismatch);
    assert!(read(GEN_DONT_CHECK, Some(0), None).unwrap().generation_mismatch);
    assert!(read(GEN_DONT_CHECK, None, Some(5)).unwrap().generation_mismatch);

    store.flip(CSUM_ROOT + 4000);
    let r = read(GENERATION, None, None).unwrap();
    assert!(r.mirror_mismatch && !r.all_mirrors_failed);
    store.flip(CSUM_ROOT + MIRROR + 4000);
    let r = read(GENERATION, None, None).unwrap();
    assert!(r.all_mirrors_failed && r.node.is_none());

    store.fault.set(Some((0x20_0000, 0x20_0000)));
    assert!(matches!(
        read(GENERATION, None, None),
        Err(ReadError::NoCopy { logical: CSUM_ROOT })
    ));
}

#[test]
fn nodes_that_announce_too_much_are_malformed() {
    let store = Store::new(0);
    let ctx = store.open().unwrap();
    let mut b = internal_bytes(0, CSUM_ROOT, 7, &[]);
    put32(&mut b, 96, 1000);
    seal(&mut b, 0);
    store.node(CSUM_ROOT, &b);
    assert!(matches!(
        store.read_node(&ctx.reader, &ctx.chunk_map, CSUM_ROOT, GEN_DONT_CHECK, None, None),
        Err(ReadError::Malformed { logical: CSUM_ROOT })
    ));
    let plain = FsReader::new(NODE, 0, None);
    assert!(plain.strategy().is_none());
    assert!(plain.read_node_unverified(b, 5).is_err());
    let r = plain
        .read_node_unverified(leaf_bytes(0, 77, 1, &[]), 5)
        .unwrap();
    assert_eq!(r.node.unwrap().header().bytenr, 77);
}

#[test]
fn reads_are_placed_in_the_backing_store() {
    let ctx = Store::new(0).open().unwrap();
    let r = FsReader::new(NODE, 512, None).with_devid(1).with_fsid(FSID);
    assert_eq!(r.base_offset(), 512);
    assert_eq!(r.read_logical(&ctx.chunk_map, DATA + 1).unwrap(), DATA_PHYS + 513);
    assert!(matches!(
        r.read_logical(&ctx.chunk_map, 0),
        Err(ReadError::NotMapped { logical: 0 })
    ));
    assert_eq!(
        r.prefetch_logical(&ctx.chunk_map, ROOT),
        vec![ROOT + 512, ROOT + MIRROR + 512]
    );
    assert!(r.prefetch_logical(&ctx.chunk_map, 0).is_empty());
    let p = r.read_physical(1, 4096, 100).unwrap();
    assert_eq!((p.position, p.ahead_position, p.ahead_len), (4608, 4708, 100));
    assert!(matches!(
        r.read_physical(2, 0, 1),
        Err(ReadError::WrongDevice {
            devid: 2,
            expected: 1
        })
    ));
    assert!(matches!(
        r.read_physical(1, u64::MAX, 1),
        Err(ReadError::PositionOverflow)
    ));
}

#[test]
fn walks_visit_leaves_in_key_order_and_prune() {
    let store = Store::new(0);
    let ctx = store.open().unwrap();
    let visit = |w: TreeWalk| {
        let mut seen = vec![];
        store.walk(&ctx.reader, &ctx.chunk_map, w, |at, step| match step {
            WalkStep::Leaf { .. } => seen.push(at),
            WalkStep::Descended { prefetch, .. } => assert!(!prefetch.contains(&CSUM_ROOT)),
            _ => panic!("walk failed at {at:#x}"),
        });
        seen
    };
    assert_eq!(visit(walk_leaves(CSUM_ROOT)), vec![CSUM_LEAF_A, CSUM_LEAF_B]);
    assert_eq!(
        visit(walk_leaves_range(
            CSUM_ROOT,
            csum_key(DATA + 0x6000),
            csum_key(DATA + 0x7000)
        )),
        vec![CSUM_LEAF_B]
    );
    assert_eq!(
        visit(walk_leaves_range(CSUM_ROOT, csum_key(0), csum_key(DATA + 1))),
        vec![CSUM_LEAF_A]
    );
}

#[test]
fn walk_counts_add_up() {
    let mut c = WalkCounts::new();
    c.note(&WalkStep::MetadataError);
    c.note(&WalkStep::ReadError);
    c.note(&WalkStep::ReadError);
    c.note(&WalkStep::Stale);
    c.note(&WalkStep::Descended {
        mirror_mismatch: true,
        prefetch: vec![],
    });
    assert_eq!(
        (c.header_errors, c.mirror_mismatches, c.read_errors),
        (1, 1, 2)
    );
}

#[test]
fn little_endian_fields_and_hex() {
    let b = [1, 2, 3, 4, 5, 6, 7, 8, 0xff];
    assert_eq!(le_u16(&b, 0), 0x0201);
    assert_eq!(le_u32(&b, 1), 0x0504_0302);
    assert_eq!(le_u64(&b, 1), 0xff08_0706_0504_0302);
    assert_eq!(hex(&b[6..]), "0708ff");
    assert_eq!(hex(&[]), "");
}

#[test]
fn injected_faults_hit_overlapping_reads() {
    assert_eq!(fault_range(" 4096 , 512 "), Some((4096, 512)));
    assert_eq!(fault_range("8192"), Some((8192, 4096)));
    assert_eq!(fault_range("8192,0"), Some((8192, 1)));
    assert_eq!(fault_range("a,b"), None);
    assert_eq!(fault_range("1,2,3"), None);
    assert_eq!(fault_range(""), None);
    assert!(fault_hits((4096, 512), 4000, 97));
    assert!(!fault_hits((4096, 512), 4000, 96));
    assert!(fault_hits((4096, 512), 4607, 1));
    assert!(!fault_hits((4096, 512), 4608, 1));
}

// ---------------------------------------------------------------------------
// Items
// ---------------------------------------------------------------------------

fn parsed_leaf(items: &[(Key, Vec<u8>)]) -> Leaf {
    match Node::parse(leaf_bytes(0, 0, 1, items)) {
        Node::Leaf(l) => l,
        Node::Internal(_) => panic!("not a leaf"),
    }
}

#[test]
fn device_extents_of_one_device_are_taken() {
    let dev = |devid: u64, phys: u64| Key::new(devid, key_type::DEV_EXTENT_KEY, phys);
    let leaf = parsed_leaf(&[
        (dev(1, 5), dev_extent_item(6, 7)),
        (dev(2, 8), dev_extent_item(9, 10)),
        (Key::new(1, key_type::DEV_ITEM, 0), vec![0; 98]),
        (dev(1, 11), dev_extent_item(12, 13)),
    ]);
    let mut out = vec![];
    absorb_dev_leaf(&leaf, 1, &mut out).unwrap();
    let shown: Vec<(u64, u64, u64)> = out
        .iter()
        .map(|e| (e.phys_start, e.chunk_offset, e.length))
        .collect();
    assert_eq!(shown, vec![(5, 6, 7), (11, 12, 13)]);
    let short = parsed_leaf(&[(dev(1, 5), vec![0; 31])]);
    assert_eq!(
        absorb_dev_leaf(&short, 1, &mut out),
        Err(DevExtentError::TooShort { len: 31 })
    );
    let mut torn = parsed_leaf(&[(dev(1, 5), dev_extent_item(6, 7))]);
    torn.slots[0].data_size = 5000;
    assert_eq!(
        absorb_dev_leaf(&torn, 1, &mut out),
        Err(DevExtentError::OutOfBounds)
    );
}

#[test]
fn file_extents_on_disk_are_collected() {
    let store = Store::new(0);
    let ctx = store.open().unwrap();
    let pread = |pos: u64, n: usize| store.read(pos, n).ok();
    let mut exts = file_extents(
        &ctx.reader,
        &ctx.chunk_map,
        &pread,
        &|_: WalkTell| {},
        ctx.roots.fs_root,
    )
    .unwrap();
    let shown: Vec<(u64, u64, u64)> = exts
        .iter()
        .map(|e| (e.inode, e.disk_start(), e.num_bytes))
        .collect();
    assert_eq!(shown, vec![(257, DATA, 0x4000), (258, DATA + 0x6000, 0x2000)]);
    assert!(FileExtent::parse(&[1; 20], 1, 0).is_none());
    assert!(FileExtent::parse(&[1; 52], 1, 0).is_none());
    let mut torn = parsed_leaf(&[(Key::new(1, key_type::EXTENT_DATA, 0), vec![1; 53])]);
    torn.slots[0].data_offset = 5000;
    assert!(!collect_extents(&torn, &mut exts));
}

// ---------------------------------------------------------------------------
// Checksum ranges
// ---------------------------------------------------------------------------

#[test]
fn ranges_list_stored_checksums_in_order() {
    for ty in 0..4 {
        let store = Store::new(ty);
        let s = store.scrub();
        let mut provider = LazyCsumProvider::new(NODE, s.strategy, CSUM_ROOT);
        let list = |p: &mut LazyCsumProvider, lo: u64, hi: u64| {
            store
                .entries(&s.reader, &s.chunk_map, p, lo, hi)
                .iter()
                .map(|e| {
                    let i = (e.logical - DATA) / SECTOR as u64;
                    assert_eq!(e.csum, s.strategy.compute(&sector_bytes(i)));
                    i
                })
                .collect::<Vec<u64>>()
        };
        assert_eq!(
            list(&mut provider, DATA, DATA + DATA_LEN),
            vec![0, 1, 2, 3, 6, 7, 8, 9]
        );
        assert_eq!(
            list(&mut provider, DATA + 0x2000, DATA + 0x8000),
            vec![2, 3, 6, 7],
            "items reach into the range"
        );
        assert!(list(&mut provider, DATA + 0x4000, DATA + 0x6000).is_empty());
    }
}

#[test]
fn csum_failure_counted_once_across_overlapping_ranges() {
    let store = Store::new(0);
    let s = store.scrub();
    let csum_root = CSUM_ROOT;
    assert!(csum_root != 0, "freshly-formatted fs must have a csum root");

    for (_devid, phys) in s
        .chunk_map
        .lookup_stripes(csum_root)
        .expect("csum root must resolve to physical stripes")
    {
        store.flip(phys);
    }

    let mut provider = LazyCsumProvider::new(NODE, s.strategy, csum_root);
    assert_eq!(
        provider.metadata_errors(),
        0,
        "construction must be lazy: no tree I/O, no counting before any range() call"
    );

    let span = s.superblock.total_bytes.min(16 << 20);
    store.entries(&s.reader, &s.chunk_map, &mut provider, 0, span);
    assert_eq!(
        provider.metadata_errors(),
        1,
        "first walk counts the bad node once"
    );
    store.entries(&s.reader, &s.chunk_map, &mut provider, 0, span);
    assert_eq!(
        provider.metadata_errors(),
        1,
        "second overlapping walk must NOT re-count the same node (dedup by bytenr)"
    );
    assert_eq!(provider.mirror_mismatches(), 0);
    assert_eq!(provider.metadata_read_errors(), 0);

    let store_ok = Store::new(0);
    let s_ok = store_ok.scrub();
    let mut provider_ok = LazyCsumProvider::new(NODE, s_ok.strategy, csum_root);
    store_ok.entries(&s_ok.reader, &s_ok.chunk_map, &mut provider_ok, 0, span);
    assert_eq!(
        provider_ok.metadata_errors(),
        0,
        "healthy fs: no failures counted"
    );
    assert_eq!(provider_ok.mirror_mismatches(), 0);
    assert_eq!(provider_ok.metadata_read_errors(), 0);
}

#[test]
fn stale_csum_branch_counted_once_per_run() {
    let store = Store::new(0);
    let s = store.scrub();
    // A valid child leaf of a later generation, linked with the root's own.
    let mut child = leaf_bytes(
        0,
        CSUM_LEAF_A,
        objectid::CSUM_TREE,
        &[(csum_key(0), vec![0xaa; 4])],
    );
    put64(&mut child, 80, GENERATION + 1);
    seal(&mut child, 0);
    store.node(CSUM_LEAF_A, &child);
    store.node(
        CSUM_ROOT,
        &internal_bytes(
            0,
            CSUM_ROOT,
            objectid::CSUM_TREE,
            &[(csum_key(0), CSUM_LEAF_A, GENERATION)],
        ),
    );

    let mut provider = LazyCsumProvider::new(NODE, s.strategy, CSUM_ROOT);
    let span = s.superblock.total_bytes.min(16 << 20);
    store.entries(&s.reader, &s.chunk_map, &mut provider, 0, span);
    assert_eq!(
        provider.stale_branches(),
        1,
        "first walk counts the stale branch once"
    );
    assert_eq!(
        provider.metadata_errors(),
        0,
        "a stale branch is NOT a metadata-header error"
    );
    store.entries(&s.reader, &s.chunk_map, &mut provider, 0, span);
    assert_eq!(
        provider.stale_branches(),
        1,
        "overlapping walk must NOT re-count the same stale node (dedup by bytenr)"
    );
    assert_eq!(provider.mirror_mismatches(), 0);
    assert_eq!(provider.metadata_read_errors(), 0);
}

#[test]
fn other_failures_of_a_range_are_counted_once() {
    let store = Store::new(0);
    let s = store.scrub();
    let mut provider = LazyCsumProvider::new(NODE, s.strategy, CSUM_ROOT);
    assert_eq!(
        provider.note(5, &WalkStep::ReadError),
        Some(MetadataKind::ReadError)
    );
    assert_eq!(provider.note(5, &WalkStep::ReadError), None);
    assert_eq!(provider.metadata_read_errors(), 1);

    store.flip(CSUM_LEAF_B + 77);
    for _ in 0..2 {
        let list = store.entries(&s.reader, &s.chunk_map, &mut provider, DATA, DATA + DATA_LEN);
        assert_eq!(list.len(), 8, "the good copy serves");
    }
    assert_eq!(provider.mirror_mismatches(), 1);

    store.fault.set(Some((CSUM_LEAF_A, 1)));
    store.fault.set(Some((CSUM_LEAF_A, MIRROR + 1)));
    store.entries(&s.reader, &s.chunk_map, &mut provider, DATA, DATA + 1);
    assert!(provider.metadata_read_errors() > 1);
}

#[test]
fn ranges_say_what_they_counted_first() {
    let store = Store::new(0);
    let s = store.scrub();
    let mut provider = LazyCsumProvider::new(NODE, s.strategy, CSUM_ROOT);
    let mut counted = || {
        store
            .range(&s.reader, &s.chunk_map, &mut provider, DATA, DATA + DATA_LEN)
            .unwrap()
            .counted
    };
    assert!(counted().is_empty());
    store.flip(CSUM_ROOT + 200);
    store.flip(CSUM_LEAF_B + 200);
    store.flip(CSUM_LEAF_B + MIRROR + 200);
    assert_eq!(
        counted(),
        vec![MetadataKind::MirrorMismatch, MetadataKind::HeaderError]
    );
    assert!(counted().is_empty(), "each node once");
}

#[test]
fn contradictory_checksum_leaves_end_a_range() {
    let store = Store::new(0);
    let s = store.scrub();
    let mut provider = LazyCsumProvider::new(NODE, s.strategy, CSUM_ROOT);
    let mut torn = leaf_bytes(
        0,
        CSUM_LEAF_A,
        objectid::CSUM_TREE,
        &[(csum_key(DATA), vec![0xaa; 4])],
    );
    put32(&mut torn, 101 + 21, 9999);
    seal(&mut torn, 0);
    store.node(CSUM_LEAF_A, &torn);
    let mut ask = || {
        store
            .range(&s.reader, &s.chunk_map, &mut provider, DATA, DATA + DATA_LEN)
            .unwrap_err()
    };
    assert_eq!(
        ask(),
        RangeError::Item {
            logical: CSUM_LEAF_A,
            index: 0
        }
    );
    put32(&mut torn, 96, 5000);
    seal(&mut torn, 0);
    store.node(CSUM_LEAF_A, &torn);
    assert_eq!(
        ask(),
        RangeError::Node {
            logical: CSUM_LEAF_A
        }
    );
}

#[test]
fn walks_hint_ahead_and_name_lost_nodes() {
    let store = Store::new(0);
    let ctx = store.open().unwrap();
    let told = RefCell::new(vec![]);
    let pread = |pos: u64, n: usize| store.read(pos, n).ok();
    let tell = |t: WalkTell| told.borrow_mut().push(t);
    store.flip(CSUM_LEAF_B + 200);
    store.flip(CSUM_LEAF_B + MIRROR + 200);
    let mut walk = walk_leaves(CSUM_ROOT);
    let mut visited = vec![];
    while let Some(v) = advance(&mut walk, &ctx.reader, &ctx.chunk_map, &pread, &tell) {
        visited.push(v.logical);
    }
    assert_eq!(visited, vec![CSUM_ROOT, CSUM_LEAF_A, CSUM_LEAF_B]);
    assert_eq!(
        told.into_inner(),
        vec![
            WalkTell::ReadAhead {
                position: CSUM_LEAF_B
            },
            WalkTell::ReadAhead {
                position: CSUM_LEAF_B + MIRROR
            },
            WalkTell::ReadAhead {
                position: CSUM_LEAF_A
            },
            WalkTell::ReadAhead {
                position: CSUM_LEAF_A + MIRROR
            },
            WalkTell::Unverifiable {
                logical: CSUM_LEAF_B,
                mirrors: 2
            },
        ]
    );
}

#[test]
fn contradictory_nodes_are_refused() {
    let lie = |store: &Store, at: u64, owner: u64| {
        let mut b = leaf_bytes(0, at, owner, &[]);
        put32(&mut b, 96, 5000);
        seal(&mut b, 0);
        store.node(at, &b);
    };
    let store = Store::new(0);
    lie(&store, ROOT, 1);
    assert!(matches!(
        store.open(),
        Err(OpenError::NodeMalformed { logical: ROOT })
    ));

    let store = Store::new(0);
    let ctx = store.open().unwrap();
    lie(&store, DEV_ROOT, objectid::DEV_TREE);
    let pread = |pos: u64, n: usize| store.read(pos, n).ok();
    let none = |_: WalkTell| {};
    assert!(matches!(
        BtrfsScrub::open(ctx, "x".to_string(), &pread, &none),
        Err(DevExtentError::NodeMalformed { logical: DEV_ROOT })
    ));

    let s = Store::new(0).scrub();
    let mut rec = BtrfsReconfirmer::new(s.strategy);
    let req = ReconfirmRequest {
        token: DATA,
        stored_csum: vec![0; 4],
    };
    let sb = store.superblock();
    lie(&store, EXTENT_ROOT, objectid::EXTENT_TREE);
    assert!(matches!(
        store.reconfirm(&s, &mut rec, Some(&sb), &req),
        Err(LiveError::Contradiction)
    ));
    let mut rec = BtrfsReconfirmer::new(s.strategy);
    lie(&store, ROOT, 1);
    assert!(matches!(
        store.reconfirm(&s, &mut rec, Some(&sb), &req),
        Err(LiveError::Roots(OpenError::NodeMalformed { logical: ROOT }))
    ));
    assert!(file_extents(&s.reader, &s.chunk_map, &pread, &none, ROOT).is_none());
}

// ---------------------------------------------------------------------------
// Scrubbing
// ---------------------------------------------------------------------------

#[test]
fn clean_device_is_checked_sector_by_sector() {
    for ty in 0..4 {
        for depth in [1, 2, 4] {
            let store = Store::new(ty);
            let mut s = store.scrub();
            let p = pass(&store, &mut s, false, depth, false);
            let stats = p.stats.unwrap();
            assert_eq!(stats.sectors_checked, 8);
            assert_eq!(stats.sectors_ok, 8);
            assert_eq!(stats.bytes_checked, 8 * SECTOR as u64);
            assert!(p.emitted.is_empty());
            assert_eq!(
                p.commands,
                vec![(DATA_PHYS, 4 * SECTOR), (DATA_PHYS + 0x6000, 4 * SECTOR)]
            );
            assert!(p.told.contains(&Tell::Progress(DATA_LEN)));
            assert!(p.told.iter().any(|t| matches!(
                t,
                Tell::NoChunk(DevExtent {
                    phys_start: 0x5f_0000,
                    ..
                })
            )));
            let roll = s.rollup(&stats);
            assert_eq!(roll.sectors_ok, 8);
            assert_eq!(roll.metadata_header_errors, 0);
            assert_eq!(roll.stale_csum_branches, 0);
        }
    }
}

#[test]
fn mismatches_are_settled_against_live_metadata() {
    let store = Store::new(0);
    let mut s = store.scrub();
    // Sector 1 is corrupt, sector 8 lies in an extent without checksums.
    store.flip(DATA_PHYS + SECTOR as u64 + 9);
    store.flip(DATA_PHYS + 8 * SECTOR as u64 + 9);
    let p = pass(&store, &mut s, false, 2, false);
    let stats = p.stats.unwrap();
    assert_eq!(stats.sectors_checked, 8);
    assert_eq!(stats.sectors_ok, 6);
    assert_eq!(stats.sectors_mismatch, 1);
    assert_eq!(stats.sectors_stale, 1);
    assert_eq!(p.emitted, vec![(DATA + SECTOR as u64, false)]);

    // In batch mode nothing is settled: both are handed on.
    let p = pass(&store, &mut s, true, 2, false);
    let stats = p.stats.unwrap();
    assert_eq!((stats.sectors_mismatch, stats.sectors_stale), (0, 0));
    assert_eq!(
        p.emitted,
        vec![(DATA + SECTOR as u64, false), (DATA + 0x8000, false)]
    );

    // Without live roots a mismatch is a read error.
    store.node(ROOT, &leaf_bytes(0, ROOT, 1, &[]));
    let p = pass(&store, &mut s, false, 2, false);
    assert_eq!(p.stats.unwrap().sectors_read_error, 2);
    assert!(p.emitted.is_empty());
}

#[test]
fn unreadable_sectors_are_isolated() {
    let store = Store::new(0);
    let mut s = store.scrub();
    store.fault.set(Some((DATA_PHYS + 0x2000, 16)));
    let p = pass(&store, &mut s, true, 1, false);
    let stats = p.stats.unwrap();
    assert_eq!(stats.sectors_checked, 8);
    assert_eq!(stats.sectors_ok, 7);
    assert_eq!(stats.sectors_read_error, 1);
    assert_eq!(p.emitted, vec![(DATA + 0x2000, true)]);
    assert!(p.told.contains(&Tell::ReadError {
        phys: DATA_PHYS + 0x2000,
        devid: 1,
        logical: DATA + 0x2000
    }));

    let p = pass(&store, &mut s, false, 1, false);
    assert_eq!(p.stats.unwrap().sectors_read_error, 1);
    assert!(p.emitted.is_empty(), "nothing can rebuild it outside batch mode");
}

#[test]
fn what_was_read_before_the_reader_went_is_still_verified() {
    let store = Store::new(0);
    let mut s = store.scrub();
    store.flip(DATA_PHYS + SECTOR as u64 + 9);
    store.flip(DATA_PHYS + 8 * SECTOR as u64 + 9);
    let first = (DATA + SECTOR as u64, false);
    let counted = |p: &Pass| p.told.iter().filter(|t| matches!(t, Tell::Counted(_))).count();
    let progress = |p: &Pass| p.told.iter().any(|t| matches!(t, Tell::Progress(_)));

    // The second command is refused while the first response is under way.
    let p = cut_pass(&store, &mut s, true, 4, 1, usize::MAX);
    assert_eq!(p.stats, Err(ScrubError::PipelineFailed));
    assert_eq!(p.commands, vec![(DATA_PHYS, 4 * SECTOR)]);
    assert_eq!(p.emitted, vec![first]);
    assert_eq!(counted(&p), 1);
    assert!(!progress(&p), "the extent was not finished");

    // The second command is refused, and the first response is lost too.
    let p = cut_pass(&store, &mut s, true, 4, 1, 0);
    assert_eq!(p.stats, Err(ScrubError::PipelineFailed));
    assert!(p.emitted.is_empty());
    assert_eq!(counted(&p), 0);

    // Both commands go out, and the second response is lost.
    for depth in [1, 2, 4] {
        let p = cut_pass(&store, &mut s, true, depth, 2, 1);
        assert_eq!(p.stats, Err(ScrubError::PipelineFailed));
        assert_eq!(p.commands.len(), 2);
        assert_eq!(p.emitted, vec![first], "depth {depth}");
    }
}

#[test]
fn dead_reader_fails_the_scrub() {
    let store = Store::new(0);
    let mut s = store.scrub();
    let p = pass(&store, &mut s, true, 4, true);
    assert_eq!(p.stats, Err(ScrubError::PipelineFailed));
    s.dev_extents[1].length = u64::MAX;
    let p = pass(&store, &mut s, true, 4, false);
    assert_eq!(
        p.stats,
        Err(ScrubError::OutOfRange {
            phys_start: DATA_PHYS
        })
    );
}

#[test]
fn scrub_is_described() {
    let store = Store::new(0);
    let s = store.scrub();
    let lines = s.describe().unwrap();
    assert_eq!(lines.len(), 17);
    assert_eq!(lines[0], "device        : /dev/x");
    assert_eq!(lines[1], "base offset   : 0x0 (0)");
    assert_eq!(
        lines[2],
        format!("magic         : {:?}", s.superblock.magic)
    );
    assert_eq!(lines[3], format!("fsid          : {}", "07".repeat(16)));
    assert_eq!(lines[6], "root          : 0x200000");
    assert_eq!(lines[14], "csum_type     : 0 (crc32c)");
    // Extents of 0x80000, 0x80000 and 0x1000 bytes.
    assert_eq!(lines[15], "csum sectors  : 257 (1052672 bytes)");
    assert_eq!(lines[16], "dev extents   : 3");
    assert_eq!(s.csum_sectors(), Some(257));
    assert_eq!(s.superblock_offset(), 0x10000);
    assert!(s.block_has_magic(&superblock_bytes(0, &[])));
    assert!(!s.block_has_magic(&[0; 4096]));
}

#[test]
fn status_totals_are_seeded() {
    let store = Store::new(0);
    store.flip(DEV_ROOT + 300);
    let s = store.scrub();
    let mut c = StatusCounters::new();
    assert!(s.has_status() && s.has_totals());
    s.set_status(&mut c);
    assert_eq!(c.progress_total, DATA_LEN);
    assert_eq!(c.metadata_mirror_mismatches, 1);

    let mut ctx = store.open().unwrap();
    ctx.roots.dev_tree_root = None;
    let pread = |pos: u64, n: usize| store.read(pos, n).ok();
    let s = BtrfsScrub::open(ctx, "x".to_string(), &pread, &|_: WalkTell| {}).unwrap();
    assert_eq!(s.counts.header_errors, 1, "nothing to scrub is no success");
    assert!(s.dev_extents.is_empty());

    let mut s = store.scrub();
    let data = *s
        .dev_extents
        .iter()
        .find(|d| d.phys_start == DATA_PHYS)
        .unwrap();
    s.dev_extents.push(DevExtent {
        length: u64::MAX,
        ..data
    });
    assert!(s.has_totals() && !s.has_status(), "too many bytes");
}

#[test]
fn findings_become_log_lines_and_events() {
    let s = strategy(0);
    let mut r = SectorResult {
        logical: 0x40_1000,
        devid: 1,
        array_phys: 0x50_1000,
        inode: 257,
        file_offset: 4096,
        stored_csum: Some(vec![0xde, 0xad, 0xbe, 0xef]),
        actual_csum: vec![1, 2, 3, 4],
        unreadable: false,
        ok: false,
    };
    assert_eq!(
        mismatch_line(&r),
        "  MISMATCH logical=0x401000 devid=1 array_phys=0x501000 ino=257 off=0x1000 \
         stored=0xdeadbeef actual=0x01020304"
    );
    let ev = event_of(&r, &s);
    assert_eq!(ev.array_phys, 0x50_1000);
    assert_eq!(ev.block_size, 4096);
    let req = ev.reconfirm.as_ref().unwrap();
    assert_eq!(req.token, 0x40_1000);
    assert_eq!(req.stored_csum, vec![0xde, 0xad, 0xbe, 0xef]);
    let sum = s.compute(b"abc");
    r.stored_csum = Some(sum);
    let ev = event_of(&r, &s);
    assert!(ev.verify.as_ref().unwrap().accepts(b"abc"));
    assert!(!ev.verify.as_ref().unwrap().accepts(b"abd"));
    r.stored_csum = None;
    assert!(mismatch_line(&r).ends_with("off=0x1000 actual=0x01020304 (no stored csum)"));
    assert!(event_of(&r, &s).verify.is_none());
}

// ---------------------------------------------------------------------------
// Re-confirming
// ---------------------------------------------------------------------------

#[test]
fn cache_hit_only_at_exact_generation() {
    let cached = Some((42u64, 0x1000u64, 0x2000u64));

    assert_eq!(cached_roots_at(cached, 42), Some((0x1000, 0x2000)));

    assert_eq!(cached_roots_at(cached, 43), None);

    assert_eq!(cached_roots_at(cached, 41), None);

    assert_eq!(cached_roots_at(None, 42), None);
}

#[test]
fn reconfirmer_remembers_the_roots_of_a_generation() {
    let mut r = BtrfsReconfirmer::new(strategy(0));
    assert_eq!(r.roots_at(5), None);
    r.remember(5, (1, 2));
    assert_eq!(r.roots_at(5), Some((1, 2)));
    assert_eq!(r.roots_at(6), None);
    r.remember(6, (3, 4));
    assert_eq!(r.roots_at(5), None);
    assert_eq!(r.roots_at(6), Some((3, 4)));
}

#[test]
fn only_live_checksummed_sectors_are_called_corrupt() {
    let store = Store::new(0);
    let s = store.scrub();
    let stored = |i: u64| s.strategy.compute(&sector_bytes(i));
    let ask = |i: u64, sum: Vec<u8>| {
        store
            .live(&s, DATA + i * SECTOR as u64, &sum)
            .verdict
            .unwrap()
    };
    assert_eq!(ask(0, stored(0)), Reconfirm::Corruption);
    assert_eq!(ask(3, stored(3)), Reconfirm::Corruption);
    assert_eq!(ask(6, stored(6)), Reconfirm::Corruption);
    assert_eq!(ask(0, stored(1)), Reconfirm::Stale, "checksum was rewritten");
    assert_eq!(ask(4, stored(4)), Reconfirm::Stale, "hole");
    assert_eq!(ask(8, stored(8)), Reconfirm::Stale, "written nodatasum");

    store.flip(CSUM_LEAF_A + 200);
    store.flip(CSUM_LEAF_A + MIRROR + 200);
    assert_eq!(ask(0, stored(0)), Reconfirm::Unverifiable);
    store.fault.set(Some((EXTENT_ROOT, MIRROR + 1)));
    assert_eq!(ask(0, stored(0)), Reconfirm::Unverifiable);
}

#[test]
fn live_roots_are_found_once_per_generation() {
    let store = Store::new(0);
    let s = store.scrub();
    let mut rec = BtrfsReconfirmer::new(s.strategy);
    let req = ReconfirmRequest {
        token: DATA,
        stored_csum: s.strategy.compute(&sector_bytes(0)),
    };
    let sb = store.superblock();
    let v = store.reconfirm(&s, &mut rec, Some(&sb), &req).unwrap();
    assert_eq!(v.verdict, Reconfirm::Corruption);
    assert!(v.counted.is_empty());
    assert_eq!(rec.roots_at(sb.generation), Some((EXTENT_ROOT, CSUM_ROOT)));

    // The root tree is gone, but its roots are known for this generation.
    store.flip(ROOT + 300);
    store.flip(ROOT + MIRROR + 300);
    let v = store.reconfirm(&s, &mut rec, Some(&sb), &req).unwrap();
    assert_eq!(v.verdict, Reconfirm::Corruption);

    // A later generation must look them up again, and cannot.
    let mut later = store.superblock();
    later.generation += 1;
    let v = store.reconfirm(&s, &mut rec, Some(&later), &req).unwrap();
    assert_eq!(v.verdict, Reconfirm::Unverifiable);
    assert_eq!(
        v.counted,
        vec![MetadataKind::HeaderError, MetadataKind::HeaderError],
        "the root node, and the roots that were not found"
    );
    assert_eq!(rec.roots_at(sb.generation), Some((EXTENT_ROOT, CSUM_ROOT)));

    let v = store.reconfirm(&s, &mut rec, None, &req).unwrap();
    assert_eq!(v.verdict, Reconfirm::Unverifiable);
    assert_eq!(v.counted, vec![MetadataKind::ReadError]);
    let check = store.live(&s, DATA, &req.stored_csum);
    assert_eq!(check.verdict, None, "no live roots");
}

#[test]
fn torn_items_end_a_reconfirmation() {
    let s = strategy(0);
    let mut w = ReconfirmWalk::new(1, 2, DATA, vec![0; 4], s.hash_len, s.sector_size);
    assert_eq!(w.wanted(), Some(1));
    let mut leaf = parsed_leaf(&[(
        Key::new(DATA, key_type::EXTENT_ITEM, 0x1000),
        extent_item(1),
    )]);
    leaf.slots[0].data_size = 9999;
    w.feed(Some(Node::Leaf(leaf)));
    assert!(matches!(w.phase, Phase::OutOfBounds));
    assert!(w.wanted().is_none() && w.verdict().is_none());
}

#[test]
fn covering_extent_is_found_in_an_earlier_leaf() {
    const SHARED_DATA_REF: u8 = 184;
    let s = strategy(0);
    let extent = Key::new(DATA, key_type::EXTENT_ITEM, 0x2000);
    let back_ref = |offset: u64| Key::new(DATA, SHARED_DATA_REF, offset);
    let walk = |logical: u64| {
        ReconfirmWalk::new(1, 2, logical, vec![0; 4], s.hash_len, s.sector_size)
    };
    let root = || {
        Node::parse(internal_bytes(
            0,
            1,
            2,
            &[
                (Key::new(0, key_type::EXTENT_ITEM, 0), 10, GENERATION),
                (back_ref(5), 11, GENERATION),
                (back_ref(7), 12, GENERATION),
            ],
        ))
    };
    let refs = |offset: u64| Some(Node::Leaf(parsed_leaf(&[(back_ref(offset), vec![0; 4])])));

    // Two leaves of back references stand between the extent and the address.
    let mut w = walk(DATA + 0x1000);
    w.feed(Some(root()));
    assert_eq!(w.wanted(), Some(12));
    w.feed(refs(7));
    assert_eq!(w.wanted(), Some(11));
    w.feed(refs(5));
    assert_eq!(w.wanted(), Some(10));
    w.feed(Some(Node::Leaf(parsed_leaf(&[
        (Key::new(0x1000, key_type::EXTENT_ITEM, 0x1000), extent_item(1)),
        (extent, extent_item(1)),
    ]))));
    assert_eq!(w.wanted(), Some(2), "the extent is live: its checksum is looked up");

    // Where no leaf has an extent at or before the address it was freed.
    let mut w = walk(DATA + 0x1000);
    w.feed(Some(root()));
    w.feed(refs(7));
    w.feed(refs(5));
    w.feed(refs(3));
    assert_eq!(w.verdict(), Some(Reconfirm::Stale));

    // A leaf on the way back that cannot be read leaves it open.
    let mut w = walk(DATA + 0x1000);
    w.feed(Some(root()));
    w.feed(refs(7));
    w.feed(None);
    assert_eq!(w.verdict(), Some(Reconfirm::Unverifiable));

    // The last extent before the address decides, also where it ends too early.
    let mut w = walk(DATA + 0x2000);
    w.feed(Some(root()));
    w.feed(refs(7));
    w.feed(refs(5));
    w.feed(Some(Node::Leaf(parsed_leaf(&[(extent, extent_item(1))]))));
    assert_eq!(w.verdict(), Some(Reconfirm::Stale));
}

#[test]
fn repeated_ranges_give_the_same_and_count_nothing_anew() {
    let store = Store::new(0);
    let s = store.scrub();
    store.flip(CSUM_LEAF_B + 300);
    store.flip(CSUM_LEAF_B + MIRROR + 300);
    let mut provider = LazyCsumProvider::new(NODE, s.strategy, CSUM_ROOT);
    let first = store.entries(&s.reader, &s.chunk_map, &mut provider, DATA, DATA + DATA_LEN);
    let counts = |p: &LazyCsumProvider| {
        (
            p.metadata_errors(),
            p.mirror_mismatches(),
            p.metadata_read_errors(),
            p.stale_branches(),
        )
    };
    let before = counts(&provider);
    assert_eq!(before.0, 1);
    let second = store.entries(&s.reader, &s.chunk_map, &mut provider, DATA, DATA + DATA_LEN);
    let plain = |v: &Vec<CsumEntry>| -> Vec<(u64, Vec<u8>)> {
        v.iter().map(|e| (e.logical, e.csum.clone())).collect()
    };
    assert!(!first.is_empty());
    assert_eq!(plain(&first), plain(&second));
    assert_eq!(counts(&provider), before);
}

#[test]
fn only_sectors_that_are_read_must_lie_inside_the_address_space() {
    let store = Store::new(0);
    let mut s = store.scrub();
    let at = s
        .dev_extents
        .iter()
        .position(|d| d.phys_start == DATA_PHYS)
        .unwrap();
    // The extent ends outside, the sectors that have checksums do not.
    s.dev_extents[at].phys_start = u64::MAX - 0x3_ffff;
    let p = pass(&store, &mut s, true, 1, true);
    assert_eq!(p.stats, Err(ScrubError::PipelineFailed), "the reader was asked");
    s.dev_extents[at].phys_start = u64::MAX - 0x1fff;
    let p = pass(&store, &mut s, true, 1, true);
    assert_eq!(
        p.stats,
        Err(ScrubError::OutOfRange {
            phys_start: u64::MAX - 0x1fff
        })
    );
}

#[test]
fn endless_descents_are_cut_off() {
    let s = strategy(0);
    let mut w = ReconfirmWalk::new(1, 2, DATA, vec![0; 4], s.hash_len, s.sector_size);
    let mut reads = 0;
    while w.wanted().is_some() {
        let node = Node::parse(internal_bytes(
            0,
            1,
            2,
            &[(Key::new(0, key_type::EXTENT_ITEM, 0), 1, GENERATION)],
        ));
        w.feed(Some(node));
        reads += 1;
        assert!(reads <= 64);
    }
    assert_eq!(w.verdict(), Some(Reconfirm::Unverifiable));
}

#[test]
fn mismatches_settle_on_evidence() {
    let s = strategy(0);
    let stored = s.compute(b"right");
    assert_eq!(settle_mismatch(&s, &stored, None, None), Settled::ReadError);
    assert_eq!(
        settle_mismatch(&s, &stored, Some(Reconfirm::Stale), None),
        Settled::Stale
    );
    assert_eq!(
        settle_mismatch(&s, &stored, Some(Reconfirm::Unverifiable), None),
        Settled::ReadError
    );
    assert_eq!(
        settle_mismatch(&s, &stored, Some(Reconfirm::Corruption), Some(b"wrong")),
        Settled::Corruption
    );
    assert_eq!(
        settle_mismatch(&s, &stored, Some(Reconfirm::Corruption), Some(b"right")),
        Settled::Stale
    );
    assert_eq!(
        settle_mismatch(&s, &stored, Some(Reconfirm::Corruption), None),
        Settled::Corruption
    );
}

#[test]
fn chunks_are_mapped_by_address() {
    let mut m = ChunkMap::default();
    assert!(m.is_empty());
    for (logical, phys) in [(0x3000u64, 0x100u64), (0x1000, 0x200)] {
        m.insert(&ChunkRecord {
            logical,
            chunk: ChunkItem {
                length: 0x1000,
                stripe_len: 0x1000,
                ty: bg_flag::DATA,
                num_stripes: 1,
                stripes: vec![Stripe {
                    devid: 1,
                    offset: phys,
                }],
            },
        });
    }
    assert_eq!(m.len(), 2);
    assert_eq!(m.lookup(0x1fff), Some((1, 0x200 + 0xfff)));
    assert_eq!(m.lookup(0x2000), None);
    assert_eq!(m.lookup(0x3000), Some((1, 0x100)));
    assert_eq!(m.info(0x3001).unwrap().length, 0x1000);
    assert!(m.info(0).is_none());
}
