//! Parity recovery of one corrupt block whose stored checksum is a crc32c.
//!
//! For a confirmed corrupt block on a data disk, XOR all other data disks plus
//! the parity disk at the same offset to reconstruct the original data, then
//! verify it against the stored checksum and (optionally) write it back. Where P
//! does not give the block, Q is tried, then both together against each other
//! disk as a second corrupt one.
//!
//! All reads and writes are in raw-rdev space: writing through the array
//! partition would make the driver recompute parity from the recovered data.

use vstd::prelude::*;

use crate::array::config::ArrayConfig;
use crate::array::path;
use crate::array::resolve::ResolvedLocation;
use crate::array::stripe;
use crate::bytes;
use crate::hash;
use crate::recovery::engine;
use crate::recovery::laws;

verus! {

/// Outcome of a single sector recovery attempt.
#[derive(Debug)]
pub enum RecoveryResult {
    /// Successfully reconstructed and (if not dry-run) wrote back the data.
    Recovered {
        location: ResolvedLocation,
        /// Which parity disk reconstructed the block (P = XOR, Q = GF(2^8)).
        via: ParityPath,
        expected_csum: u32,
        recovered_csum: u32,
        written: bool,
    },
    /// The sector is not actually corrupt (on-disk data matches the stored
    /// checksum).
    NotCorrupt { location: ResolvedLocation, on_disk_csum: u32, expected_csum: u32 },
    /// Recovery failed for a known reason.
    Failed { location: ResolvedLocation, reason: FailureReason },
}

/// Which parity disk(s) a recovery attempt used.
#[derive(Debug, Clone, Copy, PartialEq, Eq, Structural)]
pub enum ParityPath {
    /// Single-parity: XOR of all other data disks plus P.
    P,
    /// Single-parity: GF(2^8) reconstruction from Q.
    Q,
    /// Dual-parity: P and Q simultaneously. `partner_slot` is the other data
    /// disk assumed to be corrupt too.
    PQ { partner_slot: u64 },
}

/// Why a recovery attempt failed.
#[derive(Debug)]
pub enum FailureReason {
    /// XOR of all disks (including the corrupt one) is zero: the corruption has
    /// been baked into parity P.
    ParityBakedIn,
    /// Recovered data's checksum does not match the stored checksum. `via` is
    /// the parity path that produced the bad result.
    CsumMismatch { via: ParityPath, recovered_csum: u32, expected_csum: u32 },
    /// I/O error while reading a disk or writing back.
    Io(String),
    /// A second data disk was corrupt at the same offset.
    TwoDiskNeeded { partner_slot: u64 },
    /// Every recovery path failed; `pq_partners_tried` lists the slots tried as
    /// second corrupt disk.
    AllPathsFailed {
        p_reason: Box<FailureReason>,
        q_reason: Box<FailureReason>,
        pq_partners_tried: Vec<u64>,
    },
    /// P and Q both failed and the array has no Q disk.
    BothPathsFailed { p_reason: Box<FailureReason>, q_reason: Box<FailureReason> },
}

/// Configuration for the recovery pass.
#[derive(Debug, Clone, Copy, PartialEq, Eq, Structural)]
pub struct RecoverOpts {
    /// If true, say what would be written but do not modify any disk.
    pub dry_run: bool,
}

impl Default for RecoverOpts {
    fn default() -> (r: Self)
        ensures
            r.dry_run,
    {
        RecoverOpts { dry_run: true }
    }
}

// ---------------------------------------------------------------------------
// Reading
// ---------------------------------------------------------------------------

/// The kinds of device error that matter here.
#[derive(Debug, Clone, Copy, PartialEq, Eq, Structural)]
pub enum Fault {
    NotFound,
    PermissionDenied,
    InvalidInput,
    UnexpectedEof,
    Other,
}

/// What asking a device for a block came to.
#[derive(Debug)]
pub enum SectorRead {
    OpenFailed { fault: Fault, message: String },
    SeekFailed { fault: Fault, message: String },
    ReadFailed { fault: Fault, message: String },
    /// The bytes that are there, at most as many as were asked for.
    Bytes(Vec<u8>),
}

/// The block that a read stands for. A smaller disk's missing region counts as
/// zeros in the parity relationship, and so does a disk that is gone.
pub open spec fn sector_block(outcome: SectorRead, n: nat) -> Result<Seq<u8>, Seq<char>> {
    match outcome {
        SectorRead::OpenFailed { fault, message } => if fault is NotFound
            || fault is PermissionDenied {
            Ok(stripe::zeros(n))
        } else {
            Err(message@)
        },
        SectorRead::SeekFailed { fault, message } => if fault is InvalidInput {
            Ok(stripe::zeros(n))
        } else {
            Err(message@)
        },
        SectorRead::ReadFailed { fault, message } => if fault is UnexpectedEof
            || fault is InvalidInput {
            Ok(stripe::zeros(n))
        } else {
            Err(message@)
        },
        SectorRead::Bytes(b) => Ok(b@ + stripe::zeros((n - b@.len()) as nat)),
    }
}

/// Reads one block, or a zero block where the read falls past the device end.
pub fn read_block_or_zeros(outcome: SectorRead, block_size: usize) -> (r: Result<Vec<u8>, String>)
    requires
        outcome matches SectorRead::Bytes(b) ==> b@.len() <= block_size,
    ensures
        match r {
            Ok(b) => sector_block(outcome, block_size as nat) == Ok::<Seq<u8>, Seq<char>>(b@)
                && b@.len() == block_size,
            Err(e) => sector_block(outcome, block_size as nat) == Err::<Seq<u8>, Seq<char>>(e@),
        },
{
    let blank: Vec<u8> = vec![0u8; block_size];
    assert(blank@ =~= stripe::zeros(block_size as nat));
    match outcome {
        SectorRead::OpenFailed { fault, message } => match fault {
            Fault::NotFound | Fault::PermissionDenied => Ok(blank),
            _ => Err(message),
        },
        SectorRead::SeekFailed { fault, message } => match fault {
            Fault::InvalidInput => Ok(blank),
            _ => Err(message),
        },
        SectorRead::ReadFailed { fault, message } => match fault {
            Fault::UnexpectedEof | Fault::InvalidInput => Ok(blank),
            _ => Err(message),
        },
        SectorRead::Bytes(bytes) => {
            let ghost first = bytes@;
            let mut buf = bytes;
            while buf.len() < block_size
                invariant
                    first.len() <= buf@.len() <= block_size,
                    buf@ == first + stripe::zeros((buf@.len() - first.len()) as nat),
                decreases block_size - buf@.len(),
            {
                buf.push(0u8);
                assert(buf@ =~= first + stripe::zeros((buf@.len() - first.len()) as nat));
            }
            Ok(buf)
        },
    }
}

/// The block can be asked for, and no more comes than was asked for.
pub open spec fn block_answers<D: Fn(&String, u64, usize) -> SectorRead>(
    device: D,
    path: &String,
    pos: int,
    n: usize,
) -> bool {
    &&& call_requires(device, (path, pos as u64, n))
    &&& forall|b: Vec<u8>| #[trigger]
        call_ensures(device, (path, pos as u64, n), SectorRead::Bytes(b)) ==> b@.len() <= n
}

/// The stripe's block on a disk can be asked for.
pub open spec fn chunk_answers<D: Fn(&String, u64, usize) -> SectorRead>(
    config: ArrayConfig,
    device: D,
    path: &String,
    array_phys: u64,
    n: usize,
) -> bool {
    block_answers(device, path, array_phys + config.offset(path@), n)
}

/// Every block that recovering the sector takes can be asked for, and no other:
/// the sector itself, the stripe's block on each of the other data disks, P and
/// Q.
pub open spec fn device_answers<D: Fn(&String, u64, usize) -> SectorRead>(
    config: ArrayConfig,
    location: ResolvedLocation,
    n: usize,
    device: D,
) -> bool {
    &&& block_answers(device, &location.dev_path, location.raw_phys as int, n)
    &&& forall|k: int|
        0 <= k < config.disks().len() && !path::same_path(
            (#[trigger] config.disks()[k]).1@,
            location.dev_path@,
        ) ==> chunk_answers(config, device, &config.disks()[k].1, location.array_phys, n)
    &&& config.parity_p matches Some(p) ==> chunk_answers(
        config,
        device,
        &p,
        location.array_phys,
        n,
    )
    &&& config.parity_q matches Some(q) ==> chunk_answers(
        config,
        device,
        &q,
        location.array_phys,
        n,
    )
}

/// Reading a block may give `out`.
pub open spec fn sector_read<D: Fn(&String, u64, usize) -> SectorRead>(
    device: D,
    path: &String,
    pos: int,
    n: usize,
    out: Result<Seq<u8>, Seq<char>>,
) -> bool {
    exists|o: SectorRead| #[trigger]
        call_ensures(device, (path, pos as u64, n), o) && sector_block(o, n as nat) == out
}

/// Reads a block from a device.
fn read_from<D: Fn(&String, u64, usize) -> SectorRead>(
    device: &D,
    path: &String,
    pos: u64,
    block_size: usize,
) -> (r: Result<Vec<u8>, String>)
    requires
        block_answers(*device, path, pos as int, block_size),
    ensures
        match r {
            Ok(b) => sector_read(*device, path, pos as int, block_size, Ok(b@)) && b@.len()
                == block_size,
            Err(e) => sector_read(*device, path, pos as int, block_size, Err(e@)),
        },
{
    let outcome = device(path, pos, block_size);
    let ghost o = outcome;
    assert(call_ensures(*device, (path, pos, block_size), o));
    read_block_or_zeros(outcome, block_size)
}

/// A parity block, as far as it is there.
#[derive(Debug)]
pub enum ParityBlock {
    /// The array has no such disk.
    Absent,
    /// The disk could not be read.
    Unreadable,
    Block(Vec<u8>),
}

/// The chunks around a corrupt block.
#[derive(Debug)]
pub struct Readings {
    /// The bytes on the failing disk.
    pub corrupt: Vec<u8>,
    /// (slot, block) of every other data disk.
    pub others: Vec<(u64, Vec<u8>)>,
    pub p: ParityBlock,
    pub q: ParityBlock,
}

/// What reading a parity disk may come to.
pub open spec fn parity_reading<D: Fn(&String, u64, usize) -> SectorRead>(
    config: ArrayConfig,
    disk: Option<String>,
    array_phys: u64,
    n: usize,
    device: D,
    out: ParityBlock,
) -> bool {
    match disk {
        None => out is Absent,
        Some(path) => {
            let pos = array_phys + config.offset(path@);
            match out {
                ParityBlock::Absent => false,
                ParityBlock::Block(b) => b@.len() == n && sector_read(
                    device,
                    &path,
                    pos,
                    n,
                    Ok(b@),
                ),
                ParityBlock::Unreadable => exists|e: Seq<char>| #[trigger]
                    sector_read(device, &path, pos, n, Err(e)),
            }
        },
    }
}

/// `out` holds what reading gave of the first `k` data disks, in slot order and
/// without the failing one. Each is read at its own offset.
pub open spec fn other_readings<D: Fn(&String, u64, usize) -> SectorRead>(
    config: ArrayConfig,
    location: ResolvedLocation,
    n: usize,
    device: D,
    k: int,
    out: Seq<(u64, Vec<u8>)>,
) -> bool
    decreases k,
{
    if k <= 0 {
        out.len() == 0
    } else {
        let disk = config.disks()[k - 1];
        if path::same_path(disk.1@, location.dev_path@) {
            other_readings(config, location, n, device, k - 1, out)
        } else {
            &&& out.len() > 0
            &&& out.last().0 == disk.0
            &&& sector_read(
                device,
                &disk.1,
                location.array_phys + config.offset(disk.1@),
                n,
                Ok(out.last().1@),
            )
            &&& other_readings(config, location, n, device, k - 1, out.drop_last())
        }
    }
}

/// `s` is what reading the stripe gave.
pub open spec fn readings<D: Fn(&String, u64, usize) -> SectorRead>(
    config: ArrayConfig,
    location: ResolvedLocation,
    n: usize,
    device: D,
    s: Readings,
) -> bool {
    &&& sector_read(device, &location.dev_path, location.raw_phys as int, n, Ok(s.corrupt@))
    &&& other_readings(config, location, n, device, config.disks().len() as int, s.others@)
    &&& parity_reading(config, config.parity_p, location.array_phys, n, device, s.p)
    &&& parity_reading(config, config.parity_q, location.array_phys, n, device, s.q)
}

// ---------------------------------------------------------------------------
// Deciding
// ---------------------------------------------------------------------------

/// What the chunks around a block say about it.
#[derive(Debug)]
pub enum Decision {
    /// The block on disk matches the stored checksum.
    NotCorrupt { on_disk_csum: u32 },
    /// The block that parity gives, and which has the stored checksum.
    Block { via: ParityPath, block: Vec<u8> },
    /// Nothing gives a block with the stored checksum.
    Failed { reason: FailureReason },
}

/// P was recomputed from the corrupt bytes: the XOR of everything is zero.
pub open spec fn p_baked_in(s: Readings, p: Seq<u8>) -> bool {
    engine::p_candidate(s.others@, p) == s.corrupt@
}

/// P gave no block, for this reason.
pub open spec fn p_failed(s: Readings, expected: u32, reason: FailureReason) -> bool {
    match s.p {
        ParityBlock::Absent => reason matches FailureReason::Io(m) && m@
            == "no primary parity disk in array config"@,
        ParityBlock::Unreadable => reason matches FailureReason::Io(m) && m@
            == "read parity P failed"@,
        ParityBlock::Block(p) => {
            let csum = hash::crc32c_of(engine::p_candidate(s.others@, p@));
            if p_baked_in(s, p@) {
                reason is ParityBakedIn
            } else {
                &&& csum != expected
                &&& reason == (FailureReason::CsumMismatch {
                    via: ParityPath::P,
                    recovered_csum: csum,
                    expected_csum: expected,
                })
            }
        },
    }
}

/// Q gave no block, for this reason.
pub open spec fn q_failed(s: Readings, slot: u64, expected: u32, reason: FailureReason) -> bool {
    match s.q {
        ParityBlock::Absent => reason matches FailureReason::Io(m) && m@
            == "no secondary parity (Q) disk in array config"@,
        ParityBlock::Unreadable => reason matches FailureReason::Io(m) && m@
            == "read parity Q failed"@,
        ParityBlock::Block(q) => {
            let csum = hash::crc32c_of(engine::q_candidate(s.others@, q@, slot));
            &&& csum != expected
            &&& reason == (FailureReason::CsumMismatch {
                via: ParityPath::Q,
                recovered_csum: csum,
                expected_csum: expected,
            })
        },
    }
}

/// The two-disk solution with the `n`-th other disk as partner.
pub open spec fn partner_block(s: Readings, slot: u64, n: int) -> Seq<u8> {
    engine::pq_candidate(s.others@, s.p->Block_0@, s.q->Block_0@, slot, s.others@[n].0)
}

/// The two-disk solve with the `n`-th other disk as partner gave no block.
pub open spec fn partner_failed(s: Readings, slot: u64, expected: u32, n: int) -> bool {
    ||| !engine::two_disk_solvable(slot, s.others@[n].0)
    ||| hash::crc32c_of(partner_block(s, slot, n)) != expected
}

/// What the chunks say: the first of the block on disk, the P block, the Q block
/// and the two-disk blocks in disk order that has the stored checksum, else the
/// reasons of all of them.
pub open spec fn decides(s: Readings, slot: u64, expected: u32, d: Decision) -> bool {
    let on_disk = hash::crc32c_of(s.corrupt@);
    match d {
        Decision::NotCorrupt { on_disk_csum } => on_disk_csum == on_disk && on_disk == expected,
        Decision::Block { via, block } => {
            &&& on_disk != expected
            &&& hash::crc32c_of(block@) == expected
            &&& match via {
                ParityPath::P => {
                    &&& s.p matches ParityBlock::Block(p) && !p_baked_in(s, p@) && block@
                        == engine::p_candidate(s.others@, p@)
                },
                ParityPath::Q => {
                    &&& exists|r: FailureReason| #[trigger] p_failed(s, expected, r)
                    &&& s.q matches ParityBlock::Block(q) && block@ == engine::q_candidate(
                        s.others@,
                        q@,
                        slot,
                    )
                },
                ParityPath::PQ { partner_slot } => {
                    &&& exists|r: FailureReason| #[trigger] p_failed(s, expected, r)
                    &&& exists|r: FailureReason| #[trigger] q_failed(s, slot, expected, r)
                    &&& s.p is Block
                    &&& s.q is Block
                    &&& exists|n: int|
                        {
                            &&& 0 <= n < s.others@.len()
                            &&& (#[trigger] s.others@[n]).0 == partner_slot
                            &&& engine::two_disk_solvable(slot, partner_slot)
                            &&& block@ == partner_block(s, slot, n)
                            &&& forall|m: int|
                                0 <= m < n ==> #[trigger] partner_failed(s, slot, expected, m)
                        }
                },
            }
        },
        Decision::Failed { reason } => {
            &&& on_disk != expected
            &&& match reason {
                FailureReason::AllPathsFailed { p_reason, q_reason, pq_partners_tried } => {
                    &&& !(s.q is Absent)
                    &&& p_failed(s, expected, *p_reason)
                    &&& q_failed(s, slot, expected, *q_reason)
                    &&& if s.p is Block && s.q is Block {
                        &&& pq_partners_tried@.len() == s.others@.len()
                        &&& forall|m: int|
                            0 <= m < s.others@.len() ==> #[trigger] pq_partners_tried@[m]
                                == s.others@[m].0
                        &&& forall|m: int|
                            0 <= m < s.others@.len() ==> #[trigger] partner_failed(
                                s,
                                slot,
                                expected,
                                m,
                            )
                    } else {
                        pq_partners_tried@.len() == 0
                    }
                },
                FailureReason::BothPathsFailed { p_reason, q_reason } => {
                    &&& s.q is Absent
                    &&& p_failed(s, expected, *p_reason)
                    &&& q_failed(s, slot, expected, *q_reason)
                },
                _ => false,
            }
        },
    }
}

/// The Q path is tried: there is a Q block, and neither the block on disk nor P
/// has the stored checksum.
pub open spec fn q_reached(s: Readings, expected: u32) -> bool {
    &&& s.q is Block
    &&& hash::crc32c_of(s.corrupt@) != expected
    &&& exists|r: FailureReason| #[trigger] p_failed(s, expected, r)
}

/// The two-disk solve is tried with the `k`-th other disk as partner: nothing
/// before it gave a block.
pub open spec fn partner_reached(s: Readings, slot: u64, expected: u32, k: int) -> bool {
    &&& s.p is Block
    &&& q_reached(s, expected)
    &&& exists|r: FailureReason| #[trigger] q_failed(s, slot, expected, r)
    &&& forall|m: int| 0 <= m < k ==> #[trigger] partner_failed(s, slot, expected, m)
}

/// The coefficients exist that the paths which are tried call for.
pub open spec fn coefficients_exist(s: Readings, slot: u64, expected: u32) -> bool {
    &&& q_reached(s, expected) ==> engine::slot_fits(slot) && engine::slots_fit(s.others@)
    &&& forall|k: int|
        0 <= k < s.others@.len() && partner_reached(s, slot, expected, k) ==> engine::two_disk_fits(
            slot,
            (#[trigger] s.others@[k]).0,
        )
}

/// Chunks of `n` bytes.
pub open spec fn readings_sized(s: Readings, n: nat) -> bool {
    &&& s.corrupt@.len() == n
    &&& engine::all_len(s.others@, n)
    &&& s.p matches ParityBlock::Block(p) ==> p@.len() == n
    &&& s.q matches ParityBlock::Block(q) ==> q@.len() == n
}

/// Tries the block on disk, P, Q, and both with each other disk as partner.
pub fn decide(s: &Readings, failing_slot: u64, expected_csum: u32, block_size: usize) -> (r:
    Decision)
    requires
        readings_sized(*s, block_size as nat),
        coefficients_exist(*s, failing_slot, expected_csum),
    ensures
        decides(*s, failing_slot, expected_csum, r),
        r matches Decision::Block { block, .. } ==> block@.len() == block_size,
{
    let on_disk_csum: u32 = hash::crc32c_hash(s.corrupt.as_slice());
    if on_disk_csum == expected_csum {
        return Decision::NotCorrupt { on_disk_csum };
    }
    let p_reason: FailureReason = match &s.p {
        ParityBlock::Absent => FailureReason::Io(
            String::from_str("no primary parity disk in array config"),
        ),
        ParityBlock::Unreadable => FailureReason::Io(String::from_str("read parity P failed")),
        ParityBlock::Block(p) => {
            let recovered = engine::recover_via_p(
                s.corrupt.as_slice(),
                s.others.as_slice(),
                p.as_slice(),
                block_size,
            );
            // A reconstruction that reproduces the corrupt bytes means P was
            // recomputed from them.
            if bytes::bytes_equal(recovered.as_slice(), s.corrupt.as_slice()) {
                FailureReason::ParityBakedIn
            } else {
                let recovered_csum: u32 = hash::crc32c_hash(recovered.as_slice());
                if recovered_csum == expected_csum {
                    return Decision::Block { via: ParityPath::P, block: recovered };
                }
                FailureReason::CsumMismatch { via: ParityPath::P, recovered_csum, expected_csum }
            }
        },
    };
    assert(p_failed(*s, expected_csum, p_reason));
    assert(s.q is Block ==> q_reached(*s, expected_csum));
    let q_reason: FailureReason = match &s.q {
        ParityBlock::Absent => FailureReason::Io(
            String::from_str("no secondary parity (Q) disk in array config"),
        ),
        ParityBlock::Unreadable => FailureReason::Io(String::from_str("read parity Q failed")),
        ParityBlock::Block(q) => {
            let recovered = engine::q_reconstruct(
                s.others.as_slice(),
                q.as_slice(),
                failing_slot,
                block_size,
            );
            let recovered_csum: u32 = hash::crc32c_hash(recovered.as_slice());
            if recovered_csum == expected_csum {
                return Decision::Block { via: ParityPath::Q, block: recovered };
            }
            FailureReason::CsumMismatch { via: ParityPath::Q, recovered_csum, expected_csum }
        },
    };
    assert(q_failed(*s, failing_slot, expected_csum, q_reason));
    let mut tried: Vec<u64> = Vec::new();
    if let (ParityBlock::Block(p), ParityBlock::Block(q)) = (&s.p, &s.q) {
        let n: usize = s.others.len();
        let mut k: usize = 0;
        while k < n
            invariant
                k <= n,
                n == s.others@.len(),
                readings_sized(*s, block_size as nat),
                coefficients_exist(*s, failing_slot, expected_csum),
                q_reached(*s, expected_csum),
                s.p == ParityBlock::Block(*p),
                s.q == ParityBlock::Block(*q),
                hash::crc32c_of(s.corrupt@) != expected_csum,
                p_failed(*s, expected_csum, p_reason),
                q_failed(*s, failing_slot, expected_csum, q_reason),
                tried@.len() == k,
                forall|m: int| 0 <= m < k ==> #[trigger] tried@[m] == s.others@[m].0,
                forall|m: int|
                    0 <= m < k ==> #[trigger] partner_failed(*s, failing_slot, expected_csum, m),
            decreases n - k,
        {
            let partner_slot: u64 = s.others[k].0;
            assert(partner_reached(*s, failing_slot, expected_csum, k as int));
            tried.push(partner_slot);
            match engine::solve_two_disk(
                p.as_slice(),
                q.as_slice(),
                s.others.as_slice(),
                partner_slot,
                failing_slot,
                block_size,
            ) {
                None => {},
                Some(recovered) => {
                    assert(recovered@ == partner_block(*s, failing_slot, k as int));
                    if hash::crc32c_hash(recovered.as_slice()) == expected_csum {
                        let ghost here = s.others@[k as int];
                        assert(here.0 == partner_slot);
                        return Decision::Block {
                            via: ParityPath::PQ { partner_slot },
                            block: recovered,
                        };
                    }
                },
            }
            assert(partner_failed(*s, failing_slot, expected_csum, k as int));
            k = k + 1;
        }
    }
    let single = match &s.q {
        ParityBlock::Absent => true,
        _ => false,
    };
    if single {
        Decision::Failed {
            reason: FailureReason::BothPathsFailed {
                p_reason: Box::new(p_reason),
                q_reason: Box::new(q_reason),
            },
        }
    } else {
        Decision::Failed {
            reason: FailureReason::AllPathsFailed {
                p_reason: Box::new(p_reason),
                q_reason: Box::new(q_reason),
                pq_partners_tried: tried,
            },
        }
    }
}

// ---------------------------------------------------------------------------
// One sector
// ---------------------------------------------------------------------------

/// A disk's name in a message, then what went wrong.
pub open spec fn disk_message(path: Seq<char>, e: Seq<char>) -> Seq<char> {
    "read data disk "@ + path + ": "@ + e
}

/// The first other data disk in slot order that could not be read, and why.
pub open spec fn disk_unreadable<D: Fn(&String, u64, usize) -> SectorRead>(
    config: ArrayConfig,
    location: ResolvedLocation,
    n: usize,
    device: D,
    k: int,
    e: Seq<char>,
) -> bool {
    &&& 0 <= k < config.disks().len()
    &&& !path::same_path(config.disks()[k].1@, location.dev_path@)
    &&& sector_read(
        device,
        &config.disks()[k].1,
        location.array_phys + config.offset(config.disks()[k].1@),
        n,
        Err(e),
    )
    &&& forall|j: int|
        0 <= j < k && !path::same_path(
            config.disks()[j].1@,
            location.dev_path@,
        ) ==> #[trigger] disk_readable(
            config,
            location,
            n,
            device,
            j,
        )
}

/// Data disk `j` may be read.
pub open spec fn disk_readable<D: Fn(&String, u64, usize) -> SectorRead>(
    config: ArrayConfig,
    location: ResolvedLocation,
    n: usize,
    device: D,
    j: int,
) -> bool {
    exists|b: Seq<u8>| #[trigger]
        sector_read(
            device,
            &config.disks()[j].1,
            location.array_phys + config.offset(config.disks()[j].1@),
            n,
            Ok(b),
        )
}

/// Writing `block` over the sector may come to `out`.
pub open spec fn write_gives<W: Fn(&String, u64, &[u8]) -> Result<(), String>>(
    location: ResolvedLocation,
    write: W,
    block: Seq<u8>,
    out: Result<(), String>,
) -> bool {
    exists|s: &[u8]|
        s@ == block && #[trigger] call_ensures(
            write,
            (&location.dev_path, location.raw_phys, s),
            out,
        )
}

/// The failing disk's own block was read, and does not have the stored checksum.
pub open spec fn read_corrupt<D: Fn(&String, u64, usize) -> SectorRead>(
    location: ResolvedLocation,
    expected: u32,
    n: usize,
    device: D,
) -> bool {
    exists|b: Seq<u8>|
        {
            &&& #[trigger] sector_read(
                device,
                &location.dev_path,
                location.raw_phys as int,
                n,
                Ok(b),
            )
            &&& hash::crc32c_of(b) != expected
        }
}

/// The failing disk's own block was read, and has the stored checksum.
pub open spec fn read_intact<D: Fn(&String, u64, usize) -> SectorRead>(
    location: ResolvedLocation,
    expected: u32,
    n: usize,
    device: D,
) -> bool {
    exists|b: Seq<u8>|
        {
            &&& #[trigger] sector_read(
                device,
                &location.dev_path,
                location.raw_phys as int,
                n,
                Ok(b),
            )
            &&& hash::crc32c_of(b) == expected
        }
}

/// The block has the stored checksum, and is what the bytes of the stripe decide
/// for the sector.
pub open spec fn rebuilt<D: Fn(&String, u64, usize) -> SectorRead>(
    config: ArrayConfig,
    location: ResolvedLocation,
    expected: u32,
    n: usize,
    device: D,
    block: Seq<u8>,
) -> bool {
    &&& block.len() == n
    &&& hash::crc32c_of(block) == expected
    &&& exists|s: Readings, via: ParityPath, made: Vec<u8>|
        {
            &&& #[trigger] readings(config, location, n, device, s)
            &&& #[trigger] decides(
                s,
                location.devid,
                expected,
                Decision::Block { via, block: made },
            )
            &&& made@ == block
        }
}

/// The reason of a failure before the decision.
pub open spec fn read_failure<D: Fn(&String, u64, usize) -> SectorRead>(
    config: ArrayConfig,
    location: ResolvedLocation,
    expected: u32,
    n: usize,
    device: D,
    message: Seq<char>,
) -> bool {
    // The failing disk could not be read.
    ||| exists|e: Seq<char>|
        {
            &&& #[trigger] sector_read(
                device,
                &location.dev_path,
                location.raw_phys as int,
                n,
                Err(e),
            )
            &&& message == "read failing disk: "@ + e
        }
    // The block on disk is corrupt, and another data disk could not be read.
    ||| {
        &&& read_corrupt(location, expected, n, device)
        &&& exists|k: int, e: Seq<char>|
            {
                &&& #[trigger] disk_unreadable(config, location, n, device, k, e)
                &&& message == disk_message(config.disks()[k].1@, e)
            }
    }
}

/// The reason of a failure before or after the decision.
pub open spec fn io_failure<
    D: Fn(&String, u64, usize) -> SectorRead,
    W: Fn(&String, u64, &[u8]) -> Result<(), String>,
>(
    config: ArrayConfig,
    location: ResolvedLocation,
    expected: u32,
    n: usize,
    dry_run: bool,
    device: D,
    write: W,
    message: Seq<char>,
) -> bool {
    ||| read_failure(config, location, expected, n, device, message)
    // The block could not be written.
    ||| exists|s: Readings, via: ParityPath, block: Vec<u8>, e: String|
        {
            &&& #[trigger] readings(config, location, n, device, s)
            &&& #[trigger] decides(s, location.devid, expected, Decision::Block { via, block })
            &&& !dry_run
            &&& #[trigger] write_gives(location, write, block@, Err(e))
            &&& message == "write back: "@ + e@
        }
}

/// What recovering a sector may come to.
pub open spec fn sector_outcome<
    D: Fn(&String, u64, usize) -> SectorRead,
    W: Fn(&String, u64, &[u8]) -> Result<(), String>,
>(
    config: ArrayConfig,
    location: ResolvedLocation,
    expected: u32,
    n: usize,
    dry_run: bool,
    device: D,
    write: W,
    r: RecoveryResult,
) -> bool {
    match r {
        RecoveryResult::NotCorrupt { location: l, on_disk_csum, expected_csum } => {
            &&& l == location
            &&& expected_csum == expected
            &&& on_disk_csum == expected
            &&& read_intact(location, expected, n, device)
        },
        RecoveryResult::Recovered { location: l, via, expected_csum, recovered_csum, written } => {
            &&& l == location
            &&& expected_csum == expected
            &&& recovered_csum == expected
            &&& written == !dry_run
            &&& exists|s: Readings, block: Vec<u8>|
                {
                    &&& #[trigger] readings(config, location, n, device, s)
                    &&& #[trigger] decides(
                        s,
                        location.devid,
                        expected,
                        Decision::Block { via, block },
                    )
                    &&& written ==> write_gives(location, write, block@, Ok(()))
                }
        },
        RecoveryResult::Failed { location: l, reason } => {
            &&& l == location
            &&& match reason {
                FailureReason::Io(m) => io_failure(
                    config,
                    location,
                    expected,
                    n,
                    dry_run,
                    device,
                    write,
                    m@,
                ),
                _ => exists|s: Readings|
                    {
                        &&& #[trigger] readings(config, location, n, device, s)
                        &&& decides(s, location.devid, expected, Decision::Failed { reason })
                    },
            }
        },
    }
}

/// What assessing a sector may come to: nothing but reading is asked for.
pub open spec fn sector_assessment<D: Fn(&String, u64, usize) -> SectorRead>(
    config: ArrayConfig,
    location: ResolvedLocation,
    expected: u32,
    n: usize,
    device: D,
    r: RecoveryResult,
) -> bool {
    match r {
        RecoveryResult::NotCorrupt { location: l, on_disk_csum, expected_csum } => {
            &&& l == location
            &&& expected_csum == expected
            &&& on_disk_csum == expected
            &&& read_intact(location, expected, n, device)
        },
        RecoveryResult::Recovered { location: l, via, expected_csum, recovered_csum, written } => {
            &&& l == location
            &&& expected_csum == expected
            &&& recovered_csum == expected
            &&& !written
            &&& exists|s: Readings, block: Vec<u8>|
                {
                    &&& #[trigger] readings(config, location, n, device, s)
                    &&& #[trigger] decides(
                        s,
                        location.devid,
                        expected,
                        Decision::Block { via, block },
                    )
                }
        },
        RecoveryResult::Failed { location: l, reason } => {
            &&& l == location
            &&& match reason {
                FailureReason::Io(m) => read_failure(config, location, expected, n, device, m@),
                _ => exists|s: Readings|
                    {
                        &&& #[trigger] readings(config, location, n, device, s)
                        &&& decides(s, location.devid, expected, Decision::Failed { reason })
                    },
            }
        },
    }
}

/// Whatever reading gives, the coefficients exist that recovering the sector
/// calls for.
pub open spec fn sector_recovers<D: Fn(&String, u64, usize) -> SectorRead>(
    config: ArrayConfig,
    location: ResolvedLocation,
    expected: u32,
    n: usize,
    device: D,
) -> bool {
    forall|s: Readings| #[trigger]
        readings(config, location, n, device, s) ==> coefficients_exist(
            s,
            location.devid,
            expected,
        )
}

/// The array has every coefficient that recovering the sector's disk may call
/// for.
pub open spec fn array_recovers(config: ArrayConfig, location: ResolvedLocation) -> bool {
    let slot = location.devid;
    &&& config.parity_q is Some ==> engine::slot_fits(slot)
    &&& config.parity_q is Some ==> forall|k: int|
        0 <= k < config.disks().len() ==> ((#[trigger] config.disks()[k]).0 as i32) > i32::MIN
    &&& config.parity_p is Some && config.parity_q is Some ==> forall|k: int|
        0 <= k < config.disks().len() && !path::same_path(
            (#[trigger] config.disks()[k]).1@,
            location.dev_path@,
        ) ==> engine::two_disk_fits(slot, config.disks()[k].0)
}

/// Reads a parity disk, if there is one.
fn read_parity<D: Fn(&String, u64, usize) -> SectorRead>(
    config: &ArrayConfig,
    disk: &Option<String>,
    array_phys: u64,
    block_size: usize,
    device: &D,
) -> (r: ParityBlock)
    requires
        disk matches Some(p) ==> chunk_answers(*config, *device, &p, array_phys, block_size),
        disk matches Some(p) ==> array_phys + config.offset(p@) <= u64::MAX,
    ensures
        parity_reading(*config, *disk, array_phys, block_size, *device, r),
{
    match disk {
        None => ParityBlock::Absent,
        Some(path) => {
            let pos: u64 = array_phys + config.raw_offset_for(path.as_str());
            match read_from(device, path, pos, block_size) {
                Ok(b) => ParityBlock::Block(b),
                Err(e) => {
                    assert(sector_read(*device, path, pos as int, block_size, Err(e@)));
                    ParityBlock::Unreadable
                },
            }
        },
    }
}

/// Reads every data disk but the failing one, each at its own offset.
fn read_others<D: Fn(&String, u64, usize) -> SectorRead>(
    config: &ArrayConfig,
    location: &ResolvedLocation,
    block_size: usize,
    device: &D,
) -> (r: Result<Vec<(u64, Vec<u8>)>, String>)
    requires
        device_answers(*config, *location, block_size, *device),
        stripe::offset_fits(*config, location.array_phys),
    ensures
        match r {
            Ok(others) => {
                &&& other_readings(
                    *config,
                    *location,
                    block_size,
                    *device,
                    config.disks().len() as int,
                    others@,
                )
                &&& engine::all_len(others@, block_size as nat)
            },
            Err(m) => exists|k: int, e: Seq<char>|
                {
                    &&& #[trigger] disk_unreadable(
                        *config,
                        *location,
                        block_size,
                        *device,
                        k,
                        e,
                    )
                    &&& m@ == disk_message(config.disks()[k].1@, e)
                },
        },
{
    let disks = config.disk_list();
    let n: usize = disks.len();
    let mut others: Vec<(u64, Vec<u8>)> = Vec::new();
    let mut k: usize = 0;
    while k < n
        invariant
            disks@ == config.disks(),
            k <= n,
            n == config.disks().len(),
            device_answers(*config, *location, block_size, *device),
            stripe::offset_fits(*config, location.array_phys),
            other_readings(*config, *location, block_size, *device, k as int, others@),
            forall|j: int|
                0 <= j < k && !path::same_path(config.disks()[j].1@, location.dev_path@)
                    ==> #[trigger] disk_readable(*config, *location, block_size, *device, j),
            engine::all_len(others@, block_size as nat),
        decreases n - k,
    {
        let dev = &disks[k].1;
        if !path::paths_equal(dev.as_str(), location.dev_path.as_str()) {
            let pos: u64 = location.array_phys + config.raw_offset_for(dev.as_str());
            match read_from(device, dev, pos, block_size) {
                Ok(b) => {
                    assert(disk_readable(*config, *location, block_size, *device, k as int));
                    let ghost before = others@;
                    others.push((disks[k].0, b));
                    assert(others@.drop_last() =~= before);
                },
                Err(e) => {
                    let mut m = String::from_str("read data disk ");
                    m.append(dev.as_str());
                    m.append(": ");
                    m.append(e.as_str());
                    assert(disk_unreadable(
                        *config,
                        *location,
                        block_size,
                        *device,
                        k as int,
                        e@,
                    ));
                    return Err(m);
                },
            }
        }
        k = k + 1;
    }
    Ok(others)
}

/// Attempts to recover one corrupt sector via parity.
///
/// `expected_csum` is the stored checksum for this sector, `location` the
/// failing sector's place on its raw device. Reads the failing disk to confirm
/// corruption, then every other data disk and the parity disks, reconstructs the
/// data and verifies its checksum. On success, and if this is no dry run, the
/// recovered block is written back to the failing disk only: parity is left
/// untouched.
pub fn recover_sector<
    D: Fn(&String, u64, usize) -> SectorRead,
    W: Fn(&String, u64, &[u8]) -> Result<(), String>,
>(
    config: &ArrayConfig,
    location: &ResolvedLocation,
    expected_csum: u32,
    block_size: usize,
    opts: RecoverOpts,
    device: &D,
    write: &W,
) -> (r: RecoveryResult)
    requires
        device_answers(*config, *location, block_size, *device),
        stripe::offset_fits(*config, location.array_phys),
        sector_recovers(*config, *location, expected_csum, block_size, *device),
        // The one write that may be asked for: the block that recovery gave, which
        // has the stored checksum, over the sector, and not in a dry run.
        forall|s: &[u8]|
            !opts.dry_run && rebuilt(
                *config,
                *location,
                expected_csum,
                block_size,
                *device,
                s@,
            ) ==> #[trigger] call_requires(*write, (&location.dev_path, location.raw_phys, s)),
    ensures
        sector_outcome(
            *config,
            *location,
            expected_csum,
            block_size,
            opts.dry_run,
            *device,
            *write,
            r,
        ),
{
    let corrupt = match read_from(device, &location.dev_path, location.raw_phys, block_size) {
        Ok(b) => b,
        Err(e) => {
            let mut m = String::from_str("read failing disk: ");
            m.append(e.as_str());
            assert(sector_read(
                *device,
                &location.dev_path,
                location.raw_phys as int,
                block_size,
                Err(e@),
            ));
            return RecoveryResult::Failed {
                location: location.clone(),
                reason: FailureReason::Io(m),
            };
        },
    };
    assert(sector_read(
        *device,
        &location.dev_path,
        location.raw_phys as int,
        block_size,
        Ok(corrupt@),
    ));
    // Re-checking guards against a rewrite between the scrub and now.
    let on_disk_csum: u32 = hash::crc32c_hash(corrupt.as_slice());
    if on_disk_csum == expected_csum {
        return RecoveryResult::NotCorrupt {
            location: location.clone(),
            on_disk_csum,
            expected_csum,
        };
    }
    let others = match read_others(config, location, block_size, device) {
        Ok(o) => o,
        Err(m) => {
            return RecoveryResult::Failed {
                location: location.clone(),
                reason: FailureReason::Io(m),
            };
        },
    };
    let p = read_parity(config, &config.parity_p, location.array_phys, block_size, device);
    let q = read_parity(config, &config.parity_q, location.array_phys, block_size, device);
    let s = Readings { corrupt, others, p, q };
    assert(readings(*config, *location, block_size, *device, s));
    let decision = decide(&s, location.devid, expected_csum, block_size);
    assert(decides(s, location.devid, expected_csum, decision));
    match decision {
        Decision::NotCorrupt { on_disk_csum } => RecoveryResult::NotCorrupt {
            location: location.clone(),
            on_disk_csum,
            expected_csum,
        },
        Decision::Failed { reason } => {
            let ghost whole = Decision::Failed { reason };
            assert(decides(s, location.devid, expected_csum, whole));
            RecoveryResult::Failed { location: location.clone(), reason }
        },
        Decision::Block { via, block } => {
            let ghost whole = Decision::Block { via, block };
            assert(decides(s, location.devid, expected_csum, whole));
            finish_recovered(
                config,
                location,
                expected_csum,
                block_size,
                opts,
                device,
                write,
                &s,
                via,
                block,
            )
        },
    }
}

/// Whether the array has every coefficient that recovering the sector's disk may
/// call for.
fn has_coefficients(config: &ArrayConfig, location: &ResolvedLocation) -> (r: bool)
    ensures
        r == array_recovers(*config, *location),
{
    if config.parity_q.is_none() {
        return true;
    }
    let own: i32 = location.devid as i32;
    if own <= i32::MIN + 1 {
        return false;
    }
    let both = config.parity_p.is_some();
    let disks = config.disk_list();
    let n: usize = disks.len();
    let mut k: usize = 0;
    while k < n
        invariant
            disks@ == config.disks(),
            k <= n,
            n == config.disks().len(),
            config.parity_q is Some,
            both == (config.parity_p is Some),
            own == location.devid as i32,
            own > i32::MIN + 1,
            forall|j: int|
                0 <= j < k ==> ((#[trigger] config.disks()[j]).0 as i32) > i32::MIN,
            both ==> forall|j: int|
                0 <= j < k && !path::same_path(
                    (#[trigger] config.disks()[j]).1@,
                    location.dev_path@,
                ) ==> engine::two_disk_fits(location.devid, config.disks()[j].0),
        decreases n - k,
    {
        let theirs: i32 = disks[k].0 as i32;
        if theirs == i32::MIN {
            assert(!((config.disks()[k as int].0 as i32) > i32::MIN));
            return false;
        }
        let apart = !path::paths_equal(
            disks[k].1.as_str(),
            location.dev_path.as_str(),
        );
        if both && apart && own >= 1 && theirs >= 1 && own != theirs && (own > 256 || theirs > 256) {
            assert(!engine::two_disk_fits(location.devid, config.disks()[k as int].0));
            return false;
        }
        k = k + 1;
    }
    true
}

/// What is read off data disks has their slots.
proof fn lemma_slots_are_disks<D: Fn(&String, u64, usize) -> SectorRead>(
    config: ArrayConfig,
    location: ResolvedLocation,
    n: usize,
    device: D,
    k: int,
    out: Seq<(u64, Vec<u8>)>,
    i: int,
) -> (d: int)
    requires
        0 <= k <= config.disks().len(),
        other_readings(config, location, n, device, k, out),
        0 <= i < out.len(),
    ensures
        0 <= d < k,
        config.disks()[d].0 == out[i].0,
        !path::same_path(config.disks()[d].1@, location.dev_path@),
    decreases k,
{
    let disk = config.disks()[k - 1];
    if path::same_path(disk.1@, location.dev_path@) {
        lemma_slots_are_disks(config, location, n, device, k - 1, out, i)
    } else if i == out.len() - 1 {
        k - 1
    } else {
        lemma_slots_are_disks(config, location, n, device, k - 1, out.drop_last(), i)
    }
}

/// On an array that has every coefficient any sector can be recovered.
pub proof fn law_able_array_recovers<D: Fn(&String, u64, usize) -> SectorRead>(
    config: ArrayConfig,
    location: ResolvedLocation,
    expected: u32,
    n: usize,
    device: D,
)
    requires
        array_recovers(config, location),
    ensures
        sector_recovers(config, location, expected, n, device),
{
    let all = config.disks().len() as int;
    assert forall|s: Readings| #[trigger]
        readings(config, location, n, device, s) implies coefficients_exist(
        s,
        location.devid,
        expected,
    ) by {
        assert forall|k: int| 0 <= k < s.others@.len() && s.q is Block implies ((
        #[trigger] s.others@[k]).0 as i32) > i32::MIN by {
            let d = lemma_slots_are_disks(config, location, n, device, all, s.others@, k);
        }
        assert forall|k: int|
            0 <= k < s.others@.len() && partner_reached(s, location.devid, expected, k) implies
            engine::two_disk_fits(location.devid, (#[trigger] s.others@[k]).0) by {
            let d = lemma_slots_are_disks(config, location, n, device, all, s.others@, k);
        }
    }
}

/// Recovers a sector as `recover_sector` does, where the array has every
/// coefficient that its disk may call for; `None` where it does not.
pub fn recover_sector_on<
    D: Fn(&String, u64, usize) -> SectorRead,
    W: Fn(&String, u64, &[u8]) -> Result<(), String>,
>(
    config: &ArrayConfig,
    location: &ResolvedLocation,
    expected_csum: u32,
    block_size: usize,
    opts: RecoverOpts,
    device: &D,
    write: &W,
) -> (r: Option<RecoveryResult>)
    requires
        device_answers(*config, *location, block_size, *device),
        stripe::offset_fits(*config, location.array_phys),
        forall|s: &[u8]|
            !opts.dry_run && rebuilt(
                *config,
                *location,
                expected_csum,
                block_size,
                *device,
                s@,
            ) ==> #[trigger] call_requires(*write, (&location.dev_path, location.raw_phys, s)),
    ensures
        match r {
            Some(done) => array_recovers(*config, *location) && sector_outcome(
                *config,
                *location,
                expected_csum,
                block_size,
                opts.dry_run,
                *device,
                *write,
                done,
            ),
            None => !array_recovers(*config, *location),
        },
{
    if !has_coefficients(config, location) {
        return None;
    }
    proof {
        law_able_array_recovers(*config, *location, expected_csum, block_size, *device);
    }
    Some(recover_sector(config, location, expected_csum, block_size, opts, device, write))
}

/// A dry run comes to what an assessment comes to, whatever `write` it is given.
pub proof fn law_dry_run_assesses<
    D: Fn(&String, u64, usize) -> SectorRead,
    W: Fn(&String, u64, &[u8]) -> Result<(), String>,
>(
    config: ArrayConfig,
    location: ResolvedLocation,
    expected: u32,
    n: usize,
    device: D,
    write: W,
    r: RecoveryResult,
)
    ensures
        sector_outcome(config, location, expected, n, true, device, write, r)
            == sector_assessment(config, location, expected, n, device, r),
{
}

/// Finds out what recovering a sector would come to, without writing anything,
/// where the array has every coefficient that its disk may call for; `None`
/// where it does not.
pub fn assess_sector<D: Fn(&String, u64, usize) -> SectorRead>(
    config: &ArrayConfig,
    location: &ResolvedLocation,
    expected_csum: u32,
    block_size: usize,
    device: &D,
) -> (r: Option<RecoveryResult>)
    requires
        device_answers(*config, *location, block_size, *device),
        stripe::offset_fits(*config, location.array_phys),
    ensures
        match r {
            Some(found) => array_recovers(*config, *location) && sector_assessment(
                *config,
                *location,
                expected_csum,
                block_size,
                *device,
                found,
            ),
            None => !array_recovers(*config, *location),
        },
{
    let opts = RecoverOpts { dry_run: true };
    let write = |_path: &String, _pos: u64, _block: &[u8]| -> Result<(), String>
        { Err(String::new()) };
    let r = recover_sector_on(
        config,
        location,
        expected_csum,
        block_size,
        opts,
        device,
        &write,
    );
    proof {
        if r is Some {
            law_dry_run_assesses(
                *config,
                *location,
                expected_csum,
                block_size,
                *device,
                write,
                r->0,
            );
        }
    }
    r
}

/// Common tail: writes back (unless dry-run) and reports the block as recovered.
fn finish_recovered<
    D: Fn(&String, u64, usize) -> SectorRead,
    W: Fn(&String, u64, &[u8]) -> Result<(), String>,
>(
    config: &ArrayConfig,
    location: &ResolvedLocation,
    expected_csum: u32,
    block_size: usize,
    opts: RecoverOpts,
    device: &D,
    write: &W,
    s: &Readings,
    via: ParityPath,
    block: Vec<u8>,
) -> (r: RecoveryResult)
    requires
        readings(*config, *location, block_size, *device, *s),
        decides(*s, location.devid, expected_csum, Decision::Block { via, block }),
        block@.len() == block_size,
        forall|s: &[u8]|
            !opts.dry_run && rebuilt(
                *config,
                *location,
                expected_csum,
                block_size,
                *device,
                s@,
            ) ==> #[trigger] call_requires(*write, (&location.dev_path, location.raw_phys, s)),
    ensures
        sector_outcome(
            *config,
            *location,
            expected_csum,
            block_size,
            opts.dry_run,
            *device,
            *write,
            r,
        ),
{
    let mut written = false;
    if !opts.dry_run {
        assert(rebuilt(*config, *location, expected_csum, block_size, *device, block@));
        let out = write(&location.dev_path, location.raw_phys, block.as_slice());
        match out {
            Ok(done) => {
                assert(done == ());
                assert(write_gives(*location, *write, block@, Ok(())));
                written = true;
            },
            Err(e) => {
                let mut m = String::from_str("write back: ");
                m.append(e.as_str());
                assert(write_gives(*location, *write, block@, Err(e)));
                return RecoveryResult::Failed {
                    location: location.clone(),
                    reason: FailureReason::Io(m),
                };
            },
        }
    }
    RecoveryResult::Recovered {
        location: location.clone(),
        via,
        expected_csum,
        recovered_csum: expected_csum,
        written,
    }
}

/// What is written over a sector is the block that recovery gave, which has the
/// stored checksum, and nothing is written in a dry run.
pub proof fn law_written_sector_has_stored_checksum<
    D: Fn(&String, u64, usize) -> SectorRead,
    W: Fn(&String, u64, &[u8]) -> Result<(), String>,
>(
    config: ArrayConfig,
    location: ResolvedLocation,
    expected: u32,
    n: usize,
    dry_run: bool,
    device: D,
    write: W,
    r: RecoveryResult,
)
    requires
        sector_outcome(config, location, expected, n, dry_run, device, write, r),
        r matches RecoveryResult::Recovered { written, .. } && written,
    ensures
        !dry_run,
        exists|block: Seq<u8>| #[trigger]
            write_gives(location, write, block, Ok(())) && rebuilt(
                config,
                location,
                expected,
                n,
                device,
                block,
            ),
{
    if let RecoveryResult::Recovered { via, .. } = r {
        let (s, block) = choose|s: Readings, block: Vec<u8>|
            {
                &&& #[trigger] readings(config, location, n, device, s)
                &&& #[trigger] decides(
                    s,
                    location.devid,
                    expected,
                    Decision::Block { via, block },
                )
                &&& write_gives(location, write, block@, Ok(()))
            };
        assert(write_gives(location, write, block@, Ok(())));
    }
}

/// A corrupt sector whose stripe has an intact P gets its own block back,
/// through P.
pub proof fn law_intact_p_gives_the_block(
    s: Readings,
    data: Seq<(u64, Vec<u8>)>,
    k: int,
    expected: u32,
    d: Decision,
)
    requires
        0 <= k < data.len(),
        s.others@ == data.remove(k),
        s.p matches ParityBlock::Block(p) && laws::is_p_of(p@, data) && p@.len()
            == data[k].1@.len(),
        hash::crc32c_of(data[k].1@) == expected,
        hash::crc32c_of(s.corrupt@) != expected,
        decides(s, data[k].0, expected, d),
    ensures
        d matches Decision::Block { via, block } && via == ParityPath::P && block@ == data[k].1@,
{
    if let ParityBlock::Block(p) = s.p {
        laws::law_p_recovers(data, k, p@);
        assert(!p_baked_in(s, p@));
        assert forall|r: FailureReason| !#[trigger] p_failed(s, expected, r) by {}
    }
}

} // verus!
