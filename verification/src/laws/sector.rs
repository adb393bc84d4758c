//! One sector: the parity of its stripe, and what recovering it comes to.

use vstd::prelude::*;

use crate::array::config::ArrayConfig;
use crate::array::parity;
use crate::array::path;
use crate::array::recover;
use crate::array::recover::{
    Decision, FailureReason, Fault, ParityBlock, ParityPath, Readings, RecoveryResult, SectorRead,
};
use crate::array::resolve::ResolvedLocation;
use crate::array::stripe;
use crate::hash;
use crate::laws::recovery;
use crate::recovery::engine;
use crate::recovery::gf;
use crate::recovery::laws;

verus! {

// ---------------------------------------------------------------------------
// Parity that is computed
// ---------------------------------------------------------------------------

proof fn lemma_rows_of_stripe(
    slots: Seq<u64>,
    blocks: Seq<Seq<u8>>,
    data: Seq<(u64, Vec<u8>)>,
    k: int,
    i: int,
)
    requires
        0 <= k <= data.len(),
        data.len() == blocks.len(),
        data.len() == slots.len(),
        forall|j: int|
            0 <= j < data.len() ==> (#[trigger] data[j]).0 == slots[j] && data[j].1@ == blocks[j]
                && data[j].0 <= 0x7fff_ffff,
    ensures
        engine::xor_all(data.take(k), i) == recovery::xor_row(blocks, -1, k, i),
        engine::q_sum(data.take(k), i) == recovery::syndrome_row(slots, blocks, -1, k, i),
    decreases k,
{
    if k > 0 {
        lemma_rows_of_stripe(slots, blocks, data, k - 1, i);
        let s = data.take(k);
        assert(s.drop_last() =~= data.take(k - 1));
        assert(s.last() == data[k - 1]);
        let slot = data[k - 1].0;
        assert(slot as i32 == slot);
        gf::lemma_xor(engine::xor_all(s.drop_last(), i), blocks[k - 1][i], 0);
        gf::lemma_xor(
            engine::q_sum(s.drop_last(), i),
            gf::gmul(gf::gexp(slots[k - 1] - 1), blocks[k - 1][i]),
            0,
        );
    } else {
        assert(data.take(0) =~= Seq::empty());
    }
}

/// The parity that is computed over disks that hold these blocks satisfies the
/// parity equation with them; a block that stands in for a disk takes the disk's
/// place.
pub proof fn law_computed_parity_satisfies_the_equation<
    E,
    S: Fn(&String) -> Result<u64, E>,
    R: Fn(&String, u64, usize) -> Result<Vec<u8>, E>,
>(
    cfg: ArrayConfig,
    over: Option<(u64, Seq<u8>)>,
    array_phys: u64,
    n: usize,
    size: S,
    read: R,
    blocks: Seq<Seq<u8>>,
    data: Seq<(u64, Vec<u8>)>,
    p: Seq<u8>,
    q: Seq<u8>,
)
    requires
        n > 0,
        blocks.len() == cfg.disks().len(),
        forall|k: int|
            0 <= k < cfg.disks().len() ==> {
                &&& (#[trigger] cfg.disks()[k]).0 <= 0x7fff_ffff
                &&& over is Some && over.unwrap().0 == cfg.disks()[k].0 ==> blocks[k]
                    == over.unwrap().1
                &&& over is None || over.unwrap().0 != cfg.disks()[k].0 ==> recovery::disk_holds(
                    cfg,
                    &cfg.disks()[k].1,
                    array_phys,
                    n,
                    size,
                    read,
                    blocks[k],
                )
            },
        parity::stripe_data::<E, S, R>(cfg, over, array_phys, n, size, read, data),
    ensures
        laws::is_p_of(p, data) ==> recovery::p_equation(blocks, p),
        laws::is_q_of(q, data) ==> recovery::q_equation(recovery::slots_of(cfg), blocks, q),
{
    let slots = recovery::slots_of(cfg);
    assert forall|j: int| 0 <= j < data.len() implies (#[trigger] data[j]).0 == slots[j]
        && data[j].1@ == blocks[j] && data[j].0 <= 0x7fff_ffff by {
        assert(parity::disk_block::<E, S, R>(
            cfg,
            over,
            array_phys,
            n,
            size,
            read,
            j,
            data[j],
        ));
        let disk = cfg.disks()[j];
        if !(over is Some && over.unwrap().0 == disk.0) {
            recovery::lemma_disk_holds(
                cfg,
                &disk.1,
                array_phys,
                n,
                size,
                read,
                blocks[j],
                Ok::<Vec<u8>, E>(data[j].1),
            );
        }
    }
    assert(data.take(data.len() as int) =~= data);
    assert forall|i: int| true implies #[trigger] engine::xor_all(data, i) == recovery::xor_row(
        blocks,
        -1,
        blocks.len() as int,
        i,
    ) && engine::q_sum(data, i) == recovery::syndrome_row(
        slots,
        blocks,
        -1,
        blocks.len() as int,
        i,
    ) by {
        lemma_rows_of_stripe(slots, blocks, data, data.len() as int, i);
    }
    if laws::is_q_of(q, data) {
        assert forall|i: int| 0 <= i < q.len() implies #[trigger] q[i] == recovery::syndrome_row(
            slots,
            blocks,
            -1,
            blocks.len() as int,
            i,
        ) by {
            let _x = engine::xor_all(data, i);
        }
    }
}

// ---------------------------------------------------------------------------
// One block of one device
// ---------------------------------------------------------------------------

/// The block of a read is what came, with zeros for what is missing. A device
/// that is gone, or that ends before the block, counts as zeros; any other
/// failure is told in its own words.
pub proof fn law_block_of_a_read(outcome: SectorRead, n: nat)
    requires
        outcome matches SectorRead::Bytes(b) ==> b@.len() <= n,
    ensures
        match outcome {
            SectorRead::Bytes(b) => recover::sector_block(outcome, n) matches Ok(block) && {
                &&& block.len() == n
                &&& forall|i: int| 0 <= i < b@.len() ==> #[trigger] block[i] == b@[i]
                &&& forall|i: int| b@.len() <= i < n ==> #[trigger] block[i] == 0
            },
            SectorRead::OpenFailed { fault, message } => if fault == Fault::NotFound || fault
                == Fault::PermissionDenied {
                recover::sector_block(outcome, n) matches Ok(block) && block.len() == n && forall|
                    i: int,
                |
                    0 <= i < n ==> #[trigger] block[i] == 0
            } else {
                recover::sector_block(outcome, n) matches Err(m) && m == message@
            },
            SectorRead::SeekFailed { fault, message } => if fault == Fault::InvalidInput {
                recover::sector_block(outcome, n) matches Ok(block) && block.len() == n && forall|
                    i: int,
                |
                    0 <= i < n ==> #[trigger] block[i] == 0
            } else {
                recover::sector_block(outcome, n) matches Err(m) && m == message@
            },
            SectorRead::ReadFailed { fault, message } => if fault == Fault::UnexpectedEof || fault
                == Fault::InvalidInput {
                recover::sector_block(outcome, n) matches Ok(block) && block.len() == n && forall|
                    i: int,
                |
                    0 <= i < n ==> #[trigger] block[i] == 0
            } else {
                recover::sector_block(outcome, n) matches Err(m) && m == message@
            },
        },
{
}

/// Whenever the block is asked for, the device gives these bytes.
pub open spec fn gives<D: Fn(&String, u64, usize) -> SectorRead>(
    device: D,
    path: &String,
    pos: int,
    n: usize,
    bytes: Seq<u8>,
) -> bool {
    &&& bytes.len() == n
    &&& forall|o: SectorRead| #[trigger]
        call_ensures(device, (path, pos as u64, n), o) ==> (o matches SectorRead::Bytes(b) && b@
            == bytes)
}

proof fn lemma_gives<D: Fn(&String, u64, usize) -> SectorRead>(
    device: D,
    path: &String,
    pos: int,
    n: usize,
    bytes: Seq<u8>,
    out: Result<Seq<u8>, Seq<char>>,
)
    requires
        gives(device, path, pos, n, bytes),
        recover::sector_read(device, path, pos, n, out),
    ensures
        out == Ok::<Seq<u8>, Seq<char>>(bytes),
{
    assert(bytes + stripe::zeros(0) =~= bytes);
}

/// The devices hold the stripe: the sector's own disk is data disk `f`, what it
/// holds is `held`, and the other disks hold the blocks.
pub open spec fn stripe_given<D: Fn(&String, u64, usize) -> SectorRead>(
    cfg: ArrayConfig,
    location: ResolvedLocation,
    f: int,
    n: usize,
    device: D,
    held: Seq<u8>,
    blocks: Seq<Seq<u8>>,
    p: Seq<u8>,
    q: Seq<u8>,
) -> bool {
    &&& 0 <= f < cfg.disks().len()
    &&& blocks.len() == cfg.disks().len()
    &&& blocks[f].len() == n
    &&& location.devid == cfg.disks()[f].0
    &&& gives(device, &location.dev_path, location.raw_phys as int, n, held)
    &&& forall|k: int|
        0 <= k < cfg.disks().len() ==> {
            &&& (#[trigger] cfg.disks()[k]).0 <= 0x7fff_ffff
            &&& path::same_path(cfg.disks()[k].1@, location.dev_path@) <==> k == f
            &&& k != f ==> gives(
                device,
                &cfg.disks()[k].1,
                location.array_phys + cfg.offset(cfg.disks()[k].1@),
                n,
                blocks[k],
            )
        }
    &&& cfg.parity_p is Some ==> gives(
        device,
        &cfg.parity_p.unwrap(),
        location.array_phys + cfg.offset(cfg.parity_p.unwrap()@),
        n,
        p,
    )
    &&& cfg.parity_q is Some ==> gives(
        device,
        &cfg.parity_q.unwrap(),
        location.array_phys + cfg.offset(cfg.parity_q.unwrap()@),
        n,
        q,
    )
}

proof fn lemma_other_readings<D: Fn(&String, u64, usize) -> SectorRead>(
    cfg: ArrayConfig,
    location: ResolvedLocation,
    f: int,
    n: usize,
    device: D,
    held: Seq<u8>,
    blocks: Seq<Seq<u8>>,
    p: Seq<u8>,
    q: Seq<u8>,
    k: int,
    out: Seq<(u64, Vec<u8>)>,
    i: int,
)
    requires
        stripe_given(cfg, location, f, n, device, held, blocks, p, q),
        0 <= k <= cfg.disks().len(),
        recover::other_readings(cfg, location, n, device, k, out),
    ensures
        engine::xor_all(out, i) == recovery::xor_row(blocks, f, k, i),
        engine::q_sum(out, i) == recovery::syndrome_row(
            recovery::slots_of(cfg),
            blocks,
            f,
            k,
            i,
        ),
    decreases k,
{
    if k > 0 {
        let disk = cfg.disks()[k - 1];
        if k - 1 == f {
            lemma_other_readings(
                cfg,
                location,
                f,
                n,
                device,
                held,
                blocks,
                p,
                q,
                k - 1,
                out,
                i,
            );
        } else {
            let front = out.drop_last();
            lemma_gives(
                device,
                &disk.1,
                location.array_phys + cfg.offset(disk.1@),
                n,
                blocks[k - 1],
                Ok(out.last().1@),
            );
            lemma_other_readings(
                cfg,
                location,
                f,
                n,
                device,
                held,
                blocks,
                p,
                q,
                k - 1,
                front,
                i,
            );
            assert(disk.0 as i32 == disk.0);
            gf::lemma_xor(engine::xor_all(front, i), blocks[k - 1][i], 0);
            gf::lemma_xor(
                engine::q_sum(front, i),
                gf::gmul(gf::gexp(disk.0 - 1), blocks[k - 1][i]),
                0,
            );
        }
    }
}

proof fn lemma_decision<D: Fn(&String, u64, usize) -> SectorRead>(
    cfg: ArrayConfig,
    location: ResolvedLocation,
    f: int,
    n: usize,
    device: D,
    held: Seq<u8>,
    golden: Vec<u8>,
    blocks: Seq<Seq<u8>>,
    p: Seq<u8>,
    q: Seq<u8>,
    expected: u32,
    s: Readings,
    d: Decision,
)
    requires
        stripe_given(cfg, location, f, n, device, held, blocks, p, q),
        golden@ == blocks[f],
        hash::crc32c_of(blocks[f]) == expected,
        hash::crc32c_of(held) != expected,
        cfg.parity_p is Some && recovery::p_equation(blocks, p) || cfg.parity_p is None
            && cfg.parity_q is Some && recovery::q_equation(recovery::slots_of(cfg), blocks, q),
        recover::readings(cfg, location, n, device, s),
        recover::decides(s, location.devid, expected, d),
    ensures
        d matches Decision::Block { via, block } && block@ == blocks[f] && via == (
        if cfg.parity_p is Some {
            ParityPath::P
        } else {
            ParityPath::Q
        }),
{
    let out = s.others@;
    let slot = location.devid;
    let data = out.push((slot, golden));
    let last = out.len() as int;
    assert(data.remove(last) =~= out);
    assert(data.drop_last() =~= out);
    lemma_gives(device, &location.dev_path, location.raw_phys as int, n, held, Ok(s.corrupt@));
    let slots = recovery::slots_of(cfg);
    assert(slot as i32 == slot);
    assert forall|i: int| true implies #[trigger] engine::xor_all(data, i) == recovery::xor_row(
        blocks,
        -1,
        blocks.len() as int,
        i,
    ) && engine::q_sum(data, i) == recovery::syndrome_row(
        slots,
        blocks,
        -1,
        blocks.len() as int,
        i,
    ) by {
        lemma_other_readings(
            cfg,
            location,
            f,
            n,
            device,
            held,
            blocks,
            p,
            q,
            cfg.disks().len() as int,
            out,
            i,
        );
        recovery::lemma_rows(slots, blocks, f, blocks.len() as int, i);
    }
    if cfg.parity_p is Some {
        let path = cfg.parity_p.unwrap();
        let pos = location.array_phys + cfg.offset(path@);
        match s.p {
            ParityBlock::Block(b) => {
                lemma_gives(device, &path, pos, n, p, Ok(b@));
                assert(laws::is_p_of(b@, data));
                recover::law_intact_p_gives_the_block(s, data, last, expected, d);
            },
            ParityBlock::Unreadable => {
                let e = choose|e: Seq<char>| #[trigger]
                    recover::sector_read(device, &path, pos, n, Err(e));
                lemma_gives(device, &path, pos, n, p, Err(e));
            },
            ParityBlock::Absent => {},
        }
    } else {
        let path = cfg.parity_q.unwrap();
        let pos = location.array_phys + cfg.offset(path@);
        match s.q {
            ParityBlock::Block(b) => {
                lemma_gives(device, &path, pos, n, q, Ok(b@));
                assert forall|i: int| 0 <= i < b@.len() implies #[trigger] b@[i] == engine::q_sum(
                    data,
                    i,
                ) by {
                    let _x = engine::xor_all(data, i);
                    assert(q[i] == recovery::syndrome_row(slots, blocks, -1, blocks.len() as int, i));
                }
                laws::law_q_recovers(data, last, b@);
                assert forall|r: FailureReason| !#[trigger]
                    recover::q_failed(s, slot, expected, r) by {}
                assert(s.p is Absent);
            },
            ParityBlock::Unreadable => {
                let e = choose|e: Seq<char>| #[trigger]
                    recover::sector_read(device, &path, pos, n, Err(e));
                lemma_gives(device, &path, pos, n, q, Err(e));
            },
            ParityBlock::Absent => {},
        }
    }
}

/// A sector whose disk holds something else than the stored checksum is of, and
/// whose stripe satisfies the P equation, or without a P disk the Q equation,
/// with the block that the checksum is of, is recovered with that block: in a dry
/// run as an assessment, else by writing it, whatever else is on the disks.
pub proof fn law_sector_of_a_whole_stripe_is_recovered<
    D: Fn(&String, u64, usize) -> SectorRead,
    W: Fn(&String, u64, &[u8]) -> Result<(), String>,
>(
    cfg: ArrayConfig,
    location: ResolvedLocation,
    f: int,
    n: usize,
    dry_run: bool,
    device: D,
    write: W,
    held: Seq<u8>,
    golden: Vec<u8>,
    blocks: Seq<Seq<u8>>,
    p: Seq<u8>,
    q: Seq<u8>,
    expected: u32,
    r: RecoveryResult,
)
    requires
        stripe_given(cfg, location, f, n, device, held, blocks, p, q),
        golden@ == blocks[f],
        hash::crc32c_of(blocks[f]) == expected,
        hash::crc32c_of(held) != expected,
        cfg.parity_p is Some && recovery::p_equation(blocks, p) || cfg.parity_p is None
            && cfg.parity_q is Some && recovery::q_equation(recovery::slots_of(cfg), blocks, q),
        forall|s: &[u8], out: Result<(), String>| #[trigger]
            call_ensures(write, (&location.dev_path, location.raw_phys, s), out) ==> out is Ok,
        recover::sector_outcome(cfg, location, expected, n, dry_run, device, write, r),
    ensures
        r matches RecoveryResult::Recovered {
            location: l,
            via,
            expected_csum,
            recovered_csum,
            written,
        } && {
            &&& l == location
            &&& via == (if cfg.parity_p is Some { ParityPath::P } else { ParityPath::Q })
            &&& expected_csum == expected
            &&& recovered_csum == expected
            &&& written == !dry_run
            &&& written ==> exists|s: &[u8]|
                s@ == golden@ && #[trigger] call_ensures(
                    write,
                    (&location.dev_path, location.raw_phys, s),
                    Ok::<(), String>(()),
                )
        },
{
    let slot = location.devid;
    assert forall|s: Readings, d: Decision|
        #[trigger] recover::readings(cfg, location, n, device, s) && #[trigger] recover::decides(
            s,
            slot,
            expected,
            d,
        ) implies (d matches Decision::Block { via, block } && block@ == golden@ && via == (
    if cfg.parity_p is Some {
        ParityPath::P
    } else {
        ParityPath::Q
    })) by {
        lemma_decision(
            cfg,
            location,
            f,
            n,
            device,
            held,
            golden,
            blocks,
            p,
            q,
            expected,
            s,
            d,
        );
    }
    assert forall|out: Result<Seq<u8>, Seq<char>>| #[trigger]
        recover::sector_read(
            device,
            &location.dev_path,
            location.raw_phys as int,
            n,
            out,
        ) implies out == Ok::<Seq<u8>, Seq<char>>(held) by {
        lemma_gives(device, &location.dev_path, location.raw_phys as int, n, held, out);
    }
    assert forall|k: int, e: Seq<char>| !#[trigger]
        recover::disk_unreadable(cfg, location, n, device, k, e) by {
        if recover::disk_unreadable(cfg, location, n, device, k, e) {
            let disk = cfg.disks()[k];
            lemma_gives(
                device,
                &disk.1,
                location.array_phys + cfg.offset(disk.1@),
                n,
                blocks[k],
                Err(e),
            );
        }
    }
    match r {
        RecoveryResult::NotCorrupt { .. } => {
            assert(false);
        },
        RecoveryResult::Recovered { via, .. } => {
            let (s, block) = choose|s: Readings, block: Vec<u8>|
                {
                    &&& #[trigger] recover::readings(cfg, location, n, device, s)
                    &&& #[trigger] recover::decides(
                        s,
                        slot,
                        expected,
                        Decision::Block { via, block },
                    )
                    &&& !dry_run ==> recover::write_gives(location, write, block@, Ok(()))
                };
            assert(block@ == golden@);
        },
        RecoveryResult::Failed { reason, .. } => {
            if let FailureReason::Io(m) = reason {
                assert(!recover::read_failure(cfg, location, expected, n, device, m@));
                let (s, via, block, e) = choose|
                    s: Readings,
                    via: ParityPath,
                    block: Vec<u8>,
                    e: String,
                |
                    {
                        &&& #[trigger] recover::readings(cfg, location, n, device, s)
                        &&& #[trigger] recover::decides(
                            s,
                            slot,
                            expected,
                            Decision::Block { via, block },
                        )
                        &&& !dry_run
                        &&& #[trigger] recover::write_gives(location, write, block@, Err(e))
                        &&& m@ == "write back: "@ + e@
                    };
                assert(recover::write_gives(location, write, block@, Err(e)));
                assert(false);
            } else {
                let s = choose|s: Readings|
                    {
                        &&& #[trigger] recover::readings(cfg, location, n, device, s)
                        &&& recover::decides(s, slot, expected, Decision::Failed { reason })
                    };
                assert(recover::decides(s, slot, expected, Decision::Failed { reason }));
                assert(false);
            }
        },
    }
}

/// A sector whose disk holds a block with the stored checksum is found intact,
/// whatever the other disks hold, and nothing is written.
pub proof fn law_intact_sector_is_left_alone<
    D: Fn(&String, u64, usize) -> SectorRead,
    W: Fn(&String, u64, &[u8]) -> Result<(), String>,
>(
    cfg: ArrayConfig,
    location: ResolvedLocation,
    n: usize,
    dry_run: bool,
    device: D,
    write: W,
    held: Seq<u8>,
    expected: u32,
    r: RecoveryResult,
)
    requires
        gives(device, &location.dev_path, location.raw_phys as int, n, held),
        hash::crc32c_of(held) == expected,
        recover::sector_outcome(cfg, location, expected, n, dry_run, device, write, r),
    ensures
        r matches RecoveryResult::NotCorrupt { location: l, on_disk_csum, expected_csum } && l
            == location && on_disk_csum == expected && expected_csum == expected,
{
    let slot = location.devid;
    assert forall|out: Result<Seq<u8>, Seq<char>>| #[trigger]
        recover::sector_read(
            device,
            &location.dev_path,
            location.raw_phys as int,
            n,
            out,
        ) implies out == Ok::<Seq<u8>, Seq<char>>(held) by {
        lemma_gives(device, &location.dev_path, location.raw_phys as int, n, held, out);
    }
    assert forall|s: Readings| #[trigger]
        recover::readings(cfg, location, n, device, s) implies s.corrupt@ == held by {}
    match r {
        RecoveryResult::NotCorrupt { .. } => {},
        RecoveryResult::Recovered { via, .. } => {
            let (s, block) = choose|s: Readings, block: Vec<u8>|
                {
                    &&& #[trigger] recover::readings(cfg, location, n, device, s)
                    &&& #[trigger] recover::decides(
                        s,
                        slot,
                        expected,
                        Decision::Block { via, block },
                    )
                    &&& !dry_run ==> recover::write_gives(location, write, block@, Ok(()))
                };
            assert(s.corrupt@ == held);
            assert(false);
        },
        RecoveryResult::Failed { reason, .. } => {
            if let FailureReason::Io(m) = reason {
                assert(!recover::read_failure(cfg, location, expected, n, device, m@));
                let (s, via, block, e) = choose|
                    s: Readings,
                    via: ParityPath,
                    block: Vec<u8>,
                    e: String,
                |
                    {
                        &&& #[trigger] recover::readings(cfg, location, n, device, s)
                        &&& #[trigger] recover::decides(
                            s,
                            slot,
                            expected,
                            Decision::Block { via, block },
                        )
                        &&& !dry_run
                        &&& #[trigger] recover::write_gives(location, write, block@, Err(e))
                        &&& m@ == "write back: "@ + e@
                    };
                assert(s.corrupt@ == held);
                assert(false);
            } else {
                let s = choose|s: Readings|
                    {
                        &&& #[trigger] recover::readings(cfg, location, n, device, s)
                        &&& recover::decides(s, slot, expected, Decision::Failed { reason })
                    };
                assert(s.corrupt@ == held);
                assert(false);
            }
        },
    }
}

} // verus!
