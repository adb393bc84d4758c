//! Undoing a crafted corruption: writes the saved blocks back and recomputes
//! parity from what the disks then hold.

use vstd::prelude::*;

use crate::array::config;
use crate::array::config::ArrayConfig;
use crate::array::parity;
use crate::array::stripe;
use crate::bytes;
use crate::craft::BLOCK;
use crate::recovery::engine;
use crate::recovery::laws;

verus! {

/// Why a block was not restored.
#[derive(Debug)]
pub enum RestoreError<E> {
    /// The slot is not in the array config.
    NotInArray,
    /// The saved block is not a whole block.
    BadBackup { len: usize },
    /// The saved block could not be written back.
    Write(E),
    /// The partner's saved block could not be read.
    ReadPartnerBackup(E),
    /// The partner's saved block is not a whole block.
    BadPartnerBackup { len: usize },
    /// The partner's saved block could not be written back.
    WritePartner { slot: u64, error: E },
    /// A disk could not be read for P, or for Q.
    ComputeP(E),
    ComputeQ(E),
    /// The parity could not be written.
    WriteP(E),
    WriteQ(E),
}

/// Writing `block` at the stripe's place on the disk came to `out`.
pub open spec fn written<E, W: Fn(&String, u64, &[u8]) -> Result<(), E>>(
    cfg: ArrayConfig,
    path: &String,
    array_phys: u64,
    block: Seq<u8>,
    write: W,
    out: Result<(), E>,
) -> bool {
    exists|s: &[u8]|
        s@ == block && #[trigger] call_ensures(
            write,
            (path, (array_phys + cfg.offset(path@)) as u64, s),
            out,
        )
}

/// The saved block may be written to this disk.
pub open spec fn may_write<E, W: Fn(&String, u64, &[u8]) -> Result<(), E>>(
    cfg: ArrayConfig,
    path: &String,
    array_phys: u64,
    block: Seq<u8>,
    write: W,
) -> bool {
    forall|s: &[u8]|
        s@ == block ==> #[trigger] call_requires(
            write,
            (path, (array_phys + cfg.offset(path@)) as u64, s),
        )
}

/// Disk `k` is not the corrupted partner: it is the target's, it cannot be read,
/// or it still holds the saved block.
pub open spec fn not_partner<
    E,
    S: Fn(&String) -> Result<u64, E>,
    R: Fn(&String, u64, usize) -> Result<Vec<u8>, E>,
>(
    cfg: ArrayConfig,
    slot: u64,
    array_phys: u64,
    size: S,
    read: R,
    saved: Seq<u8>,
    k: int,
) -> bool {
    ||| cfg.disks()[k].0 == slot
    ||| exists|out: Result<Vec<u8>, E>| #[trigger]
        stripe::block_read(cfg, &cfg.disks()[k].1, array_phys, BLOCK, size, read, out) && match
            out {
            Ok(b) => b@ == saved,
            Err(_) => true,
        }
}

/// Disk `k` is the corrupted partner: the first other data disk whose block no
/// longer matches the saved original.
pub open spec fn is_partner<
    E,
    S: Fn(&String) -> Result<u64, E>,
    R: Fn(&String, u64, usize) -> Result<Vec<u8>, E>,
>(
    cfg: ArrayConfig,
    slot: u64,
    array_phys: u64,
    size: S,
    read: R,
    saved: Seq<u8>,
    k: int,
) -> bool {
    &&& 0 <= k < cfg.disks().len()
    &&& cfg.disks()[k].0 != slot
    &&& exists|b: Vec<u8>| #[trigger]
        stripe::block_read(
            cfg,
            &cfg.disks()[k].1,
            array_phys,
            BLOCK,
            size,
            read,
            Ok::<Vec<u8>, E>(b),
        ) && b@ != saved
    &&& no_partner_before::<E, S, R>(cfg, slot, array_phys, size, read, saved, k)
}

/// None of the first `k` data disks is the corrupted partner.
pub open spec fn no_partner_before<
    E,
    S: Fn(&String) -> Result<u64, E>,
    R: Fn(&String, u64, usize) -> Result<Vec<u8>, E>,
>(
    cfg: ArrayConfig,
    slot: u64,
    array_phys: u64,
    size: S,
    read: R,
    saved: Seq<u8>,
    k: int,
) -> bool {
    forall|j: int|
        0 <= j < k ==> #[trigger] not_partner::<E, S, R>(
            cfg,
            slot,
            array_phys,
            size,
            read,
            saved,
            j,
        )
}

/// Finds the corrupted partner: the first other data disk whose block no longer
/// matches the saved original. Gives its position among the data disks. The
/// slot's own disk is not read.
pub fn find_partner<
    E,
    S: Fn(&String) -> Result<u64, E>,
    R: Fn(&String, u64, usize) -> Result<Vec<u8>, E>,
>(
    cfg: &ArrayConfig,
    slot: u64,
    array_phys: u64,
    saved: &Vec<u8>,
    size: &S,
    read: &R,
) -> (r: Option<usize>)
    requires
        stripe::others_answer(*cfg, Some(slot), *size, *read),
        stripe::offset_fits(*cfg, array_phys),
    ensures
        match r {
            Some(k) => is_partner::<E, S, R>(
                *cfg,
                slot,
                array_phys,
                *size,
                *read,
                saved@,
                k as int,
            ),
            None => no_partner_before::<E, S, R>(
                *cfg,
                slot,
                array_phys,
                *size,
                *read,
                saved@,
                cfg.disks().len() as int,
            ),
        },
{
    let disks = cfg.disk_list();
    let n: usize = disks.len();
    let mut k: usize = 0;
    while k < n
        invariant
            disks@ == cfg.disks(),
            k <= n,
            n == cfg.disks().len(),
            stripe::others_answer(*cfg, Some(slot), *size, *read),
            stripe::offset_fits(*cfg, array_phys),
            forall|j: int|
                0 <= j < k ==> #[trigger] not_partner::<E, S, R>(
                    *cfg,
                    slot,
                    array_phys,
                    *size,
                    *read,
                    saved@,
                    j,
                ),
        decreases n - k,
    {
        if disks[k].0 != slot {
            let ghost path = cfg.disks()[k as int].1;
            assert(array_phys + cfg.offset(path@) <= u64::MAX);
            let got = stripe::read_block_or_zeros(
                cfg,
                &disks[k].1,
                array_phys,
                BLOCK,
                size,
                read,
            );
            let ghost seen = got;
            assert(stripe::block_read(*cfg, &path, array_phys, BLOCK, *size, *read, seen));
            if let Ok(b) = got {
                if !bytes::bytes_equal(b.as_slice(), saved.as_slice()) {
                    return Some(k);
                }
            }
        }
        assert(not_partner::<E, S, R>(
            *cfg,
            slot,
            array_phys,
            *size,
            *read,
            saved@,
            k as int,
        ));
        k = k + 1;
    }
    None
}

/// `p` is the P that the data disks call for.
pub open spec fn fresh_p<
    E,
    S: Fn(&String) -> Result<u64, E>,
    R: Fn(&String, u64, usize) -> Result<Vec<u8>, E>,
>(cfg: ArrayConfig, array_phys: u64, size: S, read: R, p: Seq<u8>) -> bool {
    p.len() == BLOCK && exists|blocks: Seq<(u64, Vec<u8>)>| #[trigger]
        parity::stripe_data::<E, S, R>(cfg, None, array_phys, BLOCK, size, read, blocks)
            && laws::is_p_of(p, blocks)
}

/// `q` is the Q that the data disks call for.
pub open spec fn fresh_q<
    E,
    S: Fn(&String) -> Result<u64, E>,
    R: Fn(&String, u64, usize) -> Result<Vec<u8>, E>,
>(cfg: ArrayConfig, array_phys: u64, size: S, read: R, q: Seq<u8>) -> bool {
    q.len() == BLOCK && exists|blocks: Seq<(u64, Vec<u8>)>| #[trigger]
        parity::stripe_data::<E, S, R>(cfg, None, array_phys, BLOCK, size, read, blocks)
            && laws::is_q_of(q, blocks)
}

/// Writing the saved block to the slot's disk came to `out`.
pub open spec fn data_written<E, W: Fn(&String, u64, &[u8]) -> Result<(), E>>(
    cfg: ArrayConfig,
    slot: u64,
    array_phys: u64,
    saved: Seq<u8>,
    write: W,
    out: Result<(), E>,
) -> bool {
    exists|k: int|
        {
            &&& 0 <= k < cfg.disks().len()
            &&& (#[trigger] cfg.disks()[k]).0 == slot
            &&& written(cfg, &cfg.disks()[k].1, array_phys, saved, write, out)
        }
}

/// Writing the partner's saved block to the corrupted partner, the disk in slot
/// `t`, came to `out`.
pub open spec fn partner_written<
    E,
    S: Fn(&String) -> Result<u64, E>,
    R: Fn(&String, u64, usize) -> Result<Vec<u8>, E>,
    W: Fn(&String, u64, &[u8]) -> Result<(), E>,
>(
    cfg: ArrayConfig,
    slot: u64,
    array_phys: u64,
    size: S,
    read: R,
    write: W,
    saved: Seq<u8>,
    t: u64,
    out: Result<(), E>,
) -> bool {
    exists|k: int| #[trigger]
        is_partner::<E, S, R>(cfg, slot, array_phys, size, read, saved, k)
            && cfg.disks()[k].0 == t && written(
            cfg,
            &cfg.disks()[k].1,
            array_phys,
            saved,
            write,
            out,
        )
}

/// The partner was dealt with: nothing was saved of one, or none is corrupted,
/// or it was restored in slot `t`.
pub open spec fn partner_settled<
    E,
    S: Fn(&String) -> Result<u64, E>,
    R: Fn(&String, u64, usize) -> Result<Vec<u8>, E>,
    W: Fn(&String, u64, &[u8]) -> Result<(), E>,
    B: Fn() -> Result<Option<Vec<u8>>, E>,
>(
    cfg: ArrayConfig,
    slot: u64,
    array_phys: u64,
    size: S,
    read: R,
    write: W,
    partner_backup: B,
    restored: Option<u64>,
) -> bool {
    ||| call_ensures(partner_backup, (), Ok::<Option<Vec<u8>>, E>(None)) && restored is None
    ||| exists|b: Vec<u8>|
        {
            &&& #[trigger] call_ensures(partner_backup, (), Ok::<Option<Vec<u8>>, E>(Some(b)))
            &&& b@.len() == BLOCK
            &&& match restored {
                None => no_partner_before::<E, S, R>(
                    cfg,
                    slot,
                    array_phys,
                    size,
                    read,
                    b@,
                    cfg.disks().len() as int,
                ),
                Some(t) => partner_written::<E, S, R, W>(
                    cfg,
                    slot,
                    array_phys,
                    size,
                    read,
                    write,
                    b@,
                    t,
                    Ok::<(), E>(()),
                ),
            }
        }
}

/// Writing P, where there is a P disk, came to `out`.
pub open spec fn p_written<E, W: Fn(&String, u64, &[u8]) -> Result<(), E>>(
    cfg: ArrayConfig,
    array_phys: u64,
    write: W,
    p: Seq<u8>,
    out: Result<(), E>,
) -> bool {
    match cfg.parity_p {
        Some(path) => written(cfg, &path, array_phys, p, write, out),
        None => out is Ok,
    }
}

/// Writing Q, where there is a Q disk, came to `out`.
pub open spec fn q_written<E, W: Fn(&String, u64, &[u8]) -> Result<(), E>>(
    cfg: ArrayConfig,
    array_phys: u64,
    write: W,
    q: Seq<u8>,
    out: Result<(), E>,
) -> bool {
    match cfg.parity_q {
        Some(path) => written(cfg, &path, array_phys, q, write, out),
        None => out is Ok,
    }
}

/// P and Q were computed from the data disks, and writing them came to `on_p`
/// and `on_q`; Q is not written where P could not be.
pub open spec fn parity_written<
    E,
    S: Fn(&String) -> Result<u64, E>,
    R: Fn(&String, u64, usize) -> Result<Vec<u8>, E>,
    W: Fn(&String, u64, &[u8]) -> Result<(), E>,
>(
    cfg: ArrayConfig,
    array_phys: u64,
    size: S,
    read: R,
    write: W,
    on_p: Result<(), E>,
    on_q: Option<Result<(), E>>,
) -> bool {
    exists|p: Seq<u8>, q: Seq<u8>|
        {
            &&& #[trigger] fresh_p::<E, S, R>(cfg, array_phys, size, read, p)
            &&& #[trigger] fresh_q::<E, S, R>(cfg, array_phys, size, read, q)
            &&& p_written(cfg, array_phys, write, p, on_p)
            &&& on_q matches Some(out) ==> q_written(cfg, array_phys, write, q, out)
        }
}

/// The saved block is whole and back on the slot's disk.
pub open spec fn data_back<E, W: Fn(&String, u64, &[u8]) -> Result<(), E>>(
    cfg: ArrayConfig,
    slot: u64,
    array_phys: u64,
    saved: Seq<u8>,
    write: W,
) -> bool {
    saved.len() == BLOCK && data_written(cfg, slot, array_phys, saved, write, Ok::<(), E>(()))
}

/// What a restoration may read, and when: the partner's saved block once the
/// slot's own is back, the other data disks to find the partner once its saved
/// block was got, and all data disks through `reread` once the partner was dealt
/// with.
pub open spec fn reads_granted<
    E,
    S: Fn(&String) -> Result<u64, E>,
    R: Fn(&String, u64, usize) -> Result<Vec<u8>, E>,
    A: Fn(&String, u64, usize) -> Result<Vec<u8>, E>,
    W: Fn(&String, u64, &[u8]) -> Result<(), E>,
    B: Fn() -> Result<Option<Vec<u8>>, E>,
>(
    cfg: ArrayConfig,
    slot: u64,
    array_phys: u64,
    saved: Seq<u8>,
    size: S,
    read: R,
    reread: A,
    write: W,
    partner_backup: B,
) -> bool {
    data_back::<E, W>(cfg, slot, array_phys, saved, write) ==> {
        &&& call_requires(partner_backup, ())
        &&& forall|b: Vec<u8>| #[trigger]
            call_ensures(partner_backup, (), Ok::<Option<Vec<u8>>, E>(Some(b))) && b@.len()
                == BLOCK ==> stripe::others_answer::<E, S, R>(cfg, Some(slot), size, read)
        &&& forall|t: Option<u64>| #[trigger]
            partner_settled::<E, S, R, W, B>(
                cfg,
                slot,
                array_phys,
                size,
                read,
                write,
                partner_backup,
                t,
            ) ==> stripe::others_answer::<E, S, A>(cfg, None, size, reread)
    }
}

/// The only writes a restoration needs: the saved block to the slot's disk, the
/// partner's saved block to the corrupted partner, and the parity that the
/// restored disks call for to the parity disks: P once both are computed, Q once
/// P is written.
pub open spec fn writes_granted<
    E,
    S: Fn(&String) -> Result<u64, E>,
    R: Fn(&String, u64, usize) -> Result<Vec<u8>, E>,
    A: Fn(&String, u64, usize) -> Result<Vec<u8>, E>,
    W: Fn(&String, u64, &[u8]) -> Result<(), E>,
    B: Fn() -> Result<Option<Vec<u8>>, E>,
>(
    cfg: ArrayConfig,
    slot: u64,
    array_phys: u64,
    saved: Seq<u8>,
    size: S,
    read: R,
    reread: A,
    write: W,
    partner_backup: B,
) -> bool {
    &&& forall|k: int|
        0 <= k < cfg.disks().len() && (#[trigger] cfg.disks()[k]).0 == slot && saved.len()
            == BLOCK ==> may_write(cfg, &cfg.disks()[k].1, array_phys, saved, write)
    &&& forall|b: Vec<u8>, k: int|
        #![trigger call_ensures(partner_backup, (), Ok::<Option<Vec<u8>>, E>(Some(b))), cfg.disks()[k]]
        0 <= k < cfg.disks().len() && call_ensures(
            partner_backup,
            (),
            Ok::<Option<Vec<u8>>, E>(Some(b)),
        ) && is_partner::<E, S, R>(cfg, slot, array_phys, size, read, b@, k) && b@.len() == BLOCK
            ==> may_write(cfg, &cfg.disks()[k].1, array_phys, b@, write)
    &&& cfg.parity_p matches Some(path) ==> forall|p: Seq<u8>, q: Seq<u8>|
        #![trigger fresh_p::<E, S, A>(cfg, array_phys, size, reread, p), fresh_q::<E, S, A>(cfg, array_phys, size, reread, q)]
        fresh_p::<E, S, A>(cfg, array_phys, size, reread, p) && fresh_q::<E, S, A>(
            cfg,
            array_phys,
            size,
            reread,
            q,
        ) ==> may_write(cfg, &path, array_phys, p, write)
    &&& cfg.parity_q matches Some(path) ==> forall|p: Seq<u8>, q: Seq<u8>|
        #![trigger fresh_p::<E, S, A>(cfg, array_phys, size, reread, p), fresh_q::<E, S, A>(cfg, array_phys, size, reread, q)]
        fresh_p::<E, S, A>(cfg, array_phys, size, reread, p) && fresh_q::<E, S, A>(
            cfg,
            array_phys,
            size,
            reread,
            q,
        ) && p_written(cfg, array_phys, write, p, Ok::<(), E>(())) ==> may_write(
            cfg,
            &path,
            array_phys,
            q,
            write,
        )
}

/// The position of a slot's disk among the data disks.
fn position_of(cfg: &ArrayConfig, slot: u64) -> (r: Option<usize>)
    ensures
        match r {
            Some(k) => k < cfg.disks().len() && cfg.disks()[k as int].0 == slot,
            None => cfg.dev(slot) is None,
        },
        r is Some ==> cfg.dev(slot) is Some,
{
    let disks = cfg.disk_list();
    proof {
        config::law_listed_disk_is_in_its_slot(*cfg, slot);
    }
    let n: usize = disks.len();
    let mut k: usize = 0;
    while k < n
        invariant
            k <= n,
            disks@ == cfg.disks(),
            n == disks@.len(),
            forall|j: int| 0 <= j < k ==> (#[trigger] cfg.disks()[j]).0 != slot,
        decreases n - k,
    {
        if disks[k].0 == slot {
            proof {
                config::law_listed_disk_is_in_its_slot(*cfg, slot);
            }
            return Some(k);
        }
        k = k + 1;
    }
    None
}

/// `e` is why a restoration stopped, each stage before it done.
pub open spec fn stopped<
    E,
    S: Fn(&String) -> Result<u64, E>,
    R: Fn(&String, u64, usize) -> Result<Vec<u8>, E>,
    A: Fn(&String, u64, usize) -> Result<Vec<u8>, E>,
    W: Fn(&String, u64, &[u8]) -> Result<(), E>,
    B: Fn() -> Result<Option<Vec<u8>>, E>,
>(
    cfg: ArrayConfig,
    slot: u64,
    array_phys: u64,
    saved: Seq<u8>,
    size: S,
    read: R,
    reread: A,
    write: W,
    partner_backup: B,
    e: RestoreError<E>,
) -> bool {
    let data_back = data_back::<E, W>(cfg, slot, array_phys, saved, write);
    let partner_back = exists|t: Option<u64>| #[trigger]
        partner_settled::<E, S, R, W, B>(
            cfg,
            slot,
            array_phys,
            size,
            read,
            write,
            partner_backup,
            t,
        );
    match e {
        RestoreError::NotInArray => cfg.dev(slot) is None,
        RestoreError::BadBackup { len } => cfg.dev(slot) is Some && len == saved.len() && len
            != BLOCK,
        RestoreError::Write(error) => saved.len() == BLOCK && data_written(
            cfg,
            slot,
            array_phys,
            saved,
            write,
            Err::<(), E>(error),
        ),
        RestoreError::ReadPartnerBackup(error) => data_back && call_ensures(
            partner_backup,
            (),
            Err::<Option<Vec<u8>>, E>(error),
        ),
        RestoreError::BadPartnerBackup { len } => data_back && len != BLOCK && exists|b: Vec<u8>|
            #[trigger] call_ensures(partner_backup, (), Ok::<Option<Vec<u8>>, E>(Some(b)))
                && b@.len() == len,
        RestoreError::WritePartner { slot: t, error } => data_back && partner_refused::<
            E,
            S,
            R,
            W,
            B,
        >(cfg, slot, array_phys, size, read, write, partner_backup, t, error),
        RestoreError::ComputeP(error) => data_back && partner_back && parity::stripe_error::<
            E,
            S,
            A,
        >(cfg, None, array_phys, BLOCK, size, reread, error),
        RestoreError::ComputeQ(error) => data_back && partner_back && parity::stripe_error::<
            E,
            S,
            A,
        >(cfg, None, array_phys, BLOCK, size, reread, error) && exists|p: Seq<u8>| #[trigger]
            fresh_p::<E, S, A>(cfg, array_phys, size, reread, p),
        RestoreError::WriteP(error) => data_back && partner_back && parity_written::<E, S, A, W>(
            cfg,
            array_phys,
            size,
            reread,
            write,
            Err::<(), E>(error),
            None,
        ),
        RestoreError::WriteQ(error) => data_back && partner_back && parity_written::<E, S, A, W>(
            cfg,
            array_phys,
            size,
            reread,
            write,
            Ok::<(), E>(()),
            Some(Err::<(), E>(error)),
        ),
    }
}

/// The partner's saved block is whole, and writing it to the disk in slot `t`
/// gave `error`.
pub open spec fn partner_refused<
    E,
    S: Fn(&String) -> Result<u64, E>,
    R: Fn(&String, u64, usize) -> Result<Vec<u8>, E>,
    W: Fn(&String, u64, &[u8]) -> Result<(), E>,
    B: Fn() -> Result<Option<Vec<u8>>, E>,
>(
    cfg: ArrayConfig,
    slot: u64,
    array_phys: u64,
    size: S,
    read: R,
    write: W,
    partner_backup: B,
    t: u64,
    error: E,
) -> bool {
    exists|b: Vec<u8>| #[trigger]
        call_ensures(partner_backup, (), Ok::<Option<Vec<u8>>, E>(Some(b))) && b@.len() == BLOCK
            && partner_written::<E, S, R, W>(
            cfg,
            slot,
            array_phys,
            size,
            read,
            write,
            b@,
            t,
            Err::<(), E>(error),
        )
}

/// Writes one block where it may go.
fn put<E, W: Fn(&String, u64, &[u8]) -> Result<(), E>>(
    cfg: &ArrayConfig,
    path: &String,
    array_phys: u64,
    block: &Vec<u8>,
    write: &W,
) -> (r: Result<(), E>)
    requires
        array_phys + cfg.offset(path@) <= u64::MAX,
        may_write(*cfg, path, array_phys, block@, *write),
    ensures
        written(*cfg, path, array_phys, block@, *write, r),
{
    stripe::write_block(cfg, path, array_phys, block.as_slice(), write)
}

/// Undoes a corruption: writes the saved block back, then the partner's where
/// one was saved and a disk no longer matches it, then P and Q recomputed from
/// what the disks then hold: `reread` is `read` once those blocks are back. Gives
/// the slot of the partner that was restored.
pub fn restore<
    E,
    S: Fn(&String) -> Result<u64, E>,
    R: Fn(&String, u64, usize) -> Result<Vec<u8>, E>,
    A: Fn(&String, u64, usize) -> Result<Vec<u8>, E>,
    W: Fn(&String, u64, &[u8]) -> Result<(), E>,
    B: Fn() -> Result<Option<Vec<u8>>, E>,
>(
    cfg: &ArrayConfig,
    slot: u64,
    array_phys: u64,
    saved: &Vec<u8>,
    size: &S,
    read: &R,
    reread: &A,
    write: &W,
    partner_backup: &B,
) -> (r: Result<Option<u64>, RestoreError<E>>)
    requires
        stripe::offset_fits(*cfg, array_phys),
        parity::slots_have_columns(*cfg),
        reads_granted(
            *cfg,
            slot,
            array_phys,
            saved@,
            *size,
            *read,
            *reread,
            *write,
            *partner_backup,
        ),
        writes_granted(
            *cfg,
            slot,
            array_phys,
            saved@,
            *size,
            *read,
            *reread,
            *write,
            *partner_backup,
        ),
    ensures
        match r {
            Ok(partner) => {
                &&& data_back::<E, W>(*cfg, slot, array_phys, saved@, *write)
                &&& partner_settled::<E, S, R, W, B>(
                    *cfg,
                    slot,
                    array_phys,
                    *size,
                    *read,
                    *write,
                    *partner_backup,
                    partner,
                )
                &&& parity_written::<E, S, A, W>(
                    *cfg,
                    array_phys,
                    *size,
                    *reread,
                    *write,
                    Ok::<(), E>(()),
                    Some(Ok::<(), E>(())),
                )
            },
            Err(e) => stopped::<E, S, R, A, W, B>(
                *cfg,
                slot,
                array_phys,
                saved@,
                *size,
                *read,
                *reread,
                *write,
                *partner_backup,
                e,
            ),
        },
{
    let k: usize = match position_of(cfg, slot) {
        Some(k) => k,
        None => {
            return Err(RestoreError::NotInArray);
        },
    };
    if saved.len() != BLOCK {
        return Err(RestoreError::BadBackup { len: saved.len() });
    }
    let disks = cfg.disk_list();
    assert(cfg.disks()[k as int].0 == slot);
    match put(cfg, &disks[k].1, array_phys, saved, write) {
        Ok(done) => {
            assert(done == ());
        },
        Err(e) => {
            return Err(RestoreError::Write(e));
        },
    }
    assert(data_back::<E, W>(*cfg, slot, array_phys, saved@, *write));
    let partner = match restore_partner(
        cfg,
        slot,
        array_phys,
        saved,
        size,
        read,
        reread,
        write,
        partner_backup,
    ) {
        Ok(t) => t,
        Err(e) => {
            return Err(e);
        },
    };
    let p = match parity::compute_p(cfg, array_phys, BLOCK, size, reread) {
        Ok(p) => p,
        Err(e) => {
            return Err(RestoreError::ComputeP(e));
        },
    };
    assert(fresh_p::<E, S, A>(*cfg, array_phys, *size, *reread, p@));
    let q = match parity::compute_q(cfg, array_phys, BLOCK, size, reread) {
        Ok(q) => q,
        Err(e) => {
            return Err(RestoreError::ComputeQ(e));
        },
    };
    assert(fresh_q::<E, S, A>(*cfg, array_phys, *size, *reread, q@));
    if let Some(path) = &cfg.parity_p {
        match put(cfg, path, array_phys, &p, write) {
            Ok(done) => {
                assert(done == ());
            },
            Err(e) => {
                assert(p_written(*cfg, array_phys, *write, p@, Err::<(), E>(e)));
                return Err(RestoreError::WriteP(e));
            },
        }
    }
    assert(p_written(*cfg, array_phys, *write, p@, Ok::<(), E>(())));
    if let Some(path) = &cfg.parity_q {
        match put(cfg, path, array_phys, &q, write) {
            Ok(done) => {
                assert(done == ());
            },
            Err(e) => {
                assert(q_written(*cfg, array_phys, *write, q@, Err::<(), E>(e)));
                return Err(RestoreError::WriteQ(e));
            },
        }
    }
    assert(q_written(*cfg, array_phys, *write, q@, Ok::<(), E>(())));
    Ok(partner)
}

/// Restores the partner, where one was saved and a disk no longer matches it.
fn restore_partner<
    E,
    S: Fn(&String) -> Result<u64, E>,
    R: Fn(&String, u64, usize) -> Result<Vec<u8>, E>,
    A: Fn(&String, u64, usize) -> Result<Vec<u8>, E>,
    W: Fn(&String, u64, &[u8]) -> Result<(), E>,
    B: Fn() -> Result<Option<Vec<u8>>, E>,
>(
    cfg: &ArrayConfig,
    slot: u64,
    array_phys: u64,
    saved: &Vec<u8>,
    size: &S,
    read: &R,
    reread: &A,
    write: &W,
    partner_backup: &B,
) -> (r: Result<Option<u64>, RestoreError<E>>)
    requires
        stripe::offset_fits(*cfg, array_phys),
        data_back::<E, W>(*cfg, slot, array_phys, saved@, *write),
        reads_granted(
            *cfg,
            slot,
            array_phys,
            saved@,
            *size,
            *read,
            *reread,
            *write,
            *partner_backup,
        ),
        writes_granted(
            *cfg,
            slot,
            array_phys,
            saved@,
            *size,
            *read,
            *reread,
            *write,
            *partner_backup,
        ),
    ensures
        match r {
            Ok(partner) => partner_settled::<E, S, R, W, B>(
                *cfg,
                slot,
                array_phys,
                *size,
                *read,
                *write,
                *partner_backup,
                partner,
            ),
            Err(RestoreError::ReadPartnerBackup(e)) => call_ensures(
                *partner_backup,
                (),
                Err::<Option<Vec<u8>>, E>(e),
            ),
            Err(RestoreError::BadPartnerBackup { len }) => len != BLOCK && exists|b: Vec<u8>|
                #[trigger] call_ensures(*partner_backup, (), Ok::<Option<Vec<u8>>, E>(Some(b)))
                    && b@.len() == len,
            Err(RestoreError::WritePartner { slot: t, error }) => partner_refused::<E, S, R, W, B>(
                *cfg,
                slot,
                array_phys,
                *size,
                *read,
                *write,
                *partner_backup,
                t,
                error,
            ),
            Err(_) => false,
        },
{
    let given = partner_backup();
    assert(call_ensures(*partner_backup, (), given));
    let b = match given {
        Ok(Some(b)) => b,
        Ok(None) => {
            return Ok(None);
        },
        Err(e) => {
            return Err(RestoreError::ReadPartnerBackup(e));
        },
    };
    assert(call_ensures(*partner_backup, (), Ok::<Option<Vec<u8>>, E>(Some(b))));
    if b.len() != BLOCK {
        return Err(RestoreError::BadPartnerBackup { len: b.len() });
    }
    match find_partner(cfg, slot, array_phys, &b, size, read) {
        Some(k) => {
            let disks = cfg.disk_list();
            let t: u64 = disks[k].0;
            assert(array_phys + cfg.offset(cfg.disks()[k as int].1@) <= u64::MAX);
            match put(cfg, &disks[k].1, array_phys, &b, write) {
                Ok(done) => {
                    assert(done == ());
                    assert(partner_written::<E, S, R, W>(
                        *cfg,
                        slot,
                        array_phys,
                        *size,
                        *read,
                        *write,
                        b@,
                        t,
                        Ok::<(), E>(()),
                    ));
                    Ok(Some(t))
                },
                Err(error) => {
                    assert(partner_written::<E, S, R, W>(
                        *cfg,
                        slot,
                        array_phys,
                        *size,
                        *read,
                        *write,
                        b@,
                        t,
                        Err::<(), E>(error),
                    ));
                    Err(RestoreError::WritePartner { slot: t, error })
                },
            }
        },
        None => Ok(None),
    }
}

/// Two readings of a stripe show the same disks with the same bytes.
pub open spec fn same_blocks(a: Seq<(u64, Vec<u8>)>, b: Seq<(u64, Vec<u8>)>) -> bool {
    &&& a.len() == b.len()
    &&& forall|k: int|
        0 <= k < a.len() ==> (#[trigger] a[k]).0 == b[k].0 && a[k].1@ == b[k].1@
}

proof fn lemma_same_sums(a: Seq<(u64, Vec<u8>)>, b: Seq<(u64, Vec<u8>)>, i: int)
    requires
        same_blocks(a, b),
    ensures
        engine::xor_all(a, i) == engine::xor_all(b, i),
        engine::q_sum(a, i) == engine::q_sum(b, i),
    decreases a.len(),
{
    if a.len() > 0 {
        let n = a.len() - 1;
        assert(a[n].0 == b[n].0 && a[n].1@ == b[n].1@);
        assert forall|k: int| 0 <= k < n implies (#[trigger] a.drop_last()[k]).0
            == b.drop_last()[k].0 && a.drop_last()[k].1@ == b.drop_last()[k].1@ by {
            assert(a[k].0 == b[k].0 && a[k].1@ == b[k].1@);
        }
        lemma_same_sums(a.drop_last(), b.drop_last(), i);
    }
}

/// Restoring undoes a corruption: once the saved blocks are back on the disk and
/// on its partner, the parity recomputed from the disks is the parity that the
/// stripe called for before.
pub proof fn law_restoring_gives_parity_back(
    before: Seq<(u64, Vec<u8>)>,
    corrupted: Seq<(u64, Vec<u8>)>,
    restored: Seq<(u64, Vec<u8>)>,
    disk: int,
    partner: int,
    old_p: Seq<u8>,
    old_q: Seq<u8>,
    p: Seq<u8>,
    q: Seq<u8>,
)
    requires
        corrupted.len() == before.len(),
        restored.len() == before.len(),
        // Only the disk and its partner were corrupted,
        forall|k: int|
            0 <= k < before.len() ==> (#[trigger] corrupted[k]).0 == before[k].0 && (k != disk && k
                != partner ==> corrupted[k].1@ == before[k].1@),
        // and only those two were written since, with what they held before.
        forall|k: int|
            0 <= k < before.len() ==> (#[trigger] restored[k]).0 == corrupted[k].0
                && restored[k].1@ == (if k == disk || k == partner {
                before[k].1@
            } else {
                corrupted[k].1@
            }),
        laws::is_p_of(old_p, before),
        laws::is_q_of(old_q, before),
        laws::is_p_of(p, restored),
        laws::is_q_of(q, restored),
        p.len() == old_p.len(),
        q.len() == old_q.len(),
    ensures
        p == old_p,
        q == old_q,
{
    assert(same_blocks(restored, before)) by {
        assert forall|k: int| 0 <= k < restored.len() implies (#[trigger] restored[k]).0
            == before[k].0 && restored[k].1@ == before[k].1@ by {
            assert(corrupted[k].0 == before[k].0);
        }
    }
    assert forall|i: int| 0 <= i < p.len() implies p[i] == old_p[i] by {
        lemma_same_sums(restored, before, i);
    }
    assert forall|i: int| 0 <= i < q.len() implies q[i] == old_q[i] by {
        lemma_same_sums(restored, before, i);
    }
    assert(p =~= old_p);
    assert(q =~= old_q);
}

} // verus!
