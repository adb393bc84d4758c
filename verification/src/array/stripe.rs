//! Gathers aligned stripe chunks across the array's disks, in raw-rdev space.
//!
//! The caller supplies the two things a device can be asked: its capacity, and
//! the bytes at a position.

use vstd::prelude::*;

use crate::array::config;
use crate::array::config::ArrayConfig;
use crate::recovery::engine;
use crate::recovery::laws;

verus! {

/// The aligned chunks of one stripe, ready for the recovery engine.
#[derive(Debug)]
pub struct StripeChunks {
    /// (slot, block) for every data disk except the failing one.
    pub other_data: Vec<(u64, Vec<u8>)>,
    /// Primary parity chunk at this offset, if the array has a P disk.
    pub p_block: Option<Vec<u8>>,
    /// Secondary parity chunk at this offset, if the array has a Q disk.
    pub q_block: Option<Vec<u8>>,
}

/// Devices can be asked for their capacity and for any bytes, and a read gives
/// as many bytes as it was asked for.
pub open spec fn devices_answer<
    E,
    S: Fn(&String) -> Result<u64, E>,
    R: Fn(&String, u64, usize) -> Result<Vec<u8>, E>,
>(size: S, read: R) -> bool {
    &&& forall|p: &String| #[trigger] call_requires(size, (p,))
    &&& forall|p: &String, pos: u64, len: usize| #[trigger] call_requires(read, (p, pos, len))
    &&& forall|p: &String, pos: u64, len: usize, b: Vec<u8>| #[trigger]
        call_ensures(read, (p, pos, len), Ok::<Vec<u8>, E>(b)) ==> b@.len() == len
}

/// The device can be asked for its capacity and for any of its bytes, and a read
/// gives as many bytes as it was asked for.
pub open spec fn disk_answers<
    E,
    S: Fn(&String) -> Result<u64, E>,
    R: Fn(&String, u64, usize) -> Result<Vec<u8>, E>,
>(size: S, read: R, path: &String) -> bool {
    &&& call_requires(size, (path,))
    &&& forall|pos: u64, len: usize| #[trigger] call_requires(read, (path, pos, len))
    &&& forall|pos: u64, len: usize, b: Vec<u8>| #[trigger]
        call_ensures(read, (path, pos, len), Ok::<Vec<u8>, E>(b)) ==> b@.len() == len
}

/// Every data disk but the one in slot `skip` answers.
pub open spec fn others_answer<
    E,
    S: Fn(&String) -> Result<u64, E>,
    R: Fn(&String, u64, usize) -> Result<Vec<u8>, E>,
>(config: ArrayConfig, skip: Option<u64>, size: S, read: R) -> bool {
    forall|k: int|
        0 <= k < config.disks().len() && skip != Some((#[trigger] config.disks()[k]).0)
            ==> disk_answers::<E, S, R>(size, read, &config.disks()[k].1)
}

/// Every disk of the stripe but the data disk in slot `skip` answers: nothing is
/// granted of that one.
pub open spec fn stripe_answers<
    E,
    S: Fn(&String) -> Result<u64, E>,
    R: Fn(&String, u64, usize) -> Result<Vec<u8>, E>,
>(config: ArrayConfig, skip: u64, size: S, read: R) -> bool {
    &&& others_answer::<E, S, R>(config, Some(skip), size, read)
    &&& config.parity_p matches Some(p) ==> disk_answers::<E, S, R>(size, read, &p)
    &&& config.parity_q matches Some(q) ==> disk_answers::<E, S, R>(size, read, &q)
}

/// `n` zero bytes.
pub open spec fn zeros(n: nat) -> Seq<u8> {
    Seq::new(n, |i: int| 0u8)
}

/// How much of a block at `raw` lies inside a device of `capacity` bytes.
pub open spec fn available(capacity: int, raw: int, block_size: int) -> int {
    if capacity - raw < block_size { capacity - raw } else { block_size }
}

/// What reading the block at `raw` may give, the device's capacity being
/// `capacity`: zeros past its end, else the bytes that are there with zeros for
/// those that are not.
pub open spec fn block_at<E, R: Fn(&String, u64, usize) -> Result<Vec<u8>, E>>(
    path: &String,
    capacity: u64,
    raw: int,
    block_size: usize,
    read: R,
    out: Result<Vec<u8>, E>,
) -> bool {
    if raw >= capacity {
        out matches Ok(b) && b@ == zeros(block_size as nat)
    } else {
        let have = available(capacity as int, raw, block_size as int);
        exists|got: Result<Vec<u8>, E>| #[trigger]
            call_ensures(read, (path, raw as u64, have as usize), got) && match got {
                Ok(bytes) => out matches Ok(b) && b@ == bytes@ + zeros((block_size - have) as nat),
                Err(e) => out == Err::<Vec<u8>, E>(e),
            }
    }
}

/// What reading the block at an array offset on a device may give.
pub open spec fn block_read<
    E,
    S: Fn(&String) -> Result<u64, E>,
    R: Fn(&String, u64, usize) -> Result<Vec<u8>, E>,
>(
    config: ArrayConfig,
    path: &String,
    array_phys: u64,
    block_size: usize,
    size: S,
    read: R,
    out: Result<Vec<u8>, E>,
) -> bool {
    exists|cap: Result<u64, E>| #[trigger]
        call_ensures(size, (path,), cap) && match cap {
            Ok(capacity) => block_at(
                path,
                capacity,
                array_phys + config.offset(path@),
                block_size,
                read,
                out,
            ),
            Err(e) => out == Err::<Vec<u8>, E>(e),
        }
}

/// Reads one block from `dev_path`, zero-filling when the offset lies past the
/// device end (the asymmetric-array convention). Any other failure is a hard
/// error.
pub fn read_block_or_zeros<
    E,
    S: Fn(&String) -> Result<u64, E>,
    R: Fn(&String, u64, usize) -> Result<Vec<u8>, E>,
>(
    config: &ArrayConfig,
    dev_path: &String,
    array_phys: u64,
    block_size: usize,
    size: &S,
    read: &R,
) -> (r: Result<Vec<u8>, E>)
    requires
        disk_answers(*size, *read, dev_path),
        array_phys + config.offset(dev_path@) <= u64::MAX,
    ensures
        block_read(*config, dev_path, array_phys, block_size, *size, *read, r),
        r matches Ok(b) ==> b@.len() == block_size,
        // A block that lies inside the device is what reading it there gave.
        forall|capacity: u64|
            block_size > 0 && array_phys + config.offset(dev_path@) + block_size <= capacity
                && #[trigger] crate::laws::array::holds_bytes(*size, dev_path, capacity)
                ==> exists|got: Result<Vec<u8>, E>| #[trigger]
                call_ensures(
                    *read,
                    (dev_path, (array_phys + config.offset(dev_path@)) as u64, block_size),
                    got,
                ) && match got {
                    Ok(bytes) => r matches Ok(b) && b@ == bytes@,
                    Err(e) => r == Err::<Vec<u8>, E>(e),
                },
{
    let raw_phys: u64 = array_phys + config.raw_offset_for(dev_path.as_str());
    let capacity: u64 = match size(dev_path) {
        Ok(c) => c,
        Err(e) => {
            return Err(e);
        },
    };
    if raw_phys >= capacity {
        let blank: Vec<u8> = vec![0u8; block_size];
        assert(blank@ =~= zeros(block_size as nat));
        return Ok(blank);
    }
    // A block straddling the device end: the bytes that are there, then zeros.
    let inside: u64 = capacity - raw_phys;
    let have: usize = if inside < block_size as u64 {
        inside as usize
    } else {
        block_size
    };
    assert(have == available(capacity as int, raw_phys as int, block_size as int));
    let got = read(dev_path, raw_phys, have);
    match got {
        Err(e) => Err(e),
        Ok(bytes) => {
            let ghost whole: Result<Vec<u8>, E> = Ok(bytes);
            assert(call_ensures(*read, (dev_path, raw_phys, have), whole));
            let mut buf = bytes;
            let ghost first = buf@;
            while buf.len() < block_size
                invariant
                    first.len() == have,
                    have <= buf@.len() <= block_size,
                    buf@ == first + zeros((buf@.len() - have) as nat),
                decreases block_size - buf@.len(),
            {
                let ghost before = buf@;
                buf.push(0u8);
                assert(buf@ =~= first + zeros((buf@.len() - have) as nat));
            }
            Ok(buf)
        },
    }
}

/// Writes `data` to `dev_path` at `array_phys` (array-partition space; the disk's
/// rdev offset is added here).
pub fn write_block<E, W: Fn(&String, u64, &[u8]) -> Result<(), E>>(
    config: &ArrayConfig,
    dev_path: &String,
    array_phys: u64,
    data: &[u8],
    write: &W,
) -> (r: Result<(), E>)
    requires
        array_phys + config.offset(dev_path@) <= u64::MAX,
        call_requires(*write, (dev_path, (array_phys + config.offset(dev_path@)) as u64, data)),
    ensures
        call_ensures(
            *write,
            (dev_path, (array_phys + config.offset(dev_path@)) as u64, data),
            r,
        ),
{
    let raw_phys: u64 = array_phys + config.raw_offset_for(dev_path.as_str());
    write(dev_path, raw_phys, data)
}

/// The position that an array offset has on every disk is an address.
pub open spec fn offset_fits(config: ArrayConfig, array_phys: u64) -> bool {
    &&& forall|k: int|
        0 <= k < config.disks().len() ==> array_phys + config.offset(
            (#[trigger] config.disks()[k]).1@,
        ) <= u64::MAX
    &&& config.parity_p matches Some(p) ==> array_phys + config.offset(p@) <= u64::MAX
    &&& config.parity_q matches Some(q) ==> array_phys + config.offset(q@) <= u64::MAX
}

/// Whether the stripe at `array_phys` lies inside the address space of every
/// disk.
pub fn in_range(config: &ArrayConfig, array_phys: u64) -> (r: bool)
    ensures
        r == offset_fits(*config, array_phys),
{
    let disks = config.disk_list();
    let n: usize = disks.len();
    let mut k: usize = 0;
    while k < n
        invariant
            disks@ == config.disks(),
            k <= n,
            n == config.disks().len(),
            forall|j: int|
                0 <= j < k ==> array_phys + config.offset((#[trigger] config.disks()[j]).1@)
                    <= u64::MAX,
        decreases n - k,
    {
        let path = &disks[k].1;
        if config.position(path.as_str(), array_phys).is_none() {
            assert(array_phys + config.offset(config.disks()[k as int].1@) > u64::MAX);
            return false;
        }
        k = k + 1;
    }
    if let Some(p) = &config.parity_p {
        if config.position(p.as_str(), array_phys).is_none() {
            return false;
        }
    }
    if let Some(q) = &config.parity_q {
        if config.position(q.as_str(), array_phys).is_none() {
            return false;
        }
    }
    true
}

/// `out` holds what reading gave of the first `k` data disks, in slot order and
/// without the slot `skip`.
pub open spec fn others_read<
    E,
    S: Fn(&String) -> Result<u64, E>,
    R: Fn(&String, u64, usize) -> Result<Vec<u8>, E>,
>(
    config: ArrayConfig,
    skip: u64,
    array_phys: u64,
    block_size: usize,
    size: S,
    read: R,
    k: int,
    out: Seq<(u64, Vec<u8>)>,
) -> bool
    decreases k,
{
    if k <= 0 {
        out.len() == 0
    } else if config.disks()[k - 1].0 == skip {
        others_read::<E, S, R>(config, skip, array_phys, block_size, size, read, k - 1, out)
    } else {
        &&& out.len() > 0
        &&& out.last().0 == config.disks()[k - 1].0
        &&& block_read(
            config,
            &config.disks()[k - 1].1,
            array_phys,
            block_size,
            size,
            read,
            Ok::<Vec<u8>, E>(out.last().1),
        )
        &&& others_read::<E, S, R>(
            config,
            skip,
            array_phys,
            block_size,
            size,
            read,
            k - 1,
            out.drop_last(),
        )
    }
}

/// The data disk `k` may be read.
pub open spec fn readable<
    E,
    S: Fn(&String) -> Result<u64, E>,
    R: Fn(&String, u64, usize) -> Result<Vec<u8>, E>,
>(config: ArrayConfig, k: int, array_phys: u64, block_size: usize, size: S, read: R) -> bool {
    exists|b: Vec<u8>|
        block_read(
            config,
            &config.disks()[k].1,
            array_phys,
            block_size,
            size,
            read,
            Ok::<Vec<u8>, E>(b),
        )
}

/// Every data disk before `k` that is not skipped may be read.
pub open spec fn readable_before<
    E,
    S: Fn(&String) -> Result<u64, E>,
    R: Fn(&String, u64, usize) -> Result<Vec<u8>, E>,
>(
    config: ArrayConfig,
    skip: u64,
    k: int,
    array_phys: u64,
    block_size: usize,
    size: S,
    read: R,
) -> bool {
    forall|j: int|
        0 <= j < k && config.disks()[j].0 != skip ==> #[trigger] readable::<E, S, R>(
            config,
            j,
            array_phys,
            block_size,
            size,
            read,
        )
}

/// `out` is what reading a parity disk gave; an absent disk gives none.
pub open spec fn parity_read<
    E,
    S: Fn(&String) -> Result<u64, E>,
    R: Fn(&String, u64, usize) -> Result<Vec<u8>, E>,
>(
    config: ArrayConfig,
    disk: Option<String>,
    array_phys: u64,
    block_size: usize,
    size: S,
    read: R,
    out: Option<Vec<u8>>,
) -> bool {
    match disk {
        None => out is None,
        Some(path) => out matches Some(b) && block_read(
            config,
            &path,
            array_phys,
            block_size,
            size,
            read,
            Ok::<Vec<u8>, E>(b),
        ),
    }
}

/// Reading a parity disk failed with `e`.
pub open spec fn parity_error<
    E,
    S: Fn(&String) -> Result<u64, E>,
    R: Fn(&String, u64, usize) -> Result<Vec<u8>, E>,
>(
    config: ArrayConfig,
    disk: Option<String>,
    array_phys: u64,
    block_size: usize,
    size: S,
    read: R,
    e: E,
) -> bool {
    disk matches Some(path) && block_read(
        config,
        &path,
        array_phys,
        block_size,
        size,
        read,
        Err::<Vec<u8>, E>(e),
    )
}

/// The first disk that could not be read, the data disks in slot order, then P,
/// then Q, failed with `e`.
pub open spec fn gather_error<
    E,
    S: Fn(&String) -> Result<u64, E>,
    R: Fn(&String, u64, usize) -> Result<Vec<u8>, E>,
>(
    config: ArrayConfig,
    skip: u64,
    array_phys: u64,
    block_size: usize,
    size: S,
    read: R,
    e: E,
) -> bool {
    let n = config.disks().len() as int;
    ||| exists|k: int|
        {
            &&& 0 <= k < n
            &&& (#[trigger] config.disks()[k]).0 != skip
            &&& block_read(
                config,
                &config.disks()[k].1,
                array_phys,
                block_size,
                size,
                read,
                Err::<Vec<u8>, E>(e),
            )
            &&& readable_before::<E, S, R>(config, skip, k, array_phys, block_size, size, read)
        }
    ||| {
        &&& readable_before::<E, S, R>(config, skip, n, array_phys, block_size, size, read)
        &&& parity_error(config, config.parity_p, array_phys, block_size, size, read, e)
    }
    ||| {
        &&& readable_before::<E, S, R>(config, skip, n, array_phys, block_size, size, read)
        &&& exists|p: Option<Vec<u8>>| #[trigger]
            parity_read::<E, S, R>(
                config,
                config.parity_p,
                array_phys,
                block_size,
                size,
                read,
                p,
            )
        &&& parity_error(config, config.parity_q, array_phys, block_size, size, read, e)
    }
}

/// `c` holds what reading the stripe gave.
pub open spec fn gathered<
    E,
    S: Fn(&String) -> Result<u64, E>,
    R: Fn(&String, u64, usize) -> Result<Vec<u8>, E>,
>(
    config: ArrayConfig,
    skip: u64,
    array_phys: u64,
    block_size: usize,
    size: S,
    read: R,
    c: StripeChunks,
) -> bool {
    &&& others_read::<E, S, R>(
        config,
        skip,
        array_phys,
        block_size,
        size,
        read,
        config.disks().len() as int,
        c.other_data@,
    )
    &&& parity_read::<E, S, R>(
        config,
        config.parity_p,
        array_phys,
        block_size,
        size,
        read,
        c.p_block,
    )
    &&& parity_read::<E, S, R>(
        config,
        config.parity_q,
        array_phys,
        block_size,
        size,
        read,
        c.q_block,
    )
}

/// Chunks of `block_size` bytes, one for each data slot but `skip`, ascending.
pub open spec fn chunks_of(config: ArrayConfig, skip: u64, block_size: usize, c: StripeChunks) -> bool {
    &&& engine::all_len(c.other_data@, block_size as nat)
    &&& slots_between(config.disks(), skip, c.other_data@)
    &&& laws::slots_distinct(c.other_data@)
    &&& c.p_block is Some <==> config.parity_p is Some
    &&& c.q_block is Some <==> config.parity_q is Some
    &&& c.p_block matches Some(p) ==> p@.len() == block_size
    &&& c.q_block matches Some(q) ==> q@.len() == block_size
}

/// The slots of the blocks are those of the disks, without `skip`.
pub open spec fn slots_between(
    devs: Seq<(u64, String)>,
    skip: u64,
    blocks: Seq<(u64, Vec<u8>)>,
) -> bool {
    forall|s: u64| #[trigger]
        has_block(blocks, s) <==> s != skip && config::has_slot(devs, s)
}

/// A block of the slot is there.
pub open spec fn has_block(blocks: Seq<(u64, Vec<u8>)>, s: u64) -> bool {
    exists|i: int| 0 <= i < blocks.len() && (#[trigger] blocks[i]).0 == s
}

/// Reads a parity disk, if there is one.
fn read_parity<
    E,
    S: Fn(&String) -> Result<u64, E>,
    R: Fn(&String, u64, usize) -> Result<Vec<u8>, E>,
>(
    config: &ArrayConfig,
    disk: &Option<String>,
    array_phys: u64,
    block_size: usize,
    size: &S,
    read: &R,
) -> (r: Result<Option<Vec<u8>>, E>)
    requires
        disk matches Some(p) ==> disk_answers(*size, *read, &p),
        disk matches Some(p) ==> array_phys + config.offset(p@) <= u64::MAX,
    ensures
        match r {
            Ok(out) => {
                &&& parity_read::<E, S, R>(
                    *config,
                    *disk,
                    array_phys,
                    block_size,
                    *size,
                    *read,
                    out,
                )
                &&& out matches Some(b) ==> b@.len() == block_size
            },
            Err(e) => parity_error(*config, *disk, array_phys, block_size, *size, *read, e),
        },
{
    match disk {
        None => Ok(None),
        Some(path) => match read_block_or_zeros(config, path, array_phys, block_size, size, read) {
            Ok(b) => Ok(Some(b)),
            Err(e) => Err(e),
        },
    }
}

/// Reads the `block_size`-byte chunk at `array_phys` (array-partition space) on
/// every data disk except `failing_slot`, plus the P and Q chunks. The failing
/// disk itself is not read.
pub fn gather_stripe<
    E,
    S: Fn(&String) -> Result<u64, E>,
    R: Fn(&String, u64, usize) -> Result<Vec<u8>, E>,
>(
    config: &ArrayConfig,
    failing_slot: u64,
    array_phys: u64,
    block_size: usize,
    size: &S,
    read: &R,
) -> (r: Result<StripeChunks, E>)
    requires
        stripe_answers(*config, failing_slot, *size, *read),
        offset_fits(*config, array_phys),
    ensures
        match r {
            Ok(c) => {
                &&& gathered::<E, S, R>(
                    *config,
                    failing_slot,
                    array_phys,
                    block_size,
                    *size,
                    *read,
                    c,
                )
                &&& chunks_of(*config, failing_slot, block_size, c)
            },
            Err(e) => gather_error(
                *config,
                failing_slot,
                array_phys,
                block_size,
                *size,
                *read,
                e,
            ),
        },
{
    let disks = config.disk_list();
    proof {
        config::law_disks_are_listed(*config);
    }
    let n: usize = disks.len();
    let mut other_data: Vec<(u64, Vec<u8>)> = Vec::new();
    let mut k: usize = 0;
    while k < n
        invariant
            disks@ == config.disks(),
            config::slots_ascend(disks@),
            k <= n,
            n == config.disks().len(),
            stripe_answers(*config, failing_slot, *size, *read),
            offset_fits(*config, array_phys),
            others_read::<E, S, R>(
                *config,
                failing_slot,
                array_phys,
                block_size,
                *size,
                *read,
                k as int,
                other_data@,
            ),
            readable_before::<E, S, R>(
                *config,
                failing_slot,
                k as int,
                array_phys,
                block_size,
                *size,
                *read,
            ),
            engine::all_len(other_data@, block_size as nat),
            slots_between(config.disks().take(k as int), failing_slot, other_data@),
            laws::slots_distinct(other_data@),
        decreases n - k,
    {
        let slot: u64 = disks[k].0;
        let ghost before = other_data@;
        if slot != failing_slot {
            let ghost path = config.disks()[k as int].1;
            assert(array_phys + config.offset(path@) <= u64::MAX);
            match read_block_or_zeros(
                config,
                &disks[k].1,
                array_phys,
                block_size,
                size,
                read,
            ) {
                Err(e) => {
                    return Err(e);
                },
                Ok(b) => {
                    assert(readable::<E, S, R>(
                        *config,
                        k as int,
                        array_phys,
                        block_size,
                        *size,
                        *read,
                    ));
                    other_data.push((slot, b));
                    assert(other_data@.drop_last() =~= before);
                },
            }
        }
        proof {
            lemma_slots_step(config.disks(), failing_slot, k as int, before, other_data@);
        }
        k = k + 1;
    }
    assert(config.disks().take(n as int) =~= config.disks());
    let p_block = match read_parity(config, &config.parity_p, array_phys, block_size, size, read) {
        Ok(b) => b,
        Err(e) => {
            return Err(e);
        },
    };
    let q_block = match read_parity(config, &config.parity_q, array_phys, block_size, size, read) {
        Ok(b) => b,
        Err(e) => {
            return Err(e);
        },
    };
    Ok(StripeChunks { other_data, p_block, q_block })
}

proof fn lemma_slots_step(
    devs: Seq<(u64, String)>,
    skip: u64,
    k: int,
    before: Seq<(u64, Vec<u8>)>,
    after: Seq<(u64, Vec<u8>)>,
)
    requires
        forall|i: int, j: int|
            0 <= i < j < devs.len() ==> (#[trigger] devs[i]).0 < (#[trigger] devs[j]).0,
        0 <= k < devs.len(),
        slots_between(devs.take(k), skip, before),
        laws::slots_distinct(before),
        devs[k].0 == skip ==> after == before,
        devs[k].0 != skip ==> after.len() > 0 && after.drop_last() == before && after.last().0
            == devs[k].0,
    ensures
        slots_between(devs.take(k + 1), skip, after),
        laws::slots_distinct(after),
{
    let old_devs = devs.take(k);
    let new_devs = devs.take(k + 1);
    assert forall|s: u64| #[trigger] config::has_slot(new_devs, s) <==> config::has_slot(old_devs, s) || s
        == devs[k].0 by {
        if config::has_slot(new_devs, s) {
            let i = choose|i: int| 0 <= i < new_devs.len() && (#[trigger] new_devs[i]).0 == s;
            if i < k {
                assert(old_devs[i].0 == s);
            }
        }
        if config::has_slot(old_devs, s) {
            let i = choose|i: int| 0 <= i < old_devs.len() && (#[trigger] old_devs[i]).0 == s;
            assert(new_devs[i].0 == s);
        }
        assert(new_devs[k].0 == devs[k].0);
    }
    if devs[k].0 != skip {
        assert forall|s: u64| #[trigger] has_block(after, s) <==> has_block(before, s) || s
            == devs[k].0 by {
            if has_block(after, s) {
                let i = choose|i: int| 0 <= i < after.len() && (#[trigger] after[i]).0 == s;
                if i < before.len() {
                    assert(before[i] == after[i]);
                }
            }
            if has_block(before, s) {
                let i = choose|i: int| 0 <= i < before.len() && (#[trigger] before[i]).0 == s;
                assert(after[i] == before[i]);
            }
            assert(after[after.len() - 1].0 == devs[k].0);
        }
        assert(!config::has_slot(old_devs, devs[k].0)) by {
            if config::has_slot(old_devs, devs[k].0) {
                let i = choose|i: int|
                    0 <= i < old_devs.len() && (#[trigger] old_devs[i]).0 == devs[k].0;
                assert(devs[i].0 < devs[k].0);
            }
        }
        assert(!has_block(before, devs[k].0));
        assert forall|i: int, j: int| 0 <= i < j < after.len() implies (#[trigger] after[i]).0 != (
        #[trigger] after[j]).0 by {
            assert(after[i] == before[i]);
            if j < before.len() {
                assert(after[j] == before[j]);
            } else {
                assert(before[i].0 != devs[k].0);
            }
        }
    } else {
        assert forall|s: u64| #[trigger] has_block(after, s) <==> s != skip && config::has_slot(
            new_devs,
            s,
        ) by {
            assert(has_block(before, s) <==> s != skip && config::has_slot(old_devs, s));
        }
    }
}

} // verus!
