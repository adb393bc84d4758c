//! P/Q syndrome computation over the array's data disks (used by the
//! corruption-crafting tool).

use vstd::prelude::*;

use crate::array::config;
use crate::array::config::ArrayConfig;
use crate::array::stripe;
use crate::recovery::engine;
use crate::recovery::gf;
use crate::recovery::laws;

verus! {

/// The block that data disk `k` contributes: what reading it gave, or the block
/// that stands in for its slot.
pub open spec fn disk_block<
    E,
    S: Fn(&String) -> Result<u64, E>,
    R: Fn(&String, u64, usize) -> Result<Vec<u8>, E>,
>(
    config: ArrayConfig,
    over: Option<(u64, Seq<u8>)>,
    array_phys: u64,
    block_size: usize,
    size: S,
    read: R,
    k: int,
    b: (u64, Vec<u8>),
) -> bool {
    &&& b.0 == config.disks()[k].0
    &&& if overridden(config, over, k) {
        b.1@ == over.unwrap().1
    } else {
        stripe::block_read(
            config,
            &config.disks()[k].1,
            array_phys,
            block_size,
            size,
            read,
            Ok::<Vec<u8>, E>(b.1),
        )
    }
}

/// Another block stands in for data disk `k`.
pub open spec fn overridden(config: ArrayConfig, over: Option<(u64, Seq<u8>)>, k: int) -> bool {
    over matches Some(o) && o.0 == config.disks()[k].0
}

/// `blocks` are the blocks of all data disks at `array_phys`, in slot order.
pub open spec fn stripe_data<
    E,
    S: Fn(&String) -> Result<u64, E>,
    R: Fn(&String, u64, usize) -> Result<Vec<u8>, E>,
>(
    config: ArrayConfig,
    over: Option<(u64, Seq<u8>)>,
    array_phys: u64,
    block_size: usize,
    size: S,
    read: R,
    blocks: Seq<(u64, Vec<u8>)>,
) -> bool {
    &&& blocks.len() == config.disks().len()
    &&& forall|k: int|
        0 <= k < blocks.len() ==> disk_block::<E, S, R>(
            config,
            over,
            array_phys,
            block_size,
            size,
            read,
            k,
            #[trigger] blocks[k],
        )
}

/// The first data disk in slot order that had to be read and could not be
/// failed with `e`.
pub open spec fn stripe_error<
    E,
    S: Fn(&String) -> Result<u64, E>,
    R: Fn(&String, u64, usize) -> Result<Vec<u8>, E>,
>(
    config: ArrayConfig,
    over: Option<(u64, Seq<u8>)>,
    array_phys: u64,
    block_size: usize,
    size: S,
    read: R,
    e: E,
) -> bool {
    exists|k: int|
        {
            &&& 0 <= k < config.disks().len()
            &&& !overridden(config, over, k)
            &&& stripe::block_read(
                config,
                &(#[trigger] config.disks()[k]).1,
                array_phys,
                block_size,
                size,
                read,
                Err::<Vec<u8>, E>(e),
            )
            &&& forall|j: int|
                0 <= j < k && !overridden(config, over, j) ==> #[trigger] stripe::readable::<
                    E,
                    S,
                    R,
                >(config, j, array_phys, block_size, size, read)
        }
}

/// Every data disk's Q coefficient exists.
pub open spec fn slots_have_columns(config: ArrayConfig) -> bool {
    forall|k: int|
        0 <= k < config.disks().len() ==> ((#[trigger] config.disks()[k]).0 as i32) > i32::MIN
}

/// Whether every data disk has a column in the Q syndrome.
pub fn has_columns(config: &ArrayConfig) -> (r: bool)
    ensures
        r == slots_have_columns(*config),
{
    let disks = config.disk_list();
    let n: usize = disks.len();
    let mut k: usize = 0;
    while k < n
        invariant
            disks@ == config.disks(),
            k <= n,
            n == config.disks().len(),
            forall|j: int|
                0 <= j < k ==> ((#[trigger] config.disks()[j]).0 as i32) > i32::MIN,
        decreases n - k,
    {
        if disks[k].0 as i32 == i32::MIN {
            assert(!((config.disks()[k as int].0 as i32) > i32::MIN));
            return false;
        }
        k = k + 1;
    }
    true
}

/// A block cut, or filled up with zeros, to `n` bytes.
pub open spec fn fitted(block: Seq<u8>, n: nat) -> Seq<u8> {
    Seq::new(n, |i: int| if i < block.len() { block[i] } else { 0u8 })
}

/// A stripe whose stand-in is the block that the disk holds is the stripe
/// itself: overriding a disk with its own block leaves both parities as they
/// are.
pub proof fn law_own_block_changes_nothing<
    E,
    S: Fn(&String) -> Result<u64, E>,
    R: Fn(&String, u64, usize) -> Result<Vec<u8>, E>,
>(
    config: ArrayConfig,
    array_phys: u64,
    block_size: usize,
    size: S,
    read: R,
    blocks: Seq<(u64, Vec<u8>)>,
    k: int,
)
    requires
        stripe_data::<E, S, R>(config, None, array_phys, block_size, size, read, blocks),
        0 <= k < blocks.len(),
    ensures
        stripe_data::<E, S, R>(
            config,
            Some((blocks[k].0, blocks[k].1@)),
            array_phys,
            block_size,
            size,
            read,
            blocks,
        ),
{
    let over = Some((blocks[k].0, blocks[k].1@));
    assert forall|j: int| 0 <= j < blocks.len() implies disk_block::<E, S, R>(
        config,
        over,
        array_phys,
        block_size,
        size,
        read,
        j,
        #[trigger] blocks[j],
    ) by {
        assert(disk_block::<E, S, R>(
            config,
            None,
            array_phys,
            block_size,
            size,
            read,
            j,
            blocks[j],
        ));
        assert(disk_block::<E, S, R>(
            config,
            None,
            array_phys,
            block_size,
            size,
            read,
            k,
            blocks[k],
        ));
        config::law_disks_are_listed(config);
        if j < k {
            assert(config.disks()[j].0 < config.disks()[k].0);
        } else if k < j {
            assert(config.disks()[k].0 < config.disks()[j].0);
        }
    }
}

/// The disks stand still: however often a block is read, it holds the same.
pub open spec fn disks_stand_still<
    E,
    S: Fn(&String) -> Result<u64, E>,
    R: Fn(&String, u64, usize) -> Result<Vec<u8>, E>,
>(config: ArrayConfig, array_phys: u64, block_size: usize, size: S, read: R) -> bool {
    forall|k: int, a: Vec<u8>, b: Vec<u8>|
        #![trigger disk_holds::<E, S, R>(config, array_phys, block_size, size, read, k, a), disk_holds::<E, S, R>(config, array_phys, block_size, size, read, k, b)]
        disk_holds::<E, S, R>(config, array_phys, block_size, size, read, k, a) && disk_holds::<
            E,
            S,
            R,
        >(config, array_phys, block_size, size, read, k, b) ==> a@ == b@
}

/// Reading data disk `k` may give this block.
pub open spec fn disk_holds<
    E,
    S: Fn(&String) -> Result<u64, E>,
    R: Fn(&String, u64, usize) -> Result<Vec<u8>, E>,
>(
    config: ArrayConfig,
    array_phys: u64,
    block_size: usize,
    size: S,
    read: R,
    k: int,
    b: Vec<u8>,
) -> bool {
    0 <= k < config.disks().len() && stripe::block_read(
        config,
        &config.disks()[k].1,
        array_phys,
        block_size,
        size,
        read,
        Ok::<Vec<u8>, E>(b),
    )
}

/// Both stripes show the same disks, and the same bytes everywhere but on disk
/// `at`.
spec fn same_but(a: Seq<(u64, Vec<u8>)>, b: Seq<(u64, Vec<u8>)>, at: int) -> bool {
    &&& a.len() == b.len()
    &&& forall|k: int|
        0 <= k < a.len() ==> (#[trigger] a[k]).0 == b[k].0 && (k != at ==> a[k].1@ == b[k].1@)
}

/// Sums over stripes that differ on one disk differ by that disk's part.
proof fn lemma_sums_differ(
    a: Seq<(u64, Vec<u8>)>,
    b: Seq<(u64, Vec<u8>)>,
    at: int,
    i: int,
)
    requires
        same_but(a, b, at),
    ensures
        engine::xor_all(b, i) ^ engine::xor_all(a, i) == (if 0 <= at < a.len() {
            b[at].1@[i] ^ a[at].1@[i]
        } else {
            0
        }),
        engine::q_sum(b, i) ^ engine::q_sum(a, i) == (if 0 <= at < a.len() {
            gf::gmul(gf::gexp(engine::column(a[at].0)), b[at].1@[i] ^ a[at].1@[i])
        } else {
            0
        }),
    decreases a.len(),
{
    if a.len() == 0 {
        gf::lemma_xor(0, 0, 0);
    } else {
        let n = a.len() - 1;
        let x = a.drop_last();
        let y = b.drop_last();
        assert(a[n].0 == b[n].0);
        assert forall|k: int| 0 <= k < x.len() implies (#[trigger] x[k]).0 == y[k].0 && (k != at
            ==> x[k].1@ == y[k].1@) by {
            assert(a[k].0 == b[k].0);
        }
        lemma_sums_differ(x, y, at, i);
        let c = gf::gexp(engine::column(a[n].0));
        let u = a[n].1@[i];
        let v = b[n].1@[i];
        gf::lemma_xor_swap(engine::xor_all(y, i), v, engine::xor_all(x, i), u);
        gf::lemma_xor_swap(engine::q_sum(y, i), gf::gmul(c, v), engine::q_sum(x, i), gf::gmul(c, u));
        gf::lemma_gmul_distributes_right(c, v, u);
        gf::lemma_xor(v, v, 0);
        gf::lemma_xor(gf::gmul(c, v), gf::gmul(c, v), 0);
        gf::lemma_xor(v ^ u, 0, 0);
        gf::lemma_xor(gf::gmul(c, v ^ u), 0, 0);
        if 0 <= at < n {
            gf::lemma_xor(y[at].1@[i] ^ x[at].1@[i], 0, 0);
            gf::lemma_xor(
                gf::gmul(gf::gexp(engine::column(x[at].0)), y[at].1@[i] ^ x[at].1@[i]),
                0,
                0,
            );
        }
        gf::lemma_xor(0, 0, 0);
    }
}

/// Over disks that stand still, the parity with a block standing in for a slot
/// differs from the plain parity by that slot's part in it: byte for byte, P by
/// the difference of the two blocks, Q by `g^(slot-1)` times it. A block that
/// stands in for a slot without a data disk changes nothing.
pub proof fn law_override_changes_one_part<
    E,
    S: Fn(&String) -> Result<u64, E>,
    R: Fn(&String, u64, usize) -> Result<Vec<u8>, E>,
>(
    config: ArrayConfig,
    slot: u64,
    stand_in: Seq<u8>,
    array_phys: u64,
    block_size: usize,
    size: S,
    read: R,
    plain: Seq<(u64, Vec<u8>)>,
    p: Seq<u8>,
    q: Seq<u8>,
    over: Seq<(u64, Vec<u8>)>,
    over_p: Seq<u8>,
    over_q: Seq<u8>,
)
    requires
        disks_stand_still::<E, S, R>(config, array_phys, block_size, size, read),
        stripe_data::<E, S, R>(config, None, array_phys, block_size, size, read, plain),
        stripe_data::<E, S, R>(
            config,
            Some((slot, stand_in)),
            array_phys,
            block_size,
            size,
            read,
            over,
        ),
        laws::is_p_of(p, plain),
        laws::is_q_of(q, plain),
        laws::is_p_of(over_p, over),
        laws::is_q_of(over_q, over),
        p.len() == block_size,
        q.len() == block_size,
        over_p.len() == block_size,
        over_q.len() == block_size,
    ensures
        forall|k: int, i: int|
            #![trigger plain[k], over_p[i]]
            0 <= k < plain.len() && plain[k].0 == slot && 0 <= i < block_size ==> over_p[i] ^ p[i]
                == stand_in[i] ^ plain[k].1@[i],
        forall|k: int, i: int|
            #![trigger plain[k], over_q[i]]
            0 <= k < plain.len() && plain[k].0 == slot && 0 <= i < block_size ==> over_q[i] ^ q[i]
                == gf::gmul(gf::gexp(engine::column(slot)), stand_in[i] ^ plain[k].1@[i]),
        config.dev(slot) is None ==> over_p == p && over_q == q,
{
    config::law_disks_are_listed(config);
    config::law_listed_disk_is_in_its_slot(config, slot);
    assert forall|k: int| 0 <= k < plain.len() implies (#[trigger] plain[k]).0 == over[k].0
        && plain[k].0 == config.disks()[k].0 && (plain[k].0 != slot ==> plain[k].1@ == over[k].1@)
        && (plain[k].0 == slot ==> over[k].1@ == stand_in) by {
        assert(disk_block::<E, S, R>(
            config,
            None,
            array_phys,
            block_size,
            size,
            read,
            k,
            plain[k],
        ));
        assert(disk_block::<E, S, R>(
            config,
            Some((slot, stand_in)),
            array_phys,
            block_size,
            size,
            read,
            k,
            over[k],
        ));
        if plain[k].0 != slot {
            assert(disk_holds::<E, S, R>(
                config,
                array_phys,
                block_size,
                size,
                read,
                k,
                plain[k].1,
            ));
            assert(disk_holds::<E, S, R>(
                config,
                array_phys,
                block_size,
                size,
                read,
                k,
                over[k].1,
            ));
        }
    }
    assert forall|k: int, i: int|
        #![trigger plain[k], over_p[i]]
        0 <= k < plain.len() && plain[k].0 == slot && 0 <= i < block_size implies over_p[i] ^ p[i]
        == stand_in[i] ^ plain[k].1@[i] by {
        lemma_one_slot(config, plain, over, slot, k);
        lemma_sums_differ(plain, over, k, i);
    }
    assert forall|k: int, i: int|
        #![trigger plain[k], over_q[i]]
        0 <= k < plain.len() && plain[k].0 == slot && 0 <= i < block_size implies over_q[i] ^ q[i]
        == gf::gmul(gf::gexp(engine::column(slot)), stand_in[i] ^ plain[k].1@[i]) by {
        lemma_one_slot(config, plain, over, slot, k);
        lemma_sums_differ(plain, over, k, i);
        assert(q[i] == engine::q_sum(plain, i));
    }
    if config.dev(slot) is None {
        assert forall|k: int| 0 <= k < plain.len() implies (#[trigger] plain[k]).0 != slot by {
            if plain[k].0 == slot {
                assert(config.disks()[k].0 == slot);
            }
        }
        assert(same_but(plain, over, -1));
        assert forall|i: int| 0 <= i < block_size implies over_p[i] == p[i] && over_q[i]
            == q[i] by {
            lemma_sums_differ(plain, over, -1, i);
            gf::lemma_xor(over_p[i], p[i], p[i]);
            gf::lemma_xor(over_q[i], q[i], q[i]);
            gf::lemma_xor(p[i], 0, 0);
            gf::lemma_xor(q[i], 0, 0);
        }
        assert(over_p =~= p);
        assert(over_q =~= q);
    }
}

/// Only one disk of a stripe is in a slot.
proof fn lemma_one_slot(
    config: ArrayConfig,
    plain: Seq<(u64, Vec<u8>)>,
    over: Seq<(u64, Vec<u8>)>,
    slot: u64,
    at: int,
)
    requires
        plain.len() == config.disks().len(),
        over.len() == plain.len(),
        forall|k: int|
            0 <= k < plain.len() ==> (#[trigger] plain[k]).0 == over[k].0 && plain[k].0
                == config.disks()[k].0 && (plain[k].0 != slot ==> plain[k].1@ == over[k].1@),
        0 <= at < plain.len(),
        plain[at].0 == slot,
    ensures
        same_but(plain, over, at),
{
    config::law_disks_are_listed(config);
    assert forall|k: int| 0 <= k < plain.len() && k != at implies (#[trigger] plain[k]).0
        != slot by {
        assert(plain[at].0 == config.disks()[at].0);
        if k < at {
            assert(config.disks()[k].0 < config.disks()[at].0);
        } else {
            assert(config.disks()[at].0 < config.disks()[k].0);
        }
    }
}

/// The stand-in, as a value of the model.
pub open spec fn over_view(over: Option<(u64, &[u8])>) -> Option<(u64, Seq<u8>)> {
    match over {
        Some(o) => Some((o.0, o.1@)),
        None => None,
    }
}

/// The slot that a block stands in for.
pub open spec fn over_slot(over: Option<(u64, &[u8])>) -> Option<u64> {
    match over {
        Some(o) => Some(o.0),
        None => None,
    }
}

/// Reads the blocks of all data disks but the one that a block stands in for.
fn read_stripe<
    E,
    S: Fn(&String) -> Result<u64, E>,
    R: Fn(&String, u64, usize) -> Result<Vec<u8>, E>,
>(
    config: &ArrayConfig,
    over: Option<(u64, &[u8])>,
    array_phys: u64,
    block_size: usize,
    size: &S,
    read: &R,
) -> (r: Result<Vec<(u64, Vec<u8>)>, E>)
    requires
        stripe::others_answer(*config, over_slot(over), *size, *read),
        stripe::offset_fits(*config, array_phys),
        over matches Some(o) ==> config.dev(o.0) is Some ==> o.1@.len() == block_size,
    ensures
        match r {
            Ok(blocks) => {
                &&& stripe_data::<E, S, R>(
                    *config,
                    over_view(over),
                    array_phys,
                    block_size,
                    *size,
                    *read,
                    blocks@,
                )
                &&& engine::all_len(blocks@, block_size as nat)
            },
            Err(e) => stripe_error::<E, S, R>(
                *config,
                over_view(over),
                array_phys,
                block_size,
                *size,
                *read,
                e,
            ),
        },
{
    let disks = config.disk_list();
    let n: usize = disks.len();
    let mut blocks: Vec<(u64, Vec<u8>)> = Vec::new();
    let ghost ov = over_view(over);
    let mut k: usize = 0;
    while k < n
        invariant
            disks@ == config.disks(),
            k <= n,
            n == config.disks().len(),
            ov == over_view(over),
            stripe::others_answer(*config, over_slot(over), *size, *read),
            stripe::offset_fits(*config, array_phys),
            over matches Some(o) ==> config.dev(o.0) is Some ==> o.1@.len() == block_size,
            blocks@.len() == k,
            forall|j: int|
                0 <= j < k ==> disk_block::<E, S, R>(
                    *config,
                    ov,
                    array_phys,
                    block_size,
                    *size,
                    *read,
                    j,
                    #[trigger] blocks@[j],
                ),
            forall|j: int|
                0 <= j < k && !overridden(*config, ov, j) ==> #[trigger] stripe::readable::<
                    E,
                    S,
                    R,
                >(*config, j, array_phys, block_size, *size, *read),
            engine::all_len(blocks@, block_size as nat),
        decreases n - k,
    {
        let slot: u64 = disks[k].0;
        let stand_in: Option<Vec<u8>> = match over {
            Some(o) => if o.0 == slot {
                Some(vstd::slice::slice_to_vec(o.1))
            } else {
                None
            },
            None => None,
        };
        match stand_in {
            Some(b) => {
                assert(overridden(*config, ov, k as int));
                proof {
                    config::law_listed_disk_is_in_its_slot(*config, slot);
                }
                blocks.push((slot, b));
            },
            None => {
                let ghost path = config.disks()[k as int].1;
                assert(array_phys + config.offset(path@) <= u64::MAX);
                assert(!overridden(*config, ov, k as int));
                match stripe::read_block_or_zeros(
                    config,
                    &disks[k].1,
                    array_phys,
                    block_size,
                    size,
                    read,
                ) {
                    Err(e) => {
                        return Err(e);
                    },
                    Ok(b) => {
                        assert(stripe::readable::<E, S, R>(
                            *config,
                            k as int,
                            array_phys,
                            block_size,
                            *size,
                            *read,
                        ));
                        blocks.push((slot, b));
                    },
                }
            },
        }
        k = k + 1;
    }
    Ok(blocks)
}

/// The XOR of the blocks.
fn p_of(blocks: &Vec<(u64, Vec<u8>)>, block_size: usize) -> (r: Vec<u8>)
    requires
        engine::all_len(blocks@, block_size as nat),
    ensures
        r@.len() == block_size,
        laws::is_p_of(r@, blocks@),
{
    let mut p: Vec<u8> = vec![0u8; block_size];
    let n: usize = blocks.len();
    let mut k: usize = 0;
    while k < n
        invariant
            k <= n,
            n == blocks@.len(),
            engine::all_len(blocks@, block_size as nat),
            p@.len() == block_size,
            laws::is_p_of(p@, blocks@.take(k as int)),
        decreases n - k,
    {
        let ghost before = p@;
        engine::xor_inplace(&mut p, blocks[k].1.as_slice());
        proof {
            let next = blocks@.take(k + 1);
            assert(next.drop_last() =~= blocks@.take(k as int));
            assert forall|i: int| 0 <= i < p@.len() implies #[trigger] p@[i] == engine::xor_all(
                next,
                i,
            ) by {
                assert(before[i] == engine::xor_all(blocks@.take(k as int), i));
            }
        }
        k = k + 1;
    }
    assert(blocks@.take(n as int) =~= blocks@);
    p
}

/// The Q syndrome of the blocks.
fn q_of(blocks: &Vec<(u64, Vec<u8>)>, block_size: usize) -> (r: Vec<u8>)
    requires
        engine::all_len(blocks@, block_size as nat),
        engine::slots_fit(blocks@),
    ensures
        r@.len() == block_size,
        laws::is_q_of(r@, blocks@),
{
    let mut q: Vec<u8> = vec![0u8; block_size];
    let n: usize = blocks.len();
    let mut k: usize = 0;
    while k < n
        invariant
            k <= n,
            n == blocks@.len(),
            engine::all_len(blocks@, block_size as nat),
            engine::slots_fit(blocks@),
            q@.len() == block_size,
            laws::is_q_of(q@, blocks@.take(k as int)),
        decreases n - k,
    {
        let ghost before = q@;
        let slot: u64 = blocks[k].0;
        let coef: u8 = gf::gf_exp((slot as i32) - 1);
        engine::gf_mul_xor_inplace(&mut q, blocks[k].1.as_slice(), coef);
        proof {
            let next = blocks@.take(k + 1);
            assert(next.drop_last() =~= blocks@.take(k as int));
            assert forall|i: int| 0 <= i < q@.len() implies #[trigger] q@[i] == engine::q_sum(
                next,
                i,
            ) by {
                assert(before[i] == engine::q_sum(blocks@.take(k as int), i));
            }
        }
        k = k + 1;
    }
    assert(blocks@.take(n as int) =~= blocks@);
    q
}

/// P = XOR of every data disk's block at `array_phys`.
pub fn compute_p<
    E,
    S: Fn(&String) -> Result<u64, E>,
    R: Fn(&String, u64, usize) -> Result<Vec<u8>, E>,
>(config: &ArrayConfig, array_phys: u64, block_size: usize, size: &S, read: &R) -> (r: Result<
    Vec<u8>,
    E,
>)
    requires
        stripe::others_answer(*config, None, *size, *read),
        stripe::offset_fits(*config, array_phys),
    ensures
        match r {
            Ok(p) => p@.len() == block_size && exists|blocks: Seq<(u64, Vec<u8>)>| #[trigger]
                stripe_data::<E, S, R>(
                    *config,
                    None,
                    array_phys,
                    block_size,
                    *size,
                    *read,
                    blocks,
                ) && laws::is_p_of(p@, blocks),
            Err(e) => stripe_error::<E, S, R>(
                *config,
                None,
                array_phys,
                block_size,
                *size,
                *read,
                e,
            ),
        },
{
    match read_stripe(config, None, array_phys, block_size, size, read) {
        Ok(blocks) => Ok(p_of(&blocks, block_size)),
        Err(e) => Err(e),
    }
}

/// P with one slot's block replaced by `override_block` (simulating a corrupted
/// disk). That slot's own disk is not read. A block for a slot without a disk
/// takes no part.
pub fn compute_p_with_override<
    E,
    S: Fn(&String) -> Result<u64, E>,
    R: Fn(&String, u64, usize) -> Result<Vec<u8>, E>,
>(
    config: &ArrayConfig,
    override_slot: u64,
    override_block: &[u8],
    array_phys: u64,
    block_size: usize,
    size: &S,
    read: &R,
) -> (r: Result<Vec<u8>, E>)
    requires
        stripe::others_answer(*config, Some(override_slot), *size, *read),
        stripe::offset_fits(*config, array_phys),
        config.dev(override_slot) is Some ==> override_block@.len() == block_size,
    ensures
        match r {
            Ok(p) => p@.len() == block_size && exists|blocks: Seq<(u64, Vec<u8>)>| #[trigger]
                stripe_data::<E, S, R>(
                    *config,
                    Some((override_slot, override_block@)),
                    array_phys,
                    block_size,
                    *size,
                    *read,
                    blocks,
                ) && laws::is_p_of(p@, blocks),
            Err(e) => stripe_error::<E, S, R>(
                *config,
                Some((override_slot, override_block@)),
                array_phys,
                block_size,
                *size,
                *read,
                e,
            ),
        },
{
    match read_stripe(
        config,
        Some((override_slot, override_block)),
        array_phys,
        block_size,
        size,
        read,
    ) {
        Ok(blocks) => Ok(p_of(&blocks, block_size)),
        Err(e) => Err(e),
    }
}

/// Q = XOR over slots of `g^(slot-1) * D_slot` at `array_phys` (GF(2^8)).
pub fn compute_q<
    E,
    S: Fn(&String) -> Result<u64, E>,
    R: Fn(&String, u64, usize) -> Result<Vec<u8>, E>,
>(config: &ArrayConfig, array_phys: u64, block_size: usize, size: &S, read: &R) -> (r: Result<
    Vec<u8>,
    E,
>)
    requires
        stripe::others_answer(*config, None, *size, *read),
        stripe::offset_fits(*config, array_phys),
        slots_have_columns(*config),
    ensures
        match r {
            Ok(q) => q@.len() == block_size && exists|blocks: Seq<(u64, Vec<u8>)>| #[trigger]
                stripe_data::<E, S, R>(
                    *config,
                    None,
                    array_phys,
                    block_size,
                    *size,
                    *read,
                    blocks,
                ) && laws::is_q_of(q@, blocks),
            Err(e) => stripe_error::<E, S, R>(
                *config,
                None,
                array_phys,
                block_size,
                *size,
                *read,
                e,
            ),
        },
{
    match read_stripe(config, None, array_phys, block_size, size, read) {
        Ok(blocks) => {
            proof {
                lemma_columns::<E, S, R>(
                    *config,
                    None,
                    array_phys,
                    block_size,
                    *size,
                    *read,
                    blocks@,
                );
            }
            Ok(q_of(&blocks, block_size))
        },
        Err(e) => Err(e),
    }
}

/// Q with one slot's block replaced by `override_block`, which is cut or filled
/// up with zeros to the block size. That slot's own disk is not read.
pub fn compute_q_with_override<
    E,
    S: Fn(&String) -> Result<u64, E>,
    R: Fn(&String, u64, usize) -> Result<Vec<u8>, E>,
>(
    config: &ArrayConfig,
    override_slot: u64,
    override_block: &[u8],
    array_phys: u64,
    block_size: usize,
    size: &S,
    read: &R,
) -> (r: Result<Vec<u8>, E>)
    requires
        stripe::others_answer(*config, Some(override_slot), *size, *read),
        stripe::offset_fits(*config, array_phys),
        slots_have_columns(*config),
    ensures
        match r {
            Ok(q) => q@.len() == block_size && exists|blocks: Seq<(u64, Vec<u8>)>| #[trigger]
                stripe_data::<E, S, R>(
                    *config,
                    Some((override_slot, fitted(override_block@, block_size as nat))),
                    array_phys,
                    block_size,
                    *size,
                    *read,
                    blocks,
                ) && laws::is_q_of(q@, blocks),
            Err(e) => stripe_error::<E, S, R>(
                *config,
                Some((override_slot, fitted(override_block@, block_size as nat))),
                array_phys,
                block_size,
                *size,
                *read,
                e,
            ),
        },
{
    let mut stand_in: Vec<u8> = Vec::new();
    while stand_in.len() < block_size
        invariant
            stand_in@.len() <= block_size,
            stand_in@ == fitted(override_block@, stand_in@.len()),
        decreases block_size - stand_in@.len(),
    {
        let at: usize = stand_in.len();
        let byte: u8 = if at < override_block.len() {
            override_block[at]
        } else {
            0
        };
        stand_in.push(byte);
        assert(stand_in@ =~= fitted(override_block@, stand_in@.len()));
    }
    match read_stripe(
        config,
        Some((override_slot, stand_in.as_slice())),
        array_phys,
        block_size,
        size,
        read,
    ) {
        Ok(blocks) => {
            proof {
                lemma_columns::<E, S, R>(
                    *config,
                    Some((override_slot, stand_in@)),
                    array_phys,
                    block_size,
                    *size,
                    *read,
                    blocks@,
                );
            }
            Ok(q_of(&blocks, block_size))
        },
        Err(e) => Err(e),
    }
}

proof fn lemma_columns<
    E,
    S: Fn(&String) -> Result<u64, E>,
    R: Fn(&String, u64, usize) -> Result<Vec<u8>, E>,
>(
    config: ArrayConfig,
    over: Option<(u64, Seq<u8>)>,
    array_phys: u64,
    block_size: usize,
    size: S,
    read: R,
    blocks: Seq<(u64, Vec<u8>)>,
)
    requires
        slots_have_columns(config),
        stripe_data::<E, S, R>(config, over, array_phys, block_size, size, read, blocks),
    ensures
        engine::slots_fit(blocks),
{
    assert forall|k: int| 0 <= k < blocks.len() implies ((#[trigger] blocks[k]).0 as i32)
        > i32::MIN by {
        assert(disk_block::<E, S, R>(
            config,
            over,
            array_phys,
            block_size,
            size,
            read,
            k,
            blocks[k],
        ));
        assert((config.disks()[k].0 as i32) > i32::MIN);
    }
}

} // verus!
