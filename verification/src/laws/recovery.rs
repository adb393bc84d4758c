//! Recovery, from the bytes on the disks to what becomes of a sector.

use vstd::prelude::*;

use crate::array::config;
use crate::array::config::ArrayConfig;
use crate::array::parity;
use crate::array::recover;
use crate::array::resolve::ResolvedLocation;
use crate::array::stripe;
use crate::array::stripe::StripeChunks;
use crate::batch_recover;
use crate::batch_recover::{CacheDrop, Candidate, Env, Outcome, Report};
use crate::canary;
use crate::canary::CanaryError;
use crate::fs::{Reconfirm, ReconfirmRequest};
use crate::laws::array;
use crate::recovery::engine;
use crate::recovery::gf;
use crate::recovery::laws;
use crate::recovery::model::{ParityPath, RecoveryInput, RecoveryResult};

verus! {

// ---------------------------------------------------------------------------
// The field
// ---------------------------------------------------------------------------

/// The product is that of the field of 256 elements that x^8 + x^4 + x^3 + x^2 +
/// 1 makes: 1 changes nothing, 2 shifts and reduces, and it distributes over XOR,
/// does not depend on order, and can be regrouped.
pub proof fn law_product_is_the_fields(a: u8, b: u8, c: u8)
    ensures
        gf::gmul(1, a) == a,
        gf::gmul(2, a) == (if a < 128 { (2 * a) as u8 } else { ((2 * a - 256) as u8) ^ 0x1d }),
        gf::gmul(a, b) == gf::gmul(b, a),
        gf::gmul(a, b ^ c) == gf::gmul(a, b) ^ gf::gmul(a, c),
        gf::gmul(gf::gmul(a, b), c) == gf::gmul(a, gf::gmul(b, c)),
        gf::gmul(a, 0) == 0,
{
    gf::lemma_gmul_one(a);
    gf::lemma_gmul_zero(a);
    gf::lemma_gmul_commutes(a, b);
    gf::lemma_gmul_commutes(a, 2);
    gf::lemma_gmul_commutes(a, 1);
    gf::lemma_gmul_distributes_right(a, b, c);
    gf::lemma_gmul_associates(a, b, c);
    assert(2u8 & 1 == 0u8 && 2u8 >> 1 == 1u8 && 1u8 & 1 == 1u8 && 1u8 >> 1 == 0u8)
        by (bit_vector);
    let x = gf::xtime(a);
    gf::lemma_xor(x, 0, 0);
    reveal_with_fuel(gf::gmul, 3);
    assert(gf::gmul(a, 2) == x) by {
        gf::lemma_gmul_one(x);
        gf::lemma_gmul_commutes(x, 1);
    }
    assert((a << 1) ^ (if a & 0x80 != 0 { 0x1du8 } else { 0u8 }) == (if a < 128 {
        (2 * a) as u8
    } else {
        ((2 * a - 256) as u8) ^ 0x1d
    })) by (bit_vector);
}

/// The coefficient of exponent 0 is 1, each is twice the one before it, and they
/// repeat after 255.
pub proof fn law_coefficients_are_powers_of_two(e: int)
    ensures
        gf::gexp(0) == 1,
        gf::gexp(e + 1) == gf::gmul(2, gf::gexp(e)),
        gf::gexp(e + 255) == gf::gexp(e),
{
    gf::lemma_gexp_adds(1, e);
    assert(gf::gexp(1) == 2) by {
        reveal_with_fuel(gf::gpow, 2);
        gf::lemma_gmul_one(2);
        gf::lemma_gmul_commutes(2, 1);
    }
    assert((e + 255) % 255 == e % 255);
}

/// Every byte but 0 times its inverse is 1.
pub proof fn law_inverse_inverts(x: u8)
    ensures
        x != 0 ==> gf::gmul(x, gf::ginv(x)) == 1,
        gf::ginv(0) == 0,
{
    if x != 0 {
        gf::lemma_ginv(x);
        gf::lemma_gmul_commutes(x, gf::ginv(x));
    }
}

/// The tables hold the coefficients, and the inverses that the two-disk solve
/// divides by.
pub proof fn law_tables_hold_the_coefficients(e: int)
    ensures
        0 <= e < 255 ==> gf::gfexp_entry(e) == gf::gexp(e),
        gf::gfexp_entry(255) == 0,
        0 < e < 255 ==> gf::gmul(gf::gfexi_entry(e), gf::gexp(e) ^ 1) == 1,
{
    if 0 <= e < 255 {
        assert(e % 255 == e);
    }
    if 0 < e < 255 {
        gf::lemma_gexp_distinct(0, e);
        assert(0int % 255 == 0 && e % 255 == e);
        let d = gf::gexp(e);
        assert(gf::gexp(0) == 1);
        assert(d != 1u8 ==> d ^ 1 != 0) by (bit_vector);
        gf::lemma_ginv(d ^ 1);
        gf::lemma_gmul_commutes(gf::ginv(d ^ 1), d ^ 1);
    }
}

// ---------------------------------------------------------------------------
// A stripe on the disks
// ---------------------------------------------------------------------------

/// What one disk of a stripe holds: where its block lies inside it, reading the
/// block gives these bytes, whenever it is read.
pub open spec fn disk_holds<
    E,
    S: Fn(&String) -> Result<u64, E>,
    R: Fn(&String, u64, usize) -> Result<Vec<u8>, E>,
>(
    cfg: ArrayConfig,
    path: &String,
    array_phys: u64,
    n: usize,
    size: S,
    read: R,
    bytes: Seq<u8>,
) -> bool {
    &&& exists|capacity: u64| #[trigger]
        array::holds_bytes(size, path, capacity) && array_phys + cfg.offset(path@) + n <= capacity
    &&& bytes.len() == n
    &&& forall|got: Result<Vec<u8>, E>| #[trigger]
        call_ensures(read, (path, (array_phys + cfg.offset(path@)) as u64, n), got) ==> (got
            matches Ok(b) && b@ == bytes)
}

pub proof fn lemma_disk_holds<
    E,
    S: Fn(&String) -> Result<u64, E>,
    R: Fn(&String, u64, usize) -> Result<Vec<u8>, E>,
>(
    cfg: ArrayConfig,
    path: &String,
    array_phys: u64,
    n: usize,
    size: S,
    read: R,
    bytes: Seq<u8>,
    out: Result<Vec<u8>, E>,
)
    requires
        n > 0,
        disk_holds(cfg, path, array_phys, n, size, read, bytes),
        stripe::block_read(cfg, path, array_phys, n, size, read, out),
    ensures
        out matches Ok(b) && b@ == bytes,
{
    let capacity = choose|capacity: u64| #[trigger]
        array::holds_bytes(size, path, capacity) && array_phys + cfg.offset(path@) + n <= capacity;
    array::law_block_inside_the_device_is_what_was_read(
        cfg,
        path,
        array_phys,
        n,
        size,
        read,
        capacity,
        out,
    );
}

/// The XOR of byte `i` of the first `k` blocks, without block `skip`.
pub open spec fn xor_row(blocks: Seq<Seq<u8>>, skip: int, k: int, i: int) -> u8
    decreases k,
{
    if k <= 0 {
        0
    } else if k - 1 == skip {
        xor_row(blocks, skip, k - 1, i)
    } else {
        blocks[k - 1][i] ^ xor_row(blocks, skip, k - 1, i)
    }
}

/// The XOR of byte `i` of the first `k` blocks, each times 2 to the power of its
/// slot's column, without block `skip`.
pub open spec fn syndrome_row(
    slots: Seq<u64>,
    blocks: Seq<Seq<u8>>,
    skip: int,
    k: int,
    i: int,
) -> u8
    decreases k,
{
    if k <= 0 {
        0
    } else if k - 1 == skip {
        syndrome_row(slots, blocks, skip, k - 1, i)
    } else {
        gf::gmul(gf::gexp(slots[k - 1] - 1), blocks[k - 1][i]) ^ syndrome_row(
            slots,
            blocks,
            skip,
            k - 1,
            i,
        )
    }
}

pub proof fn lemma_rows(slots: Seq<u64>, blocks: Seq<Seq<u8>>, f: int, k: int, i: int)
    requires
        0 <= f < k,
    ensures
        xor_row(blocks, -1, k, i) == xor_row(blocks, f, k, i) ^ blocks[f][i],
        syndrome_row(slots, blocks, -1, k, i) == syndrome_row(slots, blocks, f, k, i) ^ gf::gmul(
            gf::gexp(slots[f] - 1),
            blocks[f][i],
        ),
    decreases k,
{
    if k - 1 == f {
        lemma_rows_same(slots, blocks, f, k - 1, i);
        gf::lemma_xor(blocks[f][i], xor_row(blocks, f, k - 1, i), 0);
        let t = gf::gmul(gf::gexp(slots[f] - 1), blocks[f][i]);
        gf::lemma_xor(t, syndrome_row(slots, blocks, f, k - 1, i), 0);
    } else {
        lemma_rows(slots, blocks, f, k - 1, i);
        gf::lemma_xor(blocks[k - 1][i], xor_row(blocks, f, k - 1, i), blocks[f][i]);
        gf::lemma_xor(
            gf::gmul(gf::gexp(slots[k - 1] - 1), blocks[k - 1][i]),
            syndrome_row(slots, blocks, f, k - 1, i),
            gf::gmul(gf::gexp(slots[f] - 1), blocks[f][i]),
        );
    }
}

proof fn lemma_rows_same(slots: Seq<u64>, blocks: Seq<Seq<u8>>, f: int, k: int, i: int)
    requires
        k <= f,
    ensures
        xor_row(blocks, -1, k, i) == xor_row(blocks, f, k, i),
        syndrome_row(slots, blocks, -1, k, i) == syndrome_row(slots, blocks, f, k, i),
    decreases k,
{
    if k > 0 {
        lemma_rows_same(slots, blocks, f, k - 1, i);
    }
}

/// The slots of an array's data disks.
pub open spec fn slots_of(cfg: ArrayConfig) -> Seq<u64> {
    Seq::new(cfg.disks().len(), |k: int| cfg.disks()[k].0)
}

/// The disks of the array hold these blocks at the offset; of disk `f` nothing
/// is said.
pub open spec fn disks_hold<
    E,
    S: Fn(&String) -> Result<u64, E>,
    R: Fn(&String, u64, usize) -> Result<Vec<u8>, E>,
>(
    cfg: ArrayConfig,
    f: int,
    array_phys: u64,
    n: usize,
    size: S,
    read: R,
    blocks: Seq<Seq<u8>>,
    p: Seq<u8>,
    q: Seq<u8>,
) -> bool {
    &&& blocks.len() == cfg.disks().len()
    &&& forall|k: int|
        0 <= k < cfg.disks().len() && k != f ==> disk_holds(
            cfg,
            &(#[trigger] cfg.disks()[k]).1,
            array_phys,
            n,
            size,
            read,
            blocks[k],
        )
    &&& cfg.parity_p matches Some(path) ==> disk_holds(cfg, &path, array_phys, n, size, read, p)
    &&& cfg.parity_q matches Some(path) ==> disk_holds(cfg, &path, array_phys, n, size, read, q)
}

proof fn lemma_others_read<
    E,
    S: Fn(&String) -> Result<u64, E>,
    R: Fn(&String, u64, usize) -> Result<Vec<u8>, E>,
>(
    cfg: ArrayConfig,
    f: int,
    array_phys: u64,
    n: usize,
    size: S,
    read: R,
    blocks: Seq<Seq<u8>>,
    p: Seq<u8>,
    q: Seq<u8>,
    k: int,
    out: Seq<(u64, Vec<u8>)>,
    i: int,
)
    requires
        n > 0,
        disks_hold(cfg, f, array_phys, n, size, read, blocks, p, q),
        0 <= f < cfg.disks().len(),
        0 <= k <= cfg.disks().len(),
        forall|j: int|
            0 <= j < cfg.disks().len() ==> (#[trigger] cfg.disks()[j]).0 <= 0x7fff_ffff,
        stripe::others_read::<E, S, R>(
            cfg,
            cfg.disks()[f].0,
            array_phys,
            n,
            size,
            read,
            k,
            out,
        ),
    ensures
        engine::xor_all(out, i) == xor_row(blocks, f, k, i),
        engine::q_sum(out, i) == syndrome_row(slots_of(cfg), blocks, f, k, i),
    decreases k,
{
    if k > 0 {
        config::law_disks_are_listed(cfg);
        let here = cfg.disks()[k - 1];
        if k - 1 == f {
            lemma_others_read(
                cfg,
                f,
                array_phys,
                n,
                size,
                read,
                blocks,
                p,
                q,
                k - 1,
                out,
                i,
            );
        } else {
            assert(here.0 != cfg.disks()[f].0) by {
                if k - 1 < f {
                    assert(cfg.disks()[k - 1].0 < cfg.disks()[f].0);
                } else {
                    assert(cfg.disks()[f].0 < cfg.disks()[k - 1].0);
                }
            }
            lemma_disk_holds(
                cfg,
                &here.1,
                array_phys,
                n,
                size,
                read,
                blocks[k - 1],
                Ok::<Vec<u8>, E>(out.last().1),
            );
            lemma_others_read(
                cfg,
                f,
                array_phys,
                n,
                size,
                read,
                blocks,
                p,
                q,
                k - 1,
                out.drop_last(),
                i,
            );
            let a = engine::xor_all(out.drop_last(), i);
            gf::lemma_xor(a, blocks[k - 1][i], 0);
            let t = gf::gmul(gf::gexp(slots_of(cfg)[k - 1] - 1), blocks[k - 1][i]);
            assert(here.0 as i32 == here.0);
            assert(engine::column(here.0) == slots_of(cfg)[k - 1] - 1);
            gf::lemma_xor(engine::q_sum(out.drop_last(), i), t, 0);
        }
    }
}

/// P is the XOR of all data blocks.
pub open spec fn p_equation(blocks: Seq<Seq<u8>>, p: Seq<u8>) -> bool {
    forall|i: int|
        0 <= i < p.len() ==> #[trigger] p[i] == xor_row(blocks, -1, blocks.len() as int, i)
}

/// Q is the XOR of all data blocks, each times 2 to the power of its column.
pub open spec fn q_equation(slots: Seq<u64>, blocks: Seq<Seq<u8>>, q: Seq<u8>) -> bool {
    forall|i: int|
        0 <= i < q.len() ==> #[trigger] q[i] == syndrome_row(
            slots,
            blocks,
            -1,
            blocks.len() as int,
            i,
        )
}

/// The candidate's own block is not the one that is looked for: it is known not
/// to be readable, or reading it gives other bytes or fails.
pub open spec fn own_block_is_lost<
    E,
    V,
    S: Fn(&String) -> Result<u64, E>,
    R: Fn(&String, u64, usize) -> Result<Vec<u8>, E>,
>(cfg: ArrayConfig, cand: Candidate<V>, size: S, read: R, golden: Seq<u8>) -> bool {
    ||| cand.unreadable
    ||| {
        &&& exists|capacity: u64| #[trigger]
            array::holds_bytes(size, &cand.failing_dev, capacity) && cand.array_phys + cfg.offset(
                cand.failing_dev@,
            ) + cand.block_size <= capacity
        &&& forall|b: Vec<u8>| #[trigger]
            call_ensures(
                read,
                (
                    &cand.failing_dev,
                    (cand.array_phys + cfg.offset(cand.failing_dev@)) as u64,
                    cand.block_size,
                ),
                Ok::<Vec<u8>, E>(b),
            ) ==> b@ != golden
    }
}

proof fn lemma_own_block<
    E,
    V: Fn(&[u8]) -> bool,
    S: Fn(&String) -> Result<u64, E>,
    R: Fn(&String, u64, usize) -> Result<Vec<u8>, E>,
>(cfg: ArrayConfig, cand: Candidate<V>, size: S, read: R, golden: Seq<u8>, b: Vec<u8>)
    requires
        !cand.unreadable,
        cand.block_size > 0,
        own_block_is_lost::<E, V, S, R>(cfg, cand, size, read, golden),
        batch_recover::own_read::<E, V, S, R>(cfg, cand, size, read, Ok(b)),
    ensures
        b@ != golden,
{
    let capacity = choose|capacity: u64| #[trigger]
        array::holds_bytes(size, &cand.failing_dev, capacity) && cand.array_phys + cfg.offset(
            cand.failing_dev@,
        ) + cand.block_size <= capacity;
    array::law_block_inside_the_device_is_what_was_read(
        cfg,
        &cand.failing_dev,
        cand.array_phys,
        cand.block_size,
        size,
        read,
        capacity,
        Ok::<Vec<u8>, E>(b),
    );
}

/// What the world around a candidate is like: the other disks hold the blocks of
/// the stripe, the candidate's own block is lost, the verifier knows the block
/// that is looked for, and live metadata does not object.
pub open spec fn stripe_is_whole<
    E,
    V: Fn(&[u8]) -> bool,
    C: Fn(&ReconfirmRequest) -> Reconfirm,
    S: Fn(&String) -> Result<u64, E>,
    R: Fn(&String, u64, usize) -> Result<Vec<u8>, E>,
    W: Fn(&String, u64, &[u8]) -> Result<(), E>,
    D: Fn(&String) -> CacheDrop,
>(
    cfg: ArrayConfig,
    f: int,
    env: Env<C, S, R, W, D>,
    cand: Candidate<V>,
    blocks: Seq<Seq<u8>>,
    p: Seq<u8>,
    q: Seq<u8>,
) -> bool {
    &&& cand.block_size > 0
    &&& 0 <= f < cfg.disks().len()
    &&& forall|j: int| 0 <= j < cfg.disks().len() ==> (#[trigger] cfg.disks()[j]).0 <= 0x7fff_ffff
    &&& disks_hold::<E, S, R>(
        cfg,
        f,
        cand.array_phys,
        cand.block_size,
        env.size,
        env.read,
        blocks,
        p,
        q,
    )
    &&& blocks[f].len() == cand.block_size
    &&& own_block_is_lost::<E, V, S, R>(cfg, cand, env.size, env.read, blocks[f])
    &&& laws::recognises(cand.verify, blocks[f])
    &&& cand.reconfirm matches Some(req) ==> forall|r: Reconfirm| #[trigger]
        call_ensures(env.reconfirm, (&req,), r) ==> r == Reconfirm::Corruption
}

/// Whatever recovering the candidate gives, it is the lost block: through P where
/// P belongs to the stripe, else through Q.
proof fn lemma_attempt_gives_the_block<
    E,
    V: Fn(&[u8]) -> bool,
    C: Fn(&ReconfirmRequest) -> Reconfirm,
    S: Fn(&String) -> Result<u64, E>,
    R: Fn(&String, u64, usize) -> Result<Vec<u8>, E>,
    W: Fn(&String, u64, &[u8]) -> Result<(), E>,
    D: Fn(&String) -> CacheDrop,
>(
    cfg: ArrayConfig,
    f: int,
    env: Env<C, S, R, W, D>,
    cand: Candidate<V>,
    golden: Vec<u8>,
    blocks: Seq<Seq<u8>>,
    p: Seq<u8>,
    q: Seq<u8>,
    result: RecoveryResult,
)
    requires
        stripe_is_whole::<E, V, C, S, R, W, D>(cfg, f, env, cand, blocks, p, q),
        golden@ == blocks[f],
        cfg.parity_p is Some && p_equation(blocks, p) || cfg.parity_q is Some && q_equation(
            slots_of(cfg),
            blocks,
            q,
        ),
        batch_recover::attempt_gives::<E, V, S, R>(
            cfg,
            cfg.disks()[f].0,
            cand,
            env.size,
            env.read,
            result,
        ),
    ensures
        result matches RecoveryResult::Recovered { via, block } && block@ == blocks[f] && (
        cfg.parity_p is Some && p_equation(blocks, p) ==> via == ParityPath::P),
{
    let slot = cfg.disks()[f].0;
    let n = cand.block_size;
    let (chunks, input) = choose|chunks: StripeChunks, input: RecoveryInput<V>| #[trigger]
        batch_recover::attempted::<E, V, S, R>(
            cfg,
            slot,
            cand,
            env.size,
            env.read,
            chunks,
            input,
            result,
        );
    let out = chunks.other_data@;
    let data = out.push((slot, golden));
    let last = out.len() as int;
    assert(data.remove(last) =~= out);
    assert(data.drop_last() =~= out);
    assert(input.other_blocks@ == data.remove(last));
    if !input.unreadable_source {
        assert(engine::rejects(cand.verify, input.corrupt_block@));
    }
    assert(slot as i32 == slot);
    assert(engine::column(slot) == slots_of(cfg)[f] - 1);
    assert forall|i: int| true implies #[trigger] engine::xor_all(data, i) == xor_row(
        blocks,
        -1,
        blocks.len() as int,
        i,
    ) && engine::q_sum(data, i) == syndrome_row(
        slots_of(cfg),
        blocks,
        -1,
        blocks.len() as int,
        i,
    ) by {
        lemma_others_read(
            cfg,
            f,
            cand.array_phys,
            n,
            env.size,
            env.read,
            blocks,
            p,
            q,
            cfg.disks().len() as int,
            out,
            i,
        );
        lemma_rows(slots_of(cfg), blocks, f, blocks.len() as int, i);
    }
    if let Some(path) = cfg.parity_p {
        lemma_disk_holds(
            cfg,
            &path,
            cand.array_phys,
            n,
            env.size,
            env.read,
            p,
            Ok::<Vec<u8>, E>(chunks.p_block.unwrap()),
        );
    }
    if let Some(path) = cfg.parity_q {
        lemma_disk_holds(
            cfg,
            &path,
            cand.array_phys,
            n,
            env.size,
            env.read,
            q,
            Ok::<Vec<u8>, E>(chunks.q_block.unwrap()),
        );
    }
    if cfg.parity_p is Some && p_equation(blocks, p) {
        assert(laws::is_p_of(p, data));
        laws::law_intact_p_suffices(input, data, last, result);
    } else {
        assert forall|i: int| 0 <= i < q.len() implies #[trigger] q[i] == engine::q_sum(
            data,
            i,
        ) by {
            let _x = engine::xor_all(data, i);
        }
        assert(laws::is_q_of(q, data));
        laws::law_intact_q_suffices(input, data, last, result);
    }
}

/// Where the disks' bytes satisfy the P or the Q equation with the block that is
/// looked for, and all other disks can be read, that block is what the candidate
/// is recovered with. In a dry run the outcome is just that; where writes are
/// held back, that it would have been; otherwise the block is written, and the
/// outcome is what reading it back says.
pub proof fn law_whole_stripe_recovers_its_block<
    E,
    V: Fn(&[u8]) -> bool,
    C: Fn(&ReconfirmRequest) -> Reconfirm,
    S: Fn(&String) -> Result<u64, E>,
    R: Fn(&String, u64, usize) -> Result<Vec<u8>, E>,
    W: Fn(&String, u64, &[u8]) -> Result<(), E>,
    D: Fn(&String) -> CacheDrop,
>(
    cfg: ArrayConfig,
    f: int,
    dry_run: bool,
    writes_allowed: bool,
    env: Env<C, S, R, W, D>,
    cand: Candidate<V>,
    golden: Vec<u8>,
    blocks: Seq<Seq<u8>>,
    p: Seq<u8>,
    q: Seq<u8>,
    r: Report,
)
    requires
        stripe_is_whole::<E, V, C, S, R, W, D>(cfg, f, env, cand, blocks, p, q),
        golden@ == blocks[f],
        cfg.parity_p is Some && p_equation(blocks, p) || cfg.parity_q is Some && q_equation(
            slots_of(cfg),
            blocks,
            q,
        ),
        forall|s: &[u8], out: Result<(), E>| #[trigger]
            call_ensures(
                env.write,
                (
                    &cand.failing_dev,
                    (cand.array_phys + cfg.offset(cand.failing_dev@)) as u64,
                    s,
                ),
                out,
            ) ==> out is Ok,
        batch_recover::candidate_outcome::<E, V, C, S, R, W, D>(
            cfg,
            cfg.disks()[f].0,
            dry_run,
            writes_allowed,
            env,
            cand,
            r,
        ),
    ensures
        r.raw_phys == cand.raw_phys,
        !writes_allowed ==> r.outcome == Outcome::NotFrozen && !r.written,
        writes_allowed && dry_run ==> r.outcome == Outcome::Recovered && !r.written,
        writes_allowed && !dry_run ==> (r.outcome == Outcome::Recovered || r.outcome
            == Outcome::ReadbackFailed) && r.written && exists|s: &[u8]|
            s@ == golden@ && #[trigger] call_ensures(
                env.write,
                (
                    &cand.failing_dev,
                    (cand.array_phys + cfg.offset(cand.failing_dev@)) as u64,
                    s,
                ),
                Ok::<(), E>(()),
            ),
        r.via is Some,
        cfg.parity_p is Some && p_equation(blocks, p) ==> r.via == Some(ParityPath::P),
{
    let slot = cfg.disks()[f].0;
    assert forall|result: RecoveryResult| #[trigger]
        batch_recover::attempt_gives::<E, V, S, R>(
            cfg,
            slot,
            cand,
            env.size,
            env.read,
            result,
        ) implies (result matches RecoveryResult::Recovered { via, block } && block@ == golden@ && (
    cfg.parity_p is Some && p_equation(blocks, p) ==> via == ParityPath::P)) by {
        lemma_attempt_gives_the_block::<E, V, C, S, R, W, D>(
            cfg,
            f,
            env,
            cand,
            golden,
            blocks,
            p,
            q,
            result,
        );
    }
    match r.outcome {
        Outcome::Stale => {
            let b = choose|b: Vec<u8>| #[trigger]
                batch_recover::own_read::<E, V, S, R>(cfg, cand, env.size, env.read, Ok(b))
                    && engine::accepts(cand.verify, b@);
            if !cand.unreadable && batch_recover::own_read::<E, V, S, R>(
                cfg,
                cand,
                env.size,
                env.read,
                Ok(b),
            ) {
                lemma_own_block::<E, V, S, R>(cfg, cand, env.size, env.read, golden@, b);
            }
            assert(false);
        },
        Outcome::Failed => {
            if r.via is None && r.reason is None {
                let e = choose|e: E| #[trigger]
                    stripe::gather_error::<E, S, R>(
                        cfg,
                        slot,
                        cand.array_phys,
                        cand.block_size,
                        env.size,
                        env.read,
                        e,
                    );
                lemma_no_gather_error::<E, V, C, S, R, W, D>(cfg, f, env, cand, blocks, p, q, e);
            }
            if r.via is Some && r.reason is None {
                let (block, e) = choose|block: Vec<u8>, e: E|
                    #![trigger batch_recover::write_gives::<E, V, W>(
                        cfg,
                        cand,
                        env.write,
                        block@,
                        Err(e),
                    )]
                    {
                        &&& batch_recover::attempt_gives::<E, V, S, R>(
                            cfg,
                            slot,
                            cand,
                            env.size,
                            env.read,
                            RecoveryResult::Recovered { via: r.via.unwrap(), block },
                        )
                        &&& batch_recover::write_gives::<E, V, W>(
                            cfg,
                            cand,
                            env.write,
                            block@,
                            Err(e),
                        )
                    };
                assert(batch_recover::write_gives::<E, V, W>(cfg, cand, env.write, block@, Err(e)));
            }
            assert(false);
        },
        _ => {},
    }
}

proof fn lemma_no_gather_error<
    E,
    V: Fn(&[u8]) -> bool,
    C: Fn(&ReconfirmRequest) -> Reconfirm,
    S: Fn(&String) -> Result<u64, E>,
    R: Fn(&String, u64, usize) -> Result<Vec<u8>, E>,
    W: Fn(&String, u64, &[u8]) -> Result<(), E>,
    D: Fn(&String) -> CacheDrop,
>(
    cfg: ArrayConfig,
    f: int,
    env: Env<C, S, R, W, D>,
    cand: Candidate<V>,
    blocks: Seq<Seq<u8>>,
    p: Seq<u8>,
    q: Seq<u8>,
    e: E,
)
    requires
        stripe_is_whole::<E, V, C, S, R, W, D>(cfg, f, env, cand, blocks, p, q),
    ensures
        !stripe::gather_error::<E, S, R>(
            cfg,
            cfg.disks()[f].0,
            cand.array_phys,
            cand.block_size,
            env.size,
            env.read,
            e,
        ),
{
    lemma_stripe_is_read(
        cfg,
        f,
        cand.array_phys,
        cand.block_size,
        env.size,
        env.read,
        blocks,
        p,
        q,
        e,
    );
}

proof fn lemma_stripe_is_read<
    E,
    S: Fn(&String) -> Result<u64, E>,
    R: Fn(&String, u64, usize) -> Result<Vec<u8>, E>,
>(
    cfg: ArrayConfig,
    f: int,
    array_phys: u64,
    n: usize,
    size: S,
    read: R,
    blocks: Seq<Seq<u8>>,
    p: Seq<u8>,
    q: Seq<u8>,
    e: E,
)
    requires
        n > 0,
        0 <= f < cfg.disks().len(),
        disks_hold(cfg, f, array_phys, n, size, read, blocks, p, q),
    ensures
        !stripe::gather_error::<E, S, R>(cfg, cfg.disks()[f].0, array_phys, n, size, read, e),
{
    let err = Err::<Vec<u8>, E>(e);
    assert forall|k: int| 0 <= k < cfg.disks().len() && k != f implies !stripe::block_read(
        cfg,
        &(#[trigger] cfg.disks()[k]).1,
        array_phys,
        n,
        size,
        read,
        err,
    ) by {
        let path = cfg.disks()[k].1;
        if stripe::block_read(cfg, &path, array_phys, n, size, read, err) {
            lemma_disk_holds(
                cfg,
                &path,
                array_phys,
                n,
                size,
                read,
                blocks[k],
                err,
            );
        }
    }
    if let Some(path) = cfg.parity_p {
        if stripe::block_read(cfg, &path, array_phys, n, size, read, err) {
            lemma_disk_holds(cfg, &path, array_phys, n, size, read, p, err);
        }
    }
    if let Some(path) = cfg.parity_q {
        if stripe::block_read(cfg, &path, array_phys, n, size, read, err) {
            lemma_disk_holds(cfg, &path, array_phys, n, size, read, q, err);
        }
    }
}

/// The probe rebuilds the block that the slot's disk should hold, wherever P
/// satisfies its equation with it and all other disks can be read; the disk
/// itself is not asked.
pub proof fn law_probe_rebuilds_the_block<
    E,
    S: Fn(&String) -> Result<u64, E>,
    R: Fn(&String, u64, usize) -> Result<Vec<u8>, E>,
>(
    cfg: ArrayConfig,
    f: int,
    array_phys: u64,
    n: usize,
    size: S,
    read: R,
    blocks: Seq<Seq<u8>>,
    p: Seq<u8>,
    q: Seq<u8>,
    r: Result<Vec<u8>, CanaryError<E>>,
)
    requires
        n > 0,
        0 <= f < cfg.disks().len(),
        forall|j: int|
            0 <= j < cfg.disks().len() ==> (#[trigger] cfg.disks()[j]).0 <= 0x7fff_ffff,
        disks_hold(cfg, f, array_phys, n, size, read, blocks, p, q),
        blocks[f].len() == n,
        cfg.parity_p is Some,
        p_equation(blocks, p),
        call_ensures(
            canary::reconstruct_block::<E, S, R>,
            (&cfg, cfg.disks()[f].0, array_phys, n, &size, &read),
            r,
        ),
    ensures
        r matches Ok(b) && b@ == blocks[f],
{
    let slot = cfg.disks()[f].0;
    if let Err(CanaryError::Read(e)) = r {
        lemma_stripe_is_read(cfg, f, array_phys, n, size, read, blocks, p, q, e);
    }
    let b = r->Ok_0;
    let c = choose|c: StripeChunks|
        {
            &&& #[trigger] stripe::gathered::<E, S, R>(
                cfg,
                slot,
                array_phys,
                n,
                size,
                read,
                c,
            )
            &&& stripe::chunks_of(cfg, slot, n, c)
            &&& c.p_block matches Some(pb) && b@ == engine::p_candidate(c.other_data@, pb@)
        };
    let pb = c.p_block.unwrap();
    lemma_disk_holds(
        cfg,
        &cfg.parity_p.unwrap(),
        array_phys,
        n,
        size,
        read,
        p,
        Ok::<Vec<u8>, E>(pb),
    );
    assert forall|i: int| 0 <= i < n implies #[trigger] b@[i] == blocks[f][i] by {
        lemma_others_read(
            cfg,
            f,
            array_phys,
            n,
            size,
            read,
            blocks,
            p,
            q,
            cfg.disks().len() as int,
            c.other_data@,
            i,
        );
        lemma_rows(slots_of(cfg), blocks, f, blocks.len() as int, i);
        let x = xor_row(blocks, f, blocks.len() as int, i);
        assert(p[i] == x ^ blocks[f][i]);
        gf::lemma_xor(x, x, blocks[f][i]);
        let y = blocks[f][i];
        assert(x ^ (x ^ y) == y) by (bit_vector);
    }
    assert(b@ =~= blocks[f]);
}

/// Every array whose slots are numbered from 1 to 254 can be recovered, whatever
/// disk fails: nothing about its numbering stands in the way.
pub proof fn law_ordinary_array_can_be_recovered(
    cfg: ArrayConfig,
    slot: u64,
    location: ResolvedLocation,
)
    requires
        1 <= slot <= 254,
        location.devid == slot,
        forall|k: int|
            0 <= k < cfg.disks().len() ==> 1 <= (#[trigger] cfg.disks()[k]).0 <= 254,
    ensures
        parity::slots_have_columns(cfg),
        batch_recover::array_recovers(cfg, slot),
        recover::array_recovers(cfg, location),
        forall|other: u64|
            1 <= other <= 254 && other != slot ==> #[trigger] engine::two_disk_solvable(
                slot,
                other,
            ),
{
}

/// A disk that could not be read is named, and what went wrong with it said behind.
pub proof fn law_message_names_the_disk(path: Seq<char>, e: Seq<char>)
    ensures
        recover::disk_message(path, e) == "read data disk "@ + path + ": "@ + e,
{
}

/// Where a data disk that is needed cannot be read, the error is its own, or that
/// of one before it in slot order.
pub proof fn law_first_unreadable_disk_is_reported<
    E,
    S: Fn(&String) -> Result<u64, E>,
    R: Fn(&String, u64, usize) -> Result<Vec<u8>, E>,
>(cfg: ArrayConfig, skip: u64, array_phys: u64, n: usize, size: S, read: R, e: E, j: int)
    requires
        stripe::gather_error::<E, S, R>(cfg, skip, array_phys, n, size, read, e),
        0 <= j < cfg.disks().len(),
        cfg.disks()[j].0 != skip,
        !stripe::readable::<E, S, R>(cfg, j, array_phys, n, size, read),
    ensures
        exists|k: int|
            0 <= k <= j && (#[trigger] cfg.disks()[k]).0 != skip && stripe::block_read(
                cfg,
                &cfg.disks()[k].1,
                array_phys,
                n,
                size,
                read,
                Err::<Vec<u8>, E>(e),
            ),
{
    let all = cfg.disks().len() as int;
    if !(exists|k: int|
        {
            &&& 0 <= k < all
            &&& (#[trigger] cfg.disks()[k]).0 != skip
            &&& stripe::block_read(
                cfg,
                &cfg.disks()[k].1,
                array_phys,
                n,
                size,
                read,
                Err::<Vec<u8>, E>(e),
            )
            &&& stripe::readable_before::<E, S, R>(cfg, skip, k, array_phys, n, size, read)
        }) {
        assert(stripe::readable_before::<E, S, R>(cfg, skip, all, array_phys, n, size, read));
    }
}

} // verus!
