//! What reconstruction from parity guarantees: a stripe with intact parity
//! gives its lost block back.

use vstd::prelude::*;

use crate::recovery::engine;
use crate::recovery::gf;
use crate::recovery::model::{FailureReason, ParityPath, RecoveryInput, RecoveryResult};

verus! {

/// `p` is the P parity of the stripe: the XOR of all its data blocks.
pub open spec fn is_p_of(p: Seq<u8>, data: Seq<(u64, Vec<u8>)>) -> bool {
    forall|i: int| 0 <= i < p.len() ==> #[trigger] p[i] == engine::xor_all(data, i)
}

/// `q` is the Q parity of the stripe: the XOR of `g^(slot-1) * D_slot`.
pub open spec fn is_q_of(q: Seq<u8>, data: Seq<(u64, Vec<u8>)>) -> bool {
    forall|i: int| 0 <= i < q.len() ==> #[trigger] q[i] == engine::q_sum(data, i)
}

/// No slot occurs twice.
pub open spec fn slots_distinct(data: Seq<(u64, Vec<u8>)>) -> bool {
    forall|i: int, j: int|
        0 <= i < j < data.len() ==> (#[trigger] data[i]).0 != (#[trigger] data[j]).0
}

/// A data slot whose column has a Q coefficient of its own.
pub open spec fn is_data_slot(slot: u64) -> bool {
    1 <= slot <= 255
}

/// The verifier says yes to `golden` and to nothing else.
pub open spec fn recognises<V: Fn(&[u8]) -> bool>(v: V, golden: Seq<u8>) -> bool {
    forall|s: &[u8], r: bool| #[trigger] call_ensures(v, (s,), r) ==> r == (s@ == golden)
}

// ---------------------------------------------------------------------------
// Sums over stripes
// ---------------------------------------------------------------------------

proof fn lemma_remove_last(data: Seq<(u64, Vec<u8>)>, k: int)
    requires
        0 <= k < data.len(),
    ensures
        k == data.len() - 1 ==> data.remove(k) == data.drop_last(),
        k < data.len() - 1 ==> {
            &&& data.remove(k).drop_last() == data.drop_last().remove(k)
            &&& data.remove(k).last() == data.last()
            &&& data.remove(k).len() > 0
        },
{
    if k == data.len() - 1 {
        assert(data.remove(k) =~= data.drop_last());
    } else {
        assert(data.remove(k).drop_last() =~= data.drop_last().remove(k));
    }
}

/// A block can be taken out of the XOR of its stripe.
pub proof fn lemma_xor_all_remove(data: Seq<(u64, Vec<u8>)>, k: int, i: int)
    requires
        0 <= k < data.len(),
    ensures
        engine::xor_all(data, i) == engine::xor_all(data.remove(k), i) ^ data[k].1@[i],
    decreases data.len(),
{
    lemma_remove_last(data, k);
    if k < data.len() - 1 {
        lemma_xor_all_remove(data.drop_last(), k, i);
        let rest = engine::xor_all(data.drop_last().remove(k), i);
        gf::lemma_xor(rest, data[k].1@[i], data.last().1@[i]);
        gf::lemma_xor(rest, data.last().1@[i], data[k].1@[i]);
        gf::lemma_xor(data[k].1@[i], data.last().1@[i], 0);
    }
}

/// A block can be taken out of the Q syndrome of its stripe.
pub proof fn lemma_q_sum_remove(data: Seq<(u64, Vec<u8>)>, k: int, i: int)
    requires
        0 <= k < data.len(),
    ensures
        engine::q_sum(data, i) == engine::q_sum(data.remove(k), i) ^ gf::gmul(
            gf::gexp(engine::column(data[k].0)),
            data[k].1@[i],
        ),
    decreases data.len(),
{
    lemma_remove_last(data, k);
    if k < data.len() - 1 {
        lemma_q_sum_remove(data.drop_last(), k, i);
        let rest = engine::q_sum(data.drop_last().remove(k), i);
        let tk = gf::gmul(gf::gexp(engine::column(data[k].0)), data[k].1@[i]);
        let tl = gf::gmul(gf::gexp(engine::column(data.last().0)), data.last().1@[i]);
        gf::lemma_xor(rest, tk, tl);
        gf::lemma_xor(rest, tl, tk);
        gf::lemma_xor(tk, tl, 0);
    }
}

/// Leaving out slots that do not occur changes nothing.
proof fn lemma_except_none(data: Seq<(u64, Vec<u8>)>, s: u64, t: u64, i: int)
    requires
        forall|m: int| 0 <= m < data.len() ==> (#[trigger] data[m]).0 != s && data[m].0 != t,
    ensures
        engine::xor_except(data, s, t, i) == engine::xor_all(data, i),
        engine::q_except(data, s, t, i) == engine::q_sum(data, i),
    decreases data.len(),
{
    if data.len() > 0 {
        assert forall|m: int| 0 <= m < data.drop_last().len() implies (
        #[trigger] data.drop_last()[m]).0 != s && data.drop_last()[m].0 != t by {
            assert(data[m].0 != s && data[m].0 != t);
        }
        assert(data[data.len() - 1].0 != s);
        lemma_except_none(data.drop_last(), s, t, i);
    }
}

/// Taking out a block that is left out anyway changes nothing.
proof fn lemma_except_remove(data: Seq<(u64, Vec<u8>)>, k: int, s: u64, t: u64, i: int)
    requires
        0 <= k < data.len(),
        data[k].0 == s || data[k].0 == t,
    ensures
        engine::xor_except(data.remove(k), s, t, i) == engine::xor_except(data, s, t, i),
        engine::q_except(data.remove(k), s, t, i) == engine::q_except(data, s, t, i),
    decreases data.len(),
{
    lemma_remove_last(data, k);
    if k < data.len() - 1 {
        lemma_except_remove(data.drop_last(), k, s, t, i);
    }
}

/// The stripe's parity at one byte, split into the good disks and two others,
/// whatever one of those two now holds.
proof fn lemma_split_two(
    data: Seq<(u64, Vec<u8>)>,
    k: int,
    j: int,
    held: Vec<u8>,
    i: int,
)
    requires
        0 <= k < data.len(),
        0 <= j < data.len(),
        k != j,
        slots_distinct(data),
    ensures
        ({
            let seen = data.update(j, (data[j].0, held)).remove(k);
            &&& engine::xor_all(data, i) == engine::xor_except(seen, data[j].0, data[k].0, i)
                ^ data[j].1@[i] ^ data[k].1@[i]
            &&& engine::q_sum(data, i) == engine::q_except(seen, data[j].0, data[k].0, i)
                ^ gf::gmul(gf::gexp(engine::column(data[j].0)), data[j].1@[i])
                ^ gf::gmul(gf::gexp(engine::column(data[k].0)), data[k].1@[i])
        }),
{
    let s = data[j].0;
    let t = data[k].0;
    let seen = data.update(j, (s, held)).remove(k);
    let jj = if j < k { j } else { j - 1 };
    let one = data.remove(k);
    assert(one[jj] == data[j]);
    assert(seen[jj] == (s, held));
    let good = one.remove(jj);
    assert(good =~= seen.remove(jj));
    lemma_xor_all_remove(data, k, i);
    lemma_xor_all_remove(one, jj, i);
    lemma_q_sum_remove(data, k, i);
    lemma_q_sum_remove(one, jj, i);
    lemma_except_remove(seen, jj, s, t, i);
    assert forall|m: int| 0 <= m < good.len() implies (#[trigger] good[m]).0 != s && good[m].0
        != t by {
        let m1 = if m < jj { m } else { m + 1 };
        let m2 = if m1 < k { m1 } else { m1 + 1 };
        assert(good[m] == one[m1]);
        assert(one[m1] == data[m2]);
        assert(m2 != k && m2 != j);
        if m2 < k {
            assert(data[m2].0 != data[k].0);
        } else {
            assert(data[k].0 != data[m2].0);
        }
        if m2 < j {
            assert(data[m2].0 != data[j].0);
        } else {
            assert(data[j].0 != data[m2].0);
        }
    }
    lemma_except_none(good, s, t, i);
}

// ---------------------------------------------------------------------------
// Reconstruction laws
// ---------------------------------------------------------------------------

/// With an intact P and intact other disks, the P path gives exactly the lost
/// block back.
pub proof fn law_p_recovers(data: Seq<(u64, Vec<u8>)>, k: int, p: Seq<u8>)
    requires
        0 <= k < data.len(),
        is_p_of(p, data),
        p.len() == data[k].1@.len(),
    ensures
        engine::p_candidate(data.remove(k), p) == data[k].1@,
{
    let c = engine::p_candidate(data.remove(k), p);
    assert forall|i: int| 0 <= i < p.len() implies c[i] == data[k].1@[i] by {
        lemma_xor_all_remove(data, k, i);
        let rest = engine::xor_all(data.remove(k), i);
        assert(p[i] == rest ^ data[k].1@[i]);
        gf::lemma_xor(rest, rest, data[k].1@[i]);
        gf::lemma_xor(data[k].1@[i], 0, 0);
    }
    assert(c =~= data[k].1@);
}

/// With an intact Q and intact other disks, the Q path gives exactly the lost
/// block back.
pub proof fn law_q_recovers(data: Seq<(u64, Vec<u8>)>, k: int, q: Seq<u8>)
    requires
        0 <= k < data.len(),
        is_q_of(q, data),
        q.len() == data[k].1@.len(),
    ensures
        engine::q_candidate(data.remove(k), q, data[k].0) == data[k].1@,
{
    let col = engine::column(data[k].0);
    let c = engine::q_candidate(data.remove(k), q, data[k].0);
    assert forall|i: int| 0 <= i < q.len() implies c[i] == data[k].1@[i] by {
        lemma_q_sum_remove(data, k, i);
        let rest = engine::q_sum(data.remove(k), i);
        let d = data[k].1@[i];
        let term = gf::gmul(gf::gexp(col), d);
        assert(q[i] == rest ^ term);
        gf::lemma_xor(term, rest, 0);
        gf::lemma_xor(rest, term, 0);
        assert(q[i] ^ rest == term);
        gf::lemma_gmul_associates(gf::gexp(-col), gf::gexp(col), d);
        gf::lemma_gexp_adds(-col, col);
        assert(gf::gexp(0) == 1);
        gf::lemma_gmul_one(d);
    }
    assert(c =~= data[k].1@);
}

/// The two parity equations determine both unknown bytes.
proof fn lemma_two_disk_byte(df: u8, dp: u8, failing: u64, partner: u64)
    requires
        is_data_slot(failing),
        is_data_slot(partner),
        failing != partner,
    ensures
        engine::two_disk_byte(
            dp ^ df,
            gf::gmul(gf::gexp(engine::column(partner)), dp) ^ gf::gmul(
                gf::gexp(engine::column(failing)),
                df,
            ),
            failing,
            partner,
        ) == df,
{
    let a = engine::low_column(failing, partner);
    let b = engine::high_column(failing, partner);
    let ga = gf::gexp(a);
    let gb = gf::gexp(b);
    let da = if failing < partner { df } else { dp };
    let db = if failing < partner { dp } else { df };
    gf::lemma_xor(dp, df, 0);
    gf::lemma_xor(df, dp, 0);
    let delta_p = da ^ db;
    let delta_q = gf::gmul(ga, da) ^ gf::gmul(gb, db);
    gf::lemma_xor(gf::gmul(ga, da), gf::gmul(gb, db), 0);
    gf::lemma_gexp_distinct(a, b);
    let e = gf::gexp(b - a) ^ 1;
    let spread = ga ^ gb;
    let pb = gf::ginv(e);
    let qm = gf::ginv(spread);
    assert((b - a) % 255 == b - a);
    assert(a % 255 == a && b % 255 == b);
    gf::lemma_ginv(e);
    gf::lemma_ginv(spread);
    // pb == qm * ga, since both times `e` give one.
    gf::lemma_gmul_associates(qm, ga, e);
    assert(gf::gmul(gf::gmul(qm, ga), e) == 1);
    gf::lemma_gmul_associates(gf::gmul(qm, ga), e, pb);
    gf::lemma_gmul_one(gf::gmul(qm, ga));
    gf::lemma_gmul_one(pb);
    assert(pb == gf::gmul(qm, ga));
    // pb * delta_p == qm * (ga * delta_p)
    gf::lemma_gmul_associates(qm, ga, delta_p);
    gf::lemma_gmul_distributes_right(qm, gf::gmul(ga, delta_p), delta_q);
    // ga * delta_p ^ delta_q == spread * db
    gf::lemma_gmul_distributes_right(ga, da, db);
    let x = gf::gmul(ga, da);
    let y = gf::gmul(ga, db);
    let z = gf::gmul(gb, db);
    assert((x ^ y) ^ (x ^ z) == y ^ z) by (bit_vector);
    gf::lemma_gmul_distributes_left(ga, gb, db);
    gf::lemma_gmul_associates(qm, spread, db);
    gf::lemma_gmul_one(db);
    gf::lemma_xor(db, da, 0);
    gf::lemma_xor(da, db, 0);
    assert(db ^ (da ^ db) == da) by (bit_vector);
}

/// With intact P and Q and intact other disks, the two-disk solve gives exactly
/// the lost block back, whatever the partner disk now holds.
pub proof fn law_pq_recovers(
    data: Seq<(u64, Vec<u8>)>,
    k: int,
    j: int,
    held: Vec<u8>,
    p: Seq<u8>,
    q: Seq<u8>,
)
    requires
        0 <= k < data.len(),
        0 <= j < data.len(),
        k != j,
        slots_distinct(data),
        is_data_slot(data[k].0),
        is_data_slot(data[j].0),
        is_p_of(p, data),
        is_q_of(q, data),
        p.len() == data[k].1@.len(),
        q.len() == data[k].1@.len(),
    ensures
        engine::two_disk_solvable(data[k].0, data[j].0),
        engine::pq_candidate(
            data.update(j, (data[j].0, held)).remove(k),
            p,
            q,
            data[k].0,
            data[j].0,
        ) == data[k].1@,
{
    let seen = data.update(j, (data[j].0, held)).remove(k);
    let s = data[j].0;
    let t = data[k].0;
    if k < j {
        assert(data[k].0 != data[j].0);
    } else {
        assert(data[j].0 != data[k].0);
    }
    let c = engine::pq_candidate(seen, p, q, t, s);
    assert forall|i: int| 0 <= i < p.len() implies c[i] == data[k].1@[i] by {
        lemma_split_two(data, k, j, held, i);
        let df = data[k].1@[i];
        let dj = data[j].1@[i];
        let px = engine::xor_except(seen, s, t, i);
        let qx = engine::q_except(seen, s, t, i);
        let tj = gf::gmul(gf::gexp(engine::column(s)), dj);
        let tk = gf::gmul(gf::gexp(engine::column(t)), df);
        assert((px ^ dj ^ df) ^ px == dj ^ df && (qx ^ tj ^ tk) ^ qx == tj ^ tk) by (bit_vector);
        assert(p[i] == px ^ dj ^ df);
        assert(q[i] == qx ^ tj ^ tk);
        lemma_two_disk_byte(df, dj, t, s);
    }
    assert(c =~= data[k].1@);
}

// ---------------------------------------------------------------------------
// Laws of whole recovery attempts
// ---------------------------------------------------------------------------

proof fn lemma_exact_verifier<V: Fn(&[u8]) -> bool>(v: V, golden: Seq<u8>, bytes: Seq<u8>)
    requires
        recognises(v, golden),
    ensures
        engine::accepts(v, bytes) ==> bytes == golden,
        engine::rejects(v, bytes) ==> bytes != golden,
{
}

/// Nothing but the original is ever recovered: under a verifier that knows the
/// original, every recovered block is it.
pub proof fn law_recovered_is_original<V: Fn(&[u8]) -> bool>(
    input: RecoveryInput<V>,
    golden: Seq<u8>,
    r: RecoveryResult,
)
    requires
        engine::recovery_outcome(input, r),
        recognises(*input.verifier, golden),
    ensures
        r matches RecoveryResult::Recovered { block, .. } ==> block@ == golden,
        r is NotCorrupt ==> input.corrupt_block@ == golden,
{
    if let RecoveryResult::Recovered { block, .. } = r {
        lemma_exact_verifier(*input.verifier, golden, block@);
    }
    lemma_exact_verifier(*input.verifier, golden, input.corrupt_block@);
}

/// A corrupt block whose stripe has an intact P is recovered through P.
pub proof fn law_intact_p_suffices<V: Fn(&[u8]) -> bool>(
    input: RecoveryInput<V>,
    data: Seq<(u64, Vec<u8>)>,
    k: int,
    r: RecoveryResult,
)
    requires
        engine::recovery_outcome(input, r),
        0 <= k < data.len(),
        input.other_blocks@ == data.remove(k),
        recognises(*input.verifier, data[k].1@),
        input.unreadable_source || input.corrupt_block@ != data[k].1@,
        input.p_block is Some,
        is_p_of(input.p_block.unwrap()@, data),
        input.p_block.unwrap()@.len() == data[k].1@.len(),
    ensures
        r matches RecoveryResult::Recovered { via, block } && via == ParityPath::P && block@
            == data[k].1@,
{
    let golden = data[k].1@;
    law_p_recovers(data, k, input.p_block.unwrap()@);
    lemma_exact_verifier(*input.verifier, golden, golden);
    law_recovered_is_original(input, golden, r);
    assert(!engine::p_failed(input));
}

/// A corrupt block whose stripe has an intact Q is recovered.
pub proof fn law_intact_q_suffices<V: Fn(&[u8]) -> bool>(
    input: RecoveryInput<V>,
    data: Seq<(u64, Vec<u8>)>,
    k: int,
    r: RecoveryResult,
)
    requires
        engine::recovery_outcome(input, r),
        0 <= k < data.len(),
        data[k].1@.len() > 0,
        input.other_blocks@ == data.remove(k),
        input.failing_slot == data[k].0,
        recognises(*input.verifier, data[k].1@),
        input.unreadable_source || input.corrupt_block@ != data[k].1@,
        input.q_block is Some,
        is_q_of(input.q_block.unwrap()@, data),
        input.q_block.unwrap()@.len() == data[k].1@.len(),
    ensures
        r matches RecoveryResult::Recovered { block, .. } && block@ == data[k].1@,
{
    let golden = data[k].1@;
    law_q_recovers(data, k, input.q_block.unwrap()@);
    lemma_exact_verifier(*input.verifier, golden, golden);
    law_recovered_is_original(input, golden, r);
    assert(!engine::q_failed(input));
}

/// Two corrupt disks in a stripe with intact P and Q: the block is recovered,
/// though one of the other disks holds bytes that are wrong.
pub proof fn law_intact_pq_suffices<V: Fn(&[u8]) -> bool>(
    input: RecoveryInput<V>,
    data: Seq<(u64, Vec<u8>)>,
    k: int,
    j: int,
    held: Vec<u8>,
    r: RecoveryResult,
)
    requires
        engine::recovery_outcome(input, r),
        0 <= k < data.len(),
        0 <= j < data.len(),
        k != j,
        slots_distinct(data),
        is_data_slot(data[k].0),
        is_data_slot(data[j].0),
        input.other_blocks@ == data.update(j, (data[j].0, held)).remove(k),
        input.failing_slot == data[k].0,
        recognises(*input.verifier, data[k].1@),
        input.unreadable_source || input.corrupt_block@ != data[k].1@,
        input.p_block is Some,
        input.q_block is Some,
        is_p_of(input.p_block.unwrap()@, data),
        is_q_of(input.q_block.unwrap()@, data),
        input.p_block.unwrap()@.len() == data[k].1@.len(),
        input.q_block.unwrap()@.len() == data[k].1@.len(),
    ensures
        r matches RecoveryResult::Recovered { block, .. } && block@ == data[k].1@,
{
    let golden = data[k].1@;
    law_pq_recovers(data, k, j, held, input.p_block.unwrap()@, input.q_block.unwrap()@);
    lemma_exact_verifier(*input.verifier, golden, golden);
    law_recovered_is_original(input, golden, r);
    let jj = if j < k { j } else { j - 1 };
    assert(input.other_blocks@[jj].0 == data[j].0);
    assert(!engine::partner_failed(input, jj));
}

/// Parity that was recomputed from the corrupt bytes is recognised as such: it
/// reproduces them, and both paths say so.
pub proof fn law_baked_in_parity_is_detected<V: Fn(&[u8]) -> bool>(
    input: RecoveryInput<V>,
    data: Seq<(u64, Vec<u8>)>,
    k: int,
)
    requires
        0 <= k < data.len(),
        input.other_blocks@ == data.remove(k),
        input.failing_slot == data[k].0,
        !input.unreadable_source,
        input.corrupt_block@ == data[k].1@,
    ensures
        input.p_block is Some && is_p_of(input.p_block.unwrap()@, data)
            && input.p_block.unwrap()@.len() == data[k].1@.len() ==> engine::p_reason(input) == (
        FailureReason::ParityBakedIn { via: ParityPath::P }),
        input.q_block is Some && is_q_of(input.q_block.unwrap()@, data)
            && input.q_block.unwrap()@.len() == data[k].1@.len() ==> engine::q_reason(input) == (
        FailureReason::ParityBakedIn { via: ParityPath::Q }),
{
    if input.p_block is Some && is_p_of(input.p_block.unwrap()@, data)
        && input.p_block.unwrap()@.len() == data[k].1@.len() {
        law_p_recovers(data, k, input.p_block.unwrap()@);
    }
    if input.q_block is Some && is_q_of(input.q_block.unwrap()@, data)
        && input.q_block.unwrap()@.len() == data[k].1@.len() {
        law_q_recovers(data, k, input.q_block.unwrap()@);
    }
}

} // verus!
