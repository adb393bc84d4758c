//! Pure parity-recovery engine: I/O-free and checksum-agnostic.
//!
//! Recovers a corrupt block from one stripe's aligned chunks via P only, Q
//! only, then a P/Q two-disk solve; a verifier picks the first candidate that
//! checks out.

use vstd::prelude::*;
use vstd::slice::slice_to_vec;

use crate::bytes;
use crate::recovery::gf;
use crate::recovery::model::{FailureReason, ParityPath, RecoveryInput, RecoveryResult};

verus! {

// ---------------------------------------------------------------------------
// Parity equations, one byte offset at a time
// ---------------------------------------------------------------------------

/// The 0-based column of a 1-based slot: the exponent of its Q coefficient.
pub open spec fn column(slot: u64) -> int {
    (slot as i32) - 1
}

/// The slot's column, and the negated column, are representable.
pub open spec fn slot_fits(slot: u64) -> bool {
    column(slot) > i32::MIN
}

/// XOR of byte `i` of every block.
pub open spec fn xor_all(blocks: Seq<(u64, Vec<u8>)>, i: int) -> u8
    decreases blocks.len(),
{
    if blocks.len() == 0 {
        0
    } else {
        xor_all(blocks.drop_last(), i) ^ blocks.last().1@[i]
    }
}

/// XOR of `g^(slot-1) * byte i` over every block: the Q syndrome.
pub open spec fn q_sum(blocks: Seq<(u64, Vec<u8>)>, i: int) -> u8
    decreases blocks.len(),
{
    if blocks.len() == 0 {
        0
    } else {
        q_sum(blocks.drop_last(), i) ^ gf::gmul(
            gf::gexp(column(blocks.last().0)),
            blocks.last().1@[i],
        )
    }
}

/// `xor_all` without the blocks of slots `s` and `t`.
pub open spec fn xor_except(blocks: Seq<(u64, Vec<u8>)>, s: u64, t: u64, i: int) -> u8
    decreases blocks.len(),
{
    if blocks.len() == 0 {
        0
    } else if blocks.last().0 == s || blocks.last().0 == t {
        xor_except(blocks.drop_last(), s, t, i)
    } else {
        xor_except(blocks.drop_last(), s, t, i) ^ blocks.last().1@[i]
    }
}

/// `q_sum` without the blocks of slots `s` and `t`.
pub open spec fn q_except(blocks: Seq<(u64, Vec<u8>)>, s: u64, t: u64, i: int) -> u8
    decreases blocks.len(),
{
    if blocks.len() == 0 {
        0
    } else if blocks.last().0 == s || blocks.last().0 == t {
        q_except(blocks.drop_last(), s, t, i)
    } else {
        q_except(blocks.drop_last(), s, t, i) ^ gf::gmul(
            gf::gexp(column(blocks.last().0)),
            blocks.last().1@[i],
        )
    }
}

/// Every block holds `n` bytes.
pub open spec fn all_len(blocks: Seq<(u64, Vec<u8>)>, n: nat) -> bool {
    forall|k: int| 0 <= k < blocks.len() ==> (#[trigger] blocks[k]).1@.len() == n
}

/// The block that P and the other disks determine: `P XOR XOR_j D_j`.
pub open spec fn p_candidate(others: Seq<(u64, Vec<u8>)>, p: Seq<u8>) -> Seq<u8> {
    Seq::new(p.len(), |i: int| xor_all(others, i) ^ p[i])
}

/// The block that Q and the other disks determine:
/// `g^-(k-1) * (Q XOR XOR_j g^(j-1) * D_j)`.
pub open spec fn q_candidate(others: Seq<(u64, Vec<u8>)>, q: Seq<u8>, failing: u64) -> Seq<u8> {
    Seq::new(
        q.len(),
        |i: int| gf::gmul(gf::gexp(-column(failing)), q[i] ^ q_sum(others, i)),
    )
}

/// The columns of the two unknown disks, that of the smaller slot first.
pub open spec fn low_column(failing: u64, partner: u64) -> int {
    if failing < partner { column(failing) } else { column(partner) }
}

/// The column of the larger of the two slots.
pub open spec fn high_column(failing: u64, partner: u64) -> int {
    if failing < partner { column(partner) } else { column(failing) }
}

/// The two unknowns are two different disks with columns.
pub open spec fn two_disk_solvable(failing: u64, partner: u64) -> bool {
    let a = low_column(failing, partner);
    let b = high_column(failing, partner);
    a >= 0 && b >= 0 && a != b
}

/// The two columns, where both exist, lie in the coefficient table.
pub open spec fn two_disk_fits(failing: u64, partner: u64) -> bool {
    &&& (failing as i32) > i32::MIN
    &&& (partner as i32) > i32::MIN
    &&& two_disk_solvable(failing, partner) ==> low_column(failing, partner) < 256 && high_column(
        failing,
        partner,
    ) < 256
}

/// The failing disk's byte in the solution of the two parity equations, from
/// what P and Q leave once the good disks are taken out.
pub open spec fn two_disk_byte(dp: u8, dq: u8, failing: u64, partner: u64) -> u8 {
    let a = low_column(failing, partner);
    let b = high_column(failing, partner);
    let pbmul = gf::gfexi_entry((b - a) % 255);
    let qmul = gf::ginv(gf::gfexp_entry(a) ^ gf::gfexp_entry(b));
    let d_b = gf::gmul(pbmul, dp) ^ gf::gmul(qmul, dq);
    if failing < partner { d_b ^ dp } else { d_b }
}

/// The failing disk's block in the two-disk solution.
pub open spec fn pq_candidate(
    others: Seq<(u64, Vec<u8>)>,
    p: Seq<u8>,
    q: Seq<u8>,
    failing: u64,
    partner: u64,
) -> Seq<u8> {
    Seq::new(
        p.len(),
        |i: int|
            two_disk_byte(
                p[i] ^ xor_except(others, partner, failing, i),
                q[i] ^ q_except(others, partner, failing, i),
                failing,
                partner,
            ),
    )
}

// ---------------------------------------------------------------------------
// Outcomes
// ---------------------------------------------------------------------------

/// The verifier may say yes to these bytes.
pub open spec fn accepts<V: Fn(&[u8]) -> bool>(v: V, bytes: Seq<u8>) -> bool {
    exists|s: &[u8]| s@ == bytes && #[trigger] call_ensures(v, (s,), true)
}

/// The verifier may say no to these bytes.
pub open spec fn rejects<V: Fn(&[u8]) -> bool>(v: V, bytes: Seq<u8>) -> bool {
    exists|s: &[u8]| s@ == bytes && #[trigger] call_ensures(v, (s,), false)
}

/// The verifier can be asked about every block of `n` bytes.
pub open spec fn verifies_blocks<V: Fn(&[u8]) -> bool>(v: V, n: nat) -> bool {
    forall|s: &[u8]| s@.len() == n ==> #[trigger] call_requires(v, (s,))
}

/// P was recomputed from the corrupt bytes: it reproduces them.
pub open spec fn p_baked_in<V>(input: RecoveryInput<V>) -> bool {
    &&& !input.unreadable_source
    &&& p_candidate(input.other_blocks@, input.p_block.unwrap()@) == input.corrupt_block@
}

/// What Q's reconstruction is compared against: nothing, where the source could
/// not be read.
pub open spec fn q_reference<V>(input: RecoveryInput<V>) -> Seq<u8> {
    if input.unreadable_source { Seq::empty() } else { input.corrupt_block@ }
}

/// Q was recomputed from the corrupt bytes: it reproduces them.
pub open spec fn q_baked_in<V>(input: RecoveryInput<V>) -> bool {
    q_candidate(input.other_blocks@, input.q_block.unwrap()@, input.failing_slot) == q_reference(
        input,
    )
}

/// The block on disk did not pass (or there is none to pass).
pub open spec fn on_disk_failed<V: Fn(&[u8]) -> bool>(input: RecoveryInput<V>) -> bool {
    input.unreadable_source || rejects(*input.verifier, input.corrupt_block@)
}

/// The P path gave nothing.
pub open spec fn p_failed<V: Fn(&[u8]) -> bool>(input: RecoveryInput<V>) -> bool {
    match input.p_block {
        None => true,
        Some(p) => p_baked_in(input) || rejects(
            *input.verifier,
            p_candidate(input.other_blocks@, p@),
        ),
    }
}

/// What is said of a P path that gave nothing.
pub open spec fn p_reason<V>(input: RecoveryInput<V>) -> FailureReason {
    match input.p_block {
        None => FailureReason::ParityAbsent { via: ParityPath::P },
        Some(_) => if p_baked_in(input) {
            FailureReason::ParityBakedIn { via: ParityPath::P }
        } else {
            FailureReason::CsumMismatch { via: ParityPath::P }
        },
    }
}

/// The Q path gave nothing.
pub open spec fn q_failed<V: Fn(&[u8]) -> bool>(input: RecoveryInput<V>) -> bool {
    match input.q_block {
        None => true,
        Some(q) => q_baked_in(input) || rejects(
            *input.verifier,
            q_candidate(input.other_blocks@, q@, input.failing_slot),
        ),
    }
}

/// What is said of a Q path that gave nothing.
pub open spec fn q_reason<V>(input: RecoveryInput<V>) -> FailureReason {
    match input.q_block {
        None => FailureReason::ParityAbsent { via: ParityPath::Q },
        Some(_) => if q_baked_in(input) {
            FailureReason::ParityBakedIn { via: ParityPath::Q }
        } else {
            FailureReason::CsumMismatch { via: ParityPath::Q }
        },
    }
}

/// The two-disk candidate with the `n`-th other disk as partner.
pub open spec fn partner_candidate<V>(input: RecoveryInput<V>, n: int) -> Seq<u8> {
    pq_candidate(
        input.other_blocks@,
        input.p_block.unwrap()@,
        input.q_block.unwrap()@,
        input.failing_slot,
        input.other_blocks@[n].0,
    )
}

/// The two-disk solve with the `n`-th other disk as partner gave nothing.
pub open spec fn partner_failed<V: Fn(&[u8]) -> bool>(input: RecoveryInput<V>, n: int) -> bool {
    ||| !two_disk_solvable(input.failing_slot, input.other_blocks@[n].0)
    ||| rejects(*input.verifier, partner_candidate(input, n))
}

/// The slots of the other disks, in order.
pub open spec fn other_slots<V>(input: RecoveryInput<V>) -> Seq<u64> {
    Seq::new(input.other_blocks@.len(), |k: int| input.other_blocks@[k].0)
}

/// What one recovery attempt returns: the block on disk if it passes, else the
/// first of the P candidate, the Q candidate and the two-disk candidates in
/// disk order that passes, else the reasons of all of them.
pub open spec fn recovery_outcome<V: Fn(&[u8]) -> bool>(
    input: RecoveryInput<V>,
    r: RecoveryResult,
) -> bool {
    match r {
        RecoveryResult::NotCorrupt => !input.unreadable_source && accepts(
            *input.verifier,
            input.corrupt_block@,
        ),
        RecoveryResult::Recovered { via, block } => {
            &&& on_disk_failed(input)
            &&& accepts(*input.verifier, block@)
            &&& match via {
                ParityPath::P => {
                    &&& input.p_block is Some
                    &&& !p_baked_in(input)
                    &&& block@ == p_candidate(input.other_blocks@, input.p_block.unwrap()@)
                },
                ParityPath::Q => {
                    &&& p_failed(input)
                    &&& input.q_block is Some
                    &&& !q_baked_in(input)
                    &&& block@ == q_candidate(
                        input.other_blocks@,
                        input.q_block.unwrap()@,
                        input.failing_slot,
                    )
                },
                ParityPath::PQ { partner_slot } => {
                    &&& p_failed(input)
                    &&& q_failed(input)
                    &&& input.p_block is Some
                    &&& input.q_block is Some
                    &&& exists|n: int|
                        {
                            &&& 0 <= n < input.other_blocks@.len()
                            &&& (#[trigger] input.other_blocks@[n]).0 == partner_slot
                            &&& two_disk_solvable(input.failing_slot, partner_slot)
                            &&& block@ == partner_candidate(input, n)
                            &&& forall|m: int| 0 <= m < n ==> #[trigger] partner_failed(input, m)
                        }
                },
            }
        },
        RecoveryResult::Failed { reason } => {
            &&& on_disk_failed(input)
            &&& p_failed(input)
            &&& q_failed(input)
            &&& match reason {
                FailureReason::AllPathsFailed { p_reason: pr, q_reason: qr, pq_partners_tried } => {
                    &&& input.q_block is Some
                    &&& *pr == p_reason(input)
                    &&& *qr == q_reason(input)
                    &&& if input.p_block is Some {
                        &&& pq_partners_tried@ == other_slots(input)
                        &&& forall|m: int|
                            0 <= m < input.other_blocks@.len() ==> #[trigger] partner_failed(
                                input,
                                m,
                            )
                    } else {
                        pq_partners_tried@.len() == 0
                    }
                },
                FailureReason::NoQPathAndPFailed { p_reason: pr } => {
                    &&& input.q_block is None
                    &&& *pr == p_reason(input)
                },
                _ => false,
            }
        },
    }
}

/// The two-disk solve is tried with the `k`-th other disk as partner: both parity
/// disks are there, and nothing before it gave a block.
pub open spec fn partner_reached<V: Fn(&[u8]) -> bool>(input: RecoveryInput<V>, k: int) -> bool {
    &&& input.p_block is Some
    &&& input.q_block is Some
    &&& on_disk_failed(input)
    &&& p_failed(input)
    &&& q_failed(input)
    &&& forall|m: int| 0 <= m < k ==> #[trigger] partner_failed(input, m)
}

/// The coefficients exist that the paths which may be tried call for.
pub open spec fn coefficients_exist<V: Fn(&[u8]) -> bool>(input: RecoveryInput<V>) -> bool {
    &&& input.q_block is Some && on_disk_failed(input) && p_failed(input) ==> slot_fits(
        input.failing_slot,
    ) && slots_fit(input.other_blocks@)
    &&& forall|k: int|
        0 <= k < input.other_blocks@.len() && partner_reached(input, k) ==> two_disk_fits(
            input.failing_slot,
            (#[trigger] input.other_blocks@[k]).0,
        )
}

/// All chunks are `block_size` bytes, the verifier can be asked, and the
/// coefficients that the paths call for exist.
pub open spec fn input_ok<V: Fn(&[u8]) -> bool>(input: RecoveryInput<V>, block_size: nat) -> bool {
    &&& input.corrupt_block@.len() == block_size
    &&& all_len(input.other_blocks@, block_size)
    &&& input.p_block is Some ==> input.p_block.unwrap()@.len() == block_size
    &&& input.q_block is Some ==> input.q_block.unwrap()@.len() == block_size
    &&& coefficients_exist(input)
    &&& verifies_blocks(*input.verifier, block_size)
}

/// Every slot has a representable column.
pub open spec fn slots_fit(blocks: Seq<(u64, Vec<u8>)>) -> bool {
    forall|k: int|
        0 <= k < blocks.len() ==> ((#[trigger] blocks[k]).0 as i32) > i32::MIN
}

// ---------------------------------------------------------------------------
// Byte kernels
// ---------------------------------------------------------------------------

/// `a ^= b` byte-wise.
pub(crate) fn xor_inplace(a: &mut Vec<u8>, b: &[u8])
    requires
        old(a)@.len() == b@.len(),
    ensures
        final(a)@ == Seq::new(b@.len(), |i: int| old(a)@[i] ^ b@[i]),
{
    let n: usize = a.len();
    let mut i: usize = 0;
    while i < n
        invariant
            i <= n,
            n == a@.len(),
            n == b@.len(),
            n == old(a)@.len(),
            forall|k: int| 0 <= k < i ==> #[trigger] a@[k] == old(a)@[k] ^ b@[k],
            forall|k: int| i <= k < n ==> #[trigger] a@[k] == old(a)@[k],
        decreases n - i,
    {
        let x: u8 = a[i] ^ b[i];
        a.set(i, x);
        i = i + 1;
    }
}

/// `a ^= coef * b` byte-wise in GF(2^8).
pub(crate) fn gf_mul_xor_inplace(a: &mut Vec<u8>, b: &[u8], coef: u8)
    requires
        old(a)@.len() == b@.len(),
    ensures
        final(a)@ == Seq::new(b@.len(), |i: int| old(a)@[i] ^ gf::gmul(coef, b@[i])),
{
    let table = gf::gfmul_row(coef);
    let n: usize = a.len();
    let mut i: usize = 0;
    while i < n
        invariant
            i <= n,
            n == a@.len(),
            n == b@.len(),
            n == old(a)@.len(),
            forall|y: int| 0 <= y < 256 ==> #[trigger] table@[y] == gf::gmul(coef, y as u8),
            forall|k: int| 0 <= k < i ==> #[trigger] a@[k] == old(a)@[k] ^ gf::gmul(coef, b@[k]),
            forall|k: int| i <= k < n ==> #[trigger] a@[k] == old(a)@[k],
        decreases n - i,
    {
        let x: u8 = a[i] ^ table[b[i] as usize];
        a.set(i, x);
        i = i + 1;
    }
}

/// `dest = coef * src` byte-wise in GF(2^8).
pub(crate) fn gf_mul_into(dest: &mut Vec<u8>, src: &[u8], coef: u8)
    requires
        old(dest)@.len() == src@.len(),
    ensures
        final(dest)@ == Seq::new(src@.len(), |i: int| gf::gmul(coef, src@[i])),
{
    let table = gf::gfmul_row(coef);
    let n: usize = dest.len();
    let mut i: usize = 0;
    while i < n
        invariant
            i <= n,
            n == dest@.len(),
            n == src@.len(),
            forall|y: int| 0 <= y < 256 ==> #[trigger] table@[y] == gf::gmul(coef, y as u8),
            forall|k: int| 0 <= k < i ==> #[trigger] dest@[k] == gf::gmul(coef, src@[k]),
        decreases n - i,
    {
        dest.set(i, table[src[i] as usize]);
        i = i + 1;
    }
}

// ---------------------------------------------------------------------------
// Reconstruction
// ---------------------------------------------------------------------------

/// Reconstructs one block via P-only XOR: `D_k = P XOR XOR_{j != k} D_j`.
pub fn recover_via_p(
    corrupt: &[u8],
    other_blocks: &[(u64, Vec<u8>)],
    p_block: &[u8],
    block_size: usize,
) -> (r: Vec<u8>)
    requires
        corrupt@.len() == block_size,
        p_block@.len() == block_size,
        all_len(other_blocks@, block_size as nat),
    ensures
        r@ == p_candidate(other_blocks@, p_block@),
{
    let mut recovered: Vec<u8> = vec![0u8; block_size];
    let n: usize = other_blocks.len();
    let mut k: usize = 0;
    while k < n
        invariant
            k <= n,
            n == other_blocks@.len(),
            all_len(other_blocks@, block_size as nat),
            recovered@.len() == block_size,
            forall|i: int|
                0 <= i < block_size ==> #[trigger] recovered@[i] == xor_all(
                    other_blocks@.take(k as int),
                    i,
                ),
        decreases n - k,
    {
        proof {
            assert(other_blocks@.take(k + 1).drop_last() =~= other_blocks@.take(k as int));
            assert(other_blocks@.take(k + 1).last() == other_blocks@[k as int]);
        }
        xor_inplace(&mut recovered, other_blocks[k].1.as_slice());
        k = k + 1;
    }
    proof {
        assert(other_blocks@.take(n as int) =~= other_blocks@);
    }
    xor_inplace(&mut recovered, p_block);
    assert(recovered@ =~= p_candidate(other_blocks@, p_block@));
    recovered
}

/// The block that Q and the other disks determine.
pub fn q_reconstruct(
    other_blocks: &[(u64, Vec<u8>)],
    q_block: &[u8],
    failing_slot: u64,
    block_size: usize,
) -> (r: Vec<u8>)
    requires
        q_block@.len() == block_size,
        all_len(other_blocks@, block_size as nat),
        slot_fits(failing_slot),
        slots_fit(other_blocks@),
    ensures
        r@ == q_candidate(other_blocks@, q_block@, failing_slot),
{
    let m: u8 = gf::gf_exp(-((failing_slot as i32) - 1));
    let mut acc: Vec<u8> = slice_to_vec(q_block);
    let n: usize = other_blocks.len();
    let mut k: usize = 0;
    proof {
        assert forall|i: int| 0 <= i < block_size implies #[trigger] acc@[i] == q_block@[i]
            ^ q_sum(other_blocks@.take(0), i) by {
            gf::lemma_xor(q_block@[i], 0, 0);
        }
    }
    while k < n
        invariant
            k <= n,
            n == other_blocks@.len(),
            all_len(other_blocks@, block_size as nat),
            slots_fit(other_blocks@),
            q_block@.len() == block_size,
            acc@.len() == block_size,
            forall|i: int|
                0 <= i < block_size ==> #[trigger] acc@[i] == q_block@[i] ^ q_sum(
                    other_blocks@.take(k as int),
                    i,
                ),
        decreases n - k,
    {
        let slot: u64 = other_blocks[k].0;
        let coef: u8 = gf::gf_exp((slot as i32) - 1);
        let ghost before = acc@;
        gf_mul_xor_inplace(&mut acc, other_blocks[k].1.as_slice(), coef);
        proof {
            assert(other_blocks@.take(k + 1).drop_last() =~= other_blocks@.take(k as int));
            assert(other_blocks@.take(k + 1).last() == other_blocks@[k as int]);
            assert forall|i: int| 0 <= i < block_size implies #[trigger] acc@[i] == q_block@[i]
                ^ q_sum(other_blocks@.take(k + 1), i) by {
                assert(before[i] == q_block@[i] ^ q_sum(other_blocks@.take(k as int), i));
                gf::lemma_xor(
                    q_block@[i],
                    q_sum(other_blocks@.take(k as int), i),
                    gf::gmul(coef, other_blocks@[k as int].1@[i]),
                );
            }
        }
        k = k + 1;
    }
    proof {
        assert(other_blocks@.take(n as int) =~= other_blocks@);
    }
    let mut recovered: Vec<u8> = vec![0u8; block_size];
    gf_mul_into(&mut recovered, acc.as_slice(), m);
    assert(recovered@ =~= q_candidate(other_blocks@, q_block@, failing_slot));
    recovered
}

/// Result of the Q-only reconstruction attempt.
#[derive(Debug)]
pub enum QOutcome {
    /// Reconstruction passed the verifier.
    Recovered { block: Vec<u8> },
    /// Reconstruction equals the corrupt block: Q was recomputed from it.
    BakedIn,
    /// Reconstruction did not pass the verifier.
    CsumMismatch,
}

/// Reconstructs one block via Q-only GF(2^8) math:
/// `D_k = g^-(k-1) * (Q XOR XOR_{j != k} g^(j-1) * D_j)`.
pub fn recover_via_q<V: Fn(&[u8]) -> bool>(
    other_blocks: &[(u64, Vec<u8>)],
    q_block: &[u8],
    failing_slot: u64,
    block_size: usize,
    verifier: &V,
    corrupt: &[u8],
) -> (r: QOutcome)
    requires
        q_block@.len() == block_size,
        all_len(other_blocks@, block_size as nat),
        slot_fits(failing_slot),
        slots_fit(other_blocks@),
        verifies_blocks(*verifier, block_size as nat),
    ensures
        ({
            let candidate = q_candidate(other_blocks@, q_block@, failing_slot);
            match r {
                QOutcome::BakedIn => candidate == corrupt@,
                QOutcome::Recovered { block } => candidate != corrupt@ && block@ == candidate
                    && accepts(*verifier, candidate),
                QOutcome::CsumMismatch => candidate != corrupt@ && rejects(*verifier, candidate),
            }
        }),
{
    let recovered = q_reconstruct(other_blocks, q_block, failing_slot, block_size);

    // Recovered == corrupt means Q was recomputed from the corrupt bytes: the
    // reconstruction carries no new information.
    if bytes::bytes_equal(recovered.as_slice(), corrupt) {
        return QOutcome::BakedIn;
    }
    if verifier(recovered.as_slice()) {
        QOutcome::Recovered { block: recovered }
    } else {
        QOutcome::CsumMismatch
    }
}

/// Solves a two-disk corruption from P and Q: two equations in the two unknown
/// blocks (failing disk and one partner). Returns the failing disk's block
/// only; `None` where the two slots are not two data columns.
pub fn solve_two_disk(
    p_block: &[u8],
    q_block: &[u8],
    other_blocks: &[(u64, Vec<u8>)],
    partner_slot: u64,
    failing_slot: u64,
    block_size: usize,
) -> (r: Option<Vec<u8>>)
    requires
        p_block@.len() == block_size,
        q_block@.len() == block_size,
        all_len(other_blocks@, block_size as nat),
        slots_fit(other_blocks@),
        two_disk_fits(failing_slot, partner_slot),
    ensures
        r is Some <==> two_disk_solvable(failing_slot, partner_slot),
        r matches Some(block) ==> block@ == pq_candidate(
            other_blocks@,
            p_block@,
            q_block@,
            failing_slot,
            partner_slot,
        ),
{
    // The two failed slots as 0-based column exponents, ascending by slot.
    let a: i32 = if failing_slot < partner_slot {
        (failing_slot as i32) - 1
    } else {
        (partner_slot as i32) - 1
    };
    let b: i32 = if failing_slot < partner_slot {
        (partner_slot as i32) - 1
    } else {
        (failing_slot as i32) - 1
    };
    if a < 0 || b < 0 || a == b {
        return None;
    }
    let m: i32 = (b - a) % 255;
    let diff: usize = if m < 0 { (m + 255) as usize } else { m as usize };
    assert(diff == (b - a) % 255);
    let gfexi = gf::build_gfexi();
    let gfexp = gf::build_gfexp();
    let pbmul_coef: u8 = gfexi[diff];
    let spread: u8 = gfexp[a as usize] ^ gfexp[b as usize];
    let qmul_coef: u8 = gf::gf_inv(spread);
    let pbmul = gf::gfmul_row(pbmul_coef);
    let qmul = gf::gfmul_row(qmul_coef);

    // Syndromes of the good disks only; XORing them out of P and Q isolates
    // the two unknowns.
    let mut p_zero: Vec<u8> = vec![0u8; block_size];
    let mut q_zero: Vec<u8> = vec![0u8; block_size];
    let n: usize = other_blocks.len();
    let mut k: usize = 0;
    while k < n
        invariant
            k <= n,
            n == other_blocks@.len(),
            all_len(other_blocks@, block_size as nat),
            slots_fit(other_blocks@),
            p_zero@.len() == block_size,
            q_zero@.len() == block_size,
            forall|i: int|
                0 <= i < block_size ==> #[trigger] p_zero@[i] == xor_except(
                    other_blocks@.take(k as int),
                    partner_slot,
                    failing_slot,
                    i,
                ),
            forall|i: int|
                0 <= i < block_size ==> #[trigger] q_zero@[i] == q_except(
                    other_blocks@.take(k as int),
                    partner_slot,
                    failing_slot,
                    i,
                ),
        decreases n - k,
    {
        proof {
            assert(other_blocks@.take(k + 1).drop_last() =~= other_blocks@.take(k as int));
            assert(other_blocks@.take(k + 1).last() == other_blocks@[k as int]);
        }
        let slot: u64 = other_blocks[k].0;
        if slot != partner_slot && slot != failing_slot {
            xor_inplace(&mut p_zero, other_blocks[k].1.as_slice());
            let coef: u8 = gf::gf_exp((slot as i32) - 1);
            gf_mul_xor_inplace(&mut q_zero, other_blocks[k].1.as_slice(), coef);
        }
        k = k + 1;
    }
    proof {
        assert(other_blocks@.take(n as int) =~= other_blocks@);
    }
    let mut delta_p: Vec<u8> = slice_to_vec(p_block);
    xor_inplace(&mut delta_p, p_zero.as_slice());
    let mut delta_q: Vec<u8> = slice_to_vec(q_block);
    xor_inplace(&mut delta_q, q_zero.as_slice());

    // Solve for d_b (column b); d_a follows since delta_p = d_a XOR d_b.
    let mut d_b: Vec<u8> = vec![0u8; block_size];
    let mut i: usize = 0;
    while i < block_size
        invariant
            i <= block_size,
            d_b@.len() == block_size,
            delta_p@.len() == block_size,
            delta_q@.len() == block_size,
            forall|y: int| 0 <= y < 256 ==> #[trigger] pbmul@[y] == gf::gmul(pbmul_coef, y as u8),
            forall|y: int| 0 <= y < 256 ==> #[trigger] qmul@[y] == gf::gmul(qmul_coef, y as u8),
            forall|j: int|
                0 <= j < i ==> #[trigger] d_b@[j] == gf::gmul(pbmul_coef, delta_p@[j]) ^ gf::gmul(
                    qmul_coef,
                    delta_q@[j],
                ),
        decreases block_size - i,
    {
        let x: u8 = pbmul[delta_p[i] as usize] ^ qmul[delta_q[i] as usize];
        d_b.set(i, x);
        i = i + 1;
    }
    if failing_slot < partner_slot {
        xor_inplace(&mut d_b, delta_p.as_slice());
    }
    assert(d_b@ =~= pq_candidate(other_blocks@, p_block@, q_block@, failing_slot, partner_slot));
    Some(d_b)
}

/// Recovers one corrupt block, trying every parity path in order: P only, Q
/// only, then a P/Q two-disk solve against each other disk.
///
/// Returns `Recovered` for the first candidate the verifier accepts,
/// `NotCorrupt` if the failing block already verifies, or `Failed` with the
/// aggregated reasons.
pub fn recover_block<V: Fn(&[u8]) -> bool>(input: &RecoveryInput<'_, V>, block_size: usize) -> (r:
    RecoveryResult)
    requires
        input_ok(*input, block_size as nat),
    ensures
        recovery_outcome(*input, r),
{
    // Failing block already passes the verifier: the scrub raced a rewrite and
    // there is nothing to recover. With an unreadable source the block is a
    // placeholder, so neither this nor the baked-in detections apply.
    let corrupt = input.corrupt_block;
    let unreadable = input.unreadable_source;
    if !unreadable {
        if (input.verifier)(corrupt) {
            return RecoveryResult::NotCorrupt;
        }
    }
    assert(on_disk_failed(*input));

    let p_found: FailureReason = match input.p_block {
        None => FailureReason::ParityAbsent { via: ParityPath::P },
        Some(p_block) => {
            let candidate = recover_via_p(corrupt, input.other_blocks, p_block, block_size);
            // A reconstruction that reproduces the corrupt bytes means P was
            // recomputed from them and carries no new information.
            if !unreadable && bytes::bytes_equal(candidate.as_slice(), corrupt) {
                FailureReason::ParityBakedIn { via: ParityPath::P }
            } else {
                if (input.verifier)(candidate.as_slice()) {
                    return RecoveryResult::Recovered { via: ParityPath::P, block: candidate };
                }
                FailureReason::CsumMismatch { via: ParityPath::P }
            }
        },
    };
    assert(p_failed(*input) && p_found == p_reason(*input));

    let q_found: FailureReason = match input.q_block {
        None => FailureReason::ParityAbsent { via: ParityPath::Q },
        Some(q_block) => {
            // Nothing to compare against for unreadable sources, so the
            // baked-in comparison cannot fire on the placeholder.
            let empty: Vec<u8> = Vec::new();
            let q_corrupt: &[u8] = if unreadable { empty.as_slice() } else { corrupt };
            assert(q_corrupt@ =~= q_reference(*input));
            match recover_via_q(
                input.other_blocks,
                q_block,
                input.failing_slot,
                block_size,
                input.verifier,
                q_corrupt,
            ) {
                QOutcome::Recovered { block } => {
                    return RecoveryResult::Recovered { via: ParityPath::Q, block };
                },
                QOutcome::BakedIn => FailureReason::ParityBakedIn { via: ParityPath::Q },
                QOutcome::CsumMismatch => FailureReason::CsumMismatch { via: ParityPath::Q },
            }
        },
    };
    assert(q_failed(*input) && q_found == q_reason(*input));

    // Two-disk solve: both blocks unknown, so try each other disk as the
    // partner; the verifier identifies the right one.
    if let (Some(p_block), Some(q_block)) = (input.p_block, input.q_block) {
        let mut partners_tried: Vec<u64> = Vec::new();
        let n: usize = input.other_blocks.len();
        let mut k: usize = 0;
        while k < n
            invariant
                k <= n,
                n == input.other_blocks@.len(),
                input_ok(*input, block_size as nat),
                input.p_block == Some(p_block),
                input.q_block == Some(q_block),
                on_disk_failed(*input),
                p_failed(*input),
                q_failed(*input),
                partners_tried@ == other_slots(*input).take(k as int),
                forall|m: int| 0 <= m < k ==> #[trigger] partner_failed(*input, m),
            decreases n - k,
        {
            let partner_slot: u64 = input.other_blocks[k].0;
            assert(partner_reached(*input, k as int));
            partners_tried.push(partner_slot);
            assert(partners_tried@ =~= other_slots(*input).take(k + 1));
            match solve_two_disk(
                p_block,
                q_block,
                input.other_blocks,
                partner_slot,
                input.failing_slot,
                block_size,
            ) {
                Some(candidate) => {
                    assert(candidate@ == partner_candidate(*input, k as int));
                    if (input.verifier)(candidate.as_slice()) {
                        return RecoveryResult::Recovered {
                            via: ParityPath::PQ { partner_slot },
                            block: candidate,
                        };
                    }
                },
                None => {},
            }
            assert(partner_failed(*input, k as int));
            k = k + 1;
        }
        assert(other_slots(*input).take(n as int) =~= other_slots(*input));
        return RecoveryResult::Failed {
            reason: FailureReason::AllPathsFailed {
                p_reason: Box::new(p_found),
                q_reason: Box::new(q_found),
                pq_partners_tried: partners_tried,
            },
        };
    }
    // No Q disk (single-parity array): report the P failure directly. P absent
    // but Q present: no pair was possible, so both single-path reasons stand
    // with an empty partner list.

    RecoveryResult::Failed {
        reason: if input.q_block.is_none() {
            FailureReason::NoQPathAndPFailed { p_reason: Box::new(p_found) }
        } else {
            FailureReason::AllPathsFailed {
                p_reason: Box::new(p_found),
                q_reason: Box::new(q_found),
                pq_partners_tried: Vec::new(),
            }
        },
    }
}

} // verus!
