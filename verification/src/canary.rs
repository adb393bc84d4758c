//! Startup array probe: reconstruct a known block from parity and let the
//! caller verify it, to catch a miswired array before recovery.

use vstd::prelude::*;

use crate::array::config::ArrayConfig;
use crate::array::stripe;
use crate::recovery::engine;

verus! {

/// Why the probe block could not be reconstructed.
#[derive(Debug)]
pub enum CanaryError<E> {
    /// A disk could not be read.
    Read(E),
    /// No primary parity disk present: the parity canary cannot run.
    NoParity,
}

/// What the probe says of the array.
#[derive(Debug)]
pub enum Verdict<E> {
    /// The rebuilt superblock carries the filesystem's magic.
    Sound,
    /// A superblock was rebuilt, and does not carry the magic.
    NoMagic,
    /// No superblock was rebuilt.
    NotRebuilt(CanaryError<E>),
}

/// Judges the array by what came of rebuilding the target's superblock: anything
/// but a block that carries the filesystem's magic ends the run.
pub fn judge<E, M: Fn(&[u8]) -> bool>(
    rebuilt: Result<Vec<u8>, CanaryError<E>>,
    has_magic: &M,
) -> (r: Verdict<E>)
    requires
        rebuilt matches Ok(block) ==> forall|s: &[u8]|
            s@ == block@ ==> #[trigger] call_requires(*has_magic, (s,)),
    ensures
        match rebuilt {
            Ok(block) => exists|s: &[u8], carried: bool|
                {
                    &&& #[trigger] call_ensures(*has_magic, (s,), carried)
                    &&& s@ == block@
                    &&& r == (if carried {
                        Verdict::<E>::Sound
                    } else {
                        Verdict::<E>::NoMagic
                    })
                },
            Err(e) => r == Verdict::NotRebuilt(e),
        },
{
    match rebuilt {
        Ok(block) => {
            let carried = has_magic(block.as_slice());
            if carried {
                Verdict::Sound
            } else {
                Verdict::NoMagic
            }
        },
        Err(e) => Verdict::NotRebuilt(e),
    }
}

/// Reconstructs the `block_size` bytes at `array_phys` on `failing_slot` from
/// the other data disks plus primary parity (P-only XOR). The disk itself is not
/// read. The caller decides whether the result is correct (e.g. byte-compare
/// against the expected superblock block).
pub fn reconstruct_block<
    E,
    S: Fn(&String) -> Result<u64, E>,
    R: Fn(&String, u64, usize) -> Result<Vec<u8>, E>,
>(
    config: &ArrayConfig,
    failing_slot: u64,
    array_phys: u64,
    block_size: usize,
    size: &S,
    read: &R,
) -> (r: Result<Vec<u8>, CanaryError<E>>)
    requires
        stripe::stripe_answers(*config, failing_slot, *size, *read),
        stripe::offset_fits(*config, array_phys),
    ensures
        match r {
            Ok(block) => exists|c: stripe::StripeChunks|
                {
                    &&& #[trigger] stripe::gathered::<E, S, R>(
                        *config,
                        failing_slot,
                        array_phys,
                        block_size,
                        *size,
                        *read,
                        c,
                    )
                    &&& stripe::chunks_of(*config, failing_slot, block_size, c)
                    &&& c.p_block matches Some(p) && block@ == engine::p_candidate(
                        c.other_data@,
                        p@,
                    )
                },
            Err(CanaryError::NoParity) => config.parity_p is None && exists|c: stripe::StripeChunks|
                #[trigger] stripe::gathered::<E, S, R>(
                    *config,
                    failing_slot,
                    array_phys,
                    block_size,
                    *size,
                    *read,
                    c,
                ),
            Err(CanaryError::Read(e)) => stripe::gather_error(
                *config,
                failing_slot,
                array_phys,
                block_size,
                *size,
                *read,
                e,
            ),
        },
{
    let chunks = match stripe::gather_stripe(
        config,
        failing_slot,
        array_phys,
        block_size,
        size,
        read,
    ) {
        Ok(c) => c,
        Err(e) => {
            return Err(CanaryError::Read(e));
        },
    };
    let p_block = match &chunks.p_block {
        Some(p) => p.as_slice(),
        None => {
            return Err(CanaryError::NoParity);
        },
    };
    // The corrupt argument is unused by the P-only math; pass zeros.
    let blank: Vec<u8> = vec![0u8; block_size];
    Ok(
        engine::recover_via_p(
            blank.as_slice(),
            chunks.other_data.as_slice(),
            p_block,
            block_size,
        ),
    )
}

} // verus!
