//! Filesystem-scrub contract: what a filesystem implementation must provide so
//! that scrubbing and parity recovery can be driven without knowing the on-disk
//! format.

use vstd::prelude::*;

use crate::btrfs::csum_strategy;
use crate::btrfs::csum_strategy::CsumStrategy;

verus! {

/// Tells whether a candidate is the correct original data for a sector: its
/// checksum equals the stored one.
#[derive(Debug)]
pub struct SectorVerifier {
    pub strategy: CsumStrategy,
    pub stored: Vec<u8>,
}

impl SectorVerifier {
    /// Whether `candidate` is the correct original data.
    pub fn accepts(&self, candidate: &[u8]) -> (r: bool)
        requires
            csum_strategy::supported(self.strategy.csum_type),
        ensures
            r == (self.strategy.csum(candidate@) == self.stored@),
    {
        self.strategy.matches(self.stored.as_slice(), candidate)
    }
}

/// Recovery payload for one mismatched sector, emitted by the scrub.
#[derive(Debug)]
pub struct ScrubEvent {
    /// Byte offset on the failing disk's array partition (/dev/nmdNp1 space).
    pub array_phys: u64,
    /// Sector size in bytes (4096 for btrfs).
    pub block_size: usize,
    /// Verifier for this sector; None when it has no stored checksum (recovery
    /// must be skipped).
    pub verify: Option<SectorVerifier>,
    /// Opaque re-confirmation request for write-time re-checking; None when
    /// there is no stored checksum.
    pub reconfirm: Option<ReconfirmRequest>,
    /// The sector was unreadable (device EIO): the corrupt bytes are unknown, so
    /// recovery uses a zero placeholder and must not re-read the disk.
    pub unreadable: bool,
}

/// Filesystem-opaque re-confirmation request; interpreted only by the
/// filesystem's own Reconfirmer at write time.
#[derive(Debug)]
pub struct ReconfirmRequest {
    /// Filesystem-internal location token (btrfs: the logical address).
    pub token: u64,
    /// Expected checksum bytes from the scrub's snapshot.
    pub stored_csum: Vec<u8>,
}

/// Verdict of a deferred re-confirmation at write time.
#[derive(Debug, Clone, Copy, PartialEq, Eq, Structural)]
pub enum Reconfirm {
    /// Still genuinely corrupt: recover and write.
    Corruption,
    /// Sector freed or rewritten since the scan: nothing to write.
    Stale,
    /// Live metadata unreadable: skip just this sector.
    Unverifiable,
}

/// Filesystem-owned handle that re-confirms deferred mismatches against live
/// metadata at write time; independent of the scrub's reader.
pub trait Reconfirmer: Send {
    fn reconfirm(&mut self, req: &ReconfirmRequest) -> Reconfirm;
}

/// Rollup of one scrub run, equivalent to btrfs scrub's per-device summary.
#[derive(Debug, Clone, Copy, PartialEq, Eq, Structural)]
pub struct ScrubStats {
    pub sectors_checked: u64,
    pub sectors_ok: u64,
    pub sectors_mismatch: u64,
    pub sectors_no_csum: u64,
    pub sectors_read_error: u64,
    /// Mismatches whose extent is no longer live (freed/rewritten or written
    /// nodatasum): benign churn, not corruption.
    pub sectors_stale: u64,
    /// CSUM-tree branches skipped as stale mid-scrub; those sectors were never
    /// verified this run.
    pub stale_csum_branches: u64,
    /// Read runs truncated when the EIO isolation budget was exhausted.
    pub isolation_truncated: u64,
    pub bytes_checked: u64,
    /// Metadata nodes whose every mirror copy failed header-checksum
    /// verification: traversal coverage was lost.
    pub metadata_header_errors: u64,
    /// Mirrored metadata nodes whose copies disagreed (a good copy existed):
    /// reported, not silently healed.
    pub metadata_mirror_mismatches: u64,
    /// Metadata nodes that failed with a read (EIO) error: hardware, not
    /// corruption.
    pub metadata_read_errors: u64,
}

impl ScrubStats {
    /// All counts are zero.
    pub open spec fn zero() -> ScrubStats {
        ScrubStats {
            sectors_checked: 0,
            sectors_ok: 0,
            sectors_mismatch: 0,
            sectors_no_csum: 0,
            sectors_read_error: 0,
            sectors_stale: 0,
            stale_csum_branches: 0,
            isolation_truncated: 0,
            bytes_checked: 0,
            metadata_header_errors: 0,
            metadata_mirror_mismatches: 0,
            metadata_read_errors: 0,
        }
    }
}

impl Default for ScrubStats {
    fn default() -> (r: Self)
        ensures
            r == ScrubStats::zero(),
    {
        ScrubStats {
            sectors_checked: 0,
            sectors_ok: 0,
            sectors_mismatch: 0,
            sectors_no_csum: 0,
            sectors_read_error: 0,
            sectors_stale: 0,
            stale_csum_branches: 0,
            isolation_truncated: 0,
            bytes_checked: 0,
            metadata_header_errors: 0,
            metadata_mirror_mismatches: 0,
            metadata_read_errors: 0,
        }
    }
}

/// Sink for the two streams a scrub produces: log lines and recovery events.
pub trait ScrubCallbacks {
    /// Receives a free-form, fully formatted diagnostic line.
    fn on_log(&mut self, line: &str);

    /// Receives the recovery payload for one mismatched sector.
    fn on_event(&mut self, ev: &ScrubEvent);

    /// True when the sink classifies mismatches itself (deferred
    /// re-confirmation); the scrub then emits every mismatch raw.
    fn wants_raw_candidates(&self) -> (r: bool)
        default_ensures
            !r,
    {
        false
    }
}

} // verus!
