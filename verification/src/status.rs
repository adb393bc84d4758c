//! Live scrub and recovery counters, and the status page that shows them.

use vstd::prelude::*;

use crate::batch_recover::Outcome;
use crate::btrfs::scrub::ScrubStats;
use crate::text;

verus! {

/// Live scrub/recovery counters shown by the status server.
#[derive(Debug)]
pub struct StatusCounters {
    pub sectors_checked: u64,
    pub sectors_ok: u64,
    pub sectors_no_csum: u64,
    pub sectors_read_error: u64,
    /// CSUM-tree branches skipped as stale mid-scrub.
    pub stale_csum_branches: u64,
    /// Read runs truncated when the EIO isolation budget ran out.
    pub isolation_truncated: u64,
    pub bytes_checked: u64,
    /// Confirmed mismatch tally (snapshot: sectors_mismatch).
    pub mismatch: u64,
    /// Benign stale-churn tally (snapshot: sectors_stale).
    pub stale: u64,
    /// Nodes whose every mirror failed header verification.
    pub metadata_header_errors: u64,
    /// Nodes whose mirrors diverged.
    pub metadata_mirror_mismatches: u64,
    /// Nodes that could not be read.
    pub metadata_read_errors: u64,
    /// Recovery verdicts from the batch writer.
    pub recovered: u64,
    pub failed: u64,
    pub skipped: u64,
    /// Candidates recovered but not written because the batch could not freeze.
    pub not_frozen: u64,
    /// Recovered blocks whose read-back verification failed.
    pub readback_failed: u64,
    /// Candidates already matching their checksum by write time.
    pub not_corrupt: u64,
    /// Duplicate candidates dropped within a batch.
    pub deduped: u64,
    /// Set once a recovered block was written while the filesystem was live.
    pub repaired_while_mounted: u64,
    /// 1 once recovery mode is active.
    pub recovery: u64,
    /// Bytes to scrub.
    pub progress_total: u64,
    /// Bytes scrubbed.
    pub progress_done: u64,
    /// State and device lines of the status page.
    pub state: String,
    pub device: String,
}

/// A metadata failure as the status page counts it.
#[derive(Debug, Clone, Copy, PartialEq, Eq, Structural)]
pub enum MetadataKind {
    HeaderError,
    MirrorMismatch,
    ReadError,
    StaleBranch,
}

// ---------------------------------------------------------------------------
// Text of the page
// ---------------------------------------------------------------------------

/// One `key=value` line.
pub open spec fn line(name: Seq<char>, value: Seq<char>) -> Seq<char> {
    name + "="@ + value + "\n"@
}

/// One `key=number` line.
pub open spec fn number(name: Seq<char>, value: u64) -> Seq<char> {
    line(name, text::decimal(value as nat))
}

/// Thousandths of a percent done, at most 100 percent; all of it while nothing
/// is queued.
pub open spec fn progress_milli(done: u64, total: u64) -> int {
    if total == 0 {
        100_000
    } else if done as int * 100_000 / total as int > 100_000 {
        100_000
    } else {
        done as int * 100_000 / total as int
    }
}

/// `n` doubled until its quotient by 1000 has 53 bits.
pub open spec fn scaled(n: int) -> int
    decreases 9_007_199_254_740_992_000 - n,
{
    if n <= 0 || n >= 4_503_599_627_370_496_000 {
        n
    } else {
        scaled(2 * n)
    }
}

/// Whether the double nearest to `milli / 1000` lies below it (-1), above it
/// (1), or is equal to it (0).
pub open spec fn double_side(milli: int) -> int {
    let n = scaled(milli);
    let rem = n % 1000;
    if rem == 0 {
        0
    } else if rem > 500 || (rem == 500 && (n / 1000) % 2 == 1) {
        1
    } else {
        -1
    }
}

/// Hundredths of a percent: thousandths rounded to the nearest, where the half
/// goes the way of the double that stands for the value, and to even if that
/// double is exact.
pub open spec fn hundredths(milli: int) -> int {
    let q = milli / 10;
    let r = milli % 10;
    if r < 5 {
        q
    } else if r > 5 {
        q + 1
    } else if double_side(milli) > 0 || (double_side(milli) == 0 && q % 2 == 1) {
        q + 1
    } else {
        q
    }
}

/// The percentage with two decimals.
pub open spec fn percent_text(done: u64, total: u64) -> Seq<char> {
    let h = hundredths(progress_milli(done, total));
    text::decimal((h / 100) as nat) + "."@ + seq![
        text::digit((h / 10 % 10) as nat),
        text::digit((h % 10) as nat),
    ]
}

/// The status page: one line per counter.
pub open spec fn snapshot_text(c: StatusCounters) -> Seq<char> {
    line("state"@, c.state@)
        + line("device"@, c.device@)
        + number("sectors_checked"@, c.sectors_checked)
        + number("sectors_ok"@, c.sectors_ok)
        + number("sectors_mismatch"@, c.mismatch)
        + number("sectors_stale"@, c.stale)
        + number("sectors_no_csum"@, c.sectors_no_csum)
        + number("sectors_read_error"@, c.sectors_read_error)
        + number("stale_csum_branches"@, c.stale_csum_branches)
        + number("isolation_truncated"@, c.isolation_truncated)
        + number("bytes_checked"@, c.bytes_checked)
        + number("metadata_header_errors"@, c.metadata_header_errors)
        + number("metadata_mirror_mismatches"@, c.metadata_mirror_mismatches)
        + number("metadata_read_errors"@, c.metadata_read_errors)
        + number("recovered"@, c.recovered)
        + number("failed"@, c.failed)
        + number("skipped"@, c.skipped)
        + number("not_frozen"@, c.not_frozen)
        + number("readback_failed"@, c.readback_failed)
        + number("not_corrupt"@, c.not_corrupt)
        + number("deduped"@, c.deduped)
        + number("repaired_while_mounted"@, c.repaired_while_mounted)
        + number("recovery"@, c.recovery)
        + number("progress_total"@, c.progress_total)
        + number("progress_done"@, c.progress_done)
        + line("progress_pct"@, percent_text(c.progress_done, c.progress_total))
}

/// The bytes that start a request for the status page: `GET /status`.
pub const STATUS_REQUEST: [u8; 11] = [
    0x47,
    0x45,
    0x54,
    0x20,
    0x2f,
    0x73,
    0x74,
    0x61,
    0x74,
    0x75,
    0x73,
];

/// The request asks for the status page.
pub open spec fn asks_status(request: Seq<u8>) -> bool {
    request.len() >= 11 && request.take(11) == STATUS_REQUEST@
}

/// An HTTP response with its body.
pub open spec fn http_text(head: Seq<char>, body: Seq<char>, body_bytes: nat) -> Seq<char> {
    "HTTP/1.1 "@ + head + "\r\nContent-Length: "@ + text::decimal(body_bytes)
        + "\r\nContent-Type: text/plain\r\nConnection: close\r\n\r\n"@ + body
}

fn push_line(s: &mut String, name: &str, value: &str)
    ensures
        final(s)@ == old(s)@ + line(name@, value@),
{
    s.append(name);
    s.append("=");
    s.append(value);
    s.append("\n");
    assert(s@ =~= old(s)@ + line(name@, value@));
}

fn push_number(s: &mut String, name: &str, value: u64)
    ensures
        final(s)@ == old(s)@ + number(name@, value),
{
    s.append(name);
    s.append("=");
    text::push_decimal(s, value);
    s.append("\n");
    assert(s@ =~= old(s)@ + number(name@, value));
}

/// Doubles until the quotient by 1000 has 53 bits.
fn scale(milli: u128) -> (n: u128)
    requires
        milli <= 100_000,
    ensures
        n == scaled(milli as int),
{
    let mut n: u128 = milli;
    while n > 0 && n < 4_503_599_627_370_496_000
        invariant
            n < 9_007_199_254_740_992_000,
            scaled(n as int) == scaled(milli as int),
        decreases 9_007_199_254_740_992_000 - n,
    {
        n = n * 2;
    }
    n
}

impl StatusCounters {
    pub fn new() -> (r: Self)
        ensures
            r.sectors_checked == 0,
            r.sectors_ok == 0,
            r.sectors_no_csum == 0,
            r.sectors_read_error == 0,
            r.stale_csum_branches == 0,
            r.isolation_truncated == 0,
            r.bytes_checked == 0,
            r.mismatch == 0,
            r.stale == 0,
            r.metadata_header_errors == 0,
            r.metadata_mirror_mismatches == 0,
            r.metadata_read_errors == 0,
            r.recovered == 0,
            r.failed == 0,
            r.skipped == 0,
            r.not_frozen == 0,
            r.readback_failed == 0,
            r.not_corrupt == 0,
            r.deduped == 0,
            r.repaired_while_mounted == 0,
            r.recovery == 0,
            r.progress_total == 0,
            r.progress_done == 0,
            r.state@ == Seq::<char>::empty(),
            r.device@ == Seq::<char>::empty(),
    {
        StatusCounters {
            sectors_checked: 0,
            sectors_ok: 0,
            sectors_no_csum: 0,
            sectors_read_error: 0,
            stale_csum_branches: 0,
            isolation_truncated: 0,
            bytes_checked: 0,
            mismatch: 0,
            stale: 0,
            metadata_header_errors: 0,
            metadata_mirror_mismatches: 0,
            metadata_read_errors: 0,
            recovered: 0,
            failed: 0,
            skipped: 0,
            not_frozen: 0,
            readback_failed: 0,
            not_corrupt: 0,
            deduped: 0,
            repaired_while_mounted: 0,
            recovery: 0,
            progress_total: 0,
            progress_done: 0,
            state: String::new(),
            device: String::new(),
        }
    }

    pub fn set_state(&mut self, state: String)
        ensures
            *final(self) == (StatusCounters { state, ..*old(self) }),
    {
        self.state = state;
    }

    pub fn set_device(&mut self, device: String)
        ensures
            *final(self) == (StatusCounters { device, ..*old(self) }),
    {
        self.device = device;
    }

    pub fn set_recovery(&mut self, on: bool)
        ensures
            *final(self) == (StatusCounters { recovery: if on { 1 } else { 0 }, ..*old(self) }),
    {
        self.recovery = if on { 1 } else { 0 };
    }

    /// Counts one metadata failure.
    pub fn count_metadata(&mut self, kind: MetadataKind)
        ensures
            *final(self) == (match kind {
                MetadataKind::HeaderError => StatusCounters {
                    metadata_header_errors: old(self).metadata_header_errors.wrapping_add(1),
                    ..*old(self)
                },
                MetadataKind::MirrorMismatch => StatusCounters {
                    metadata_mirror_mismatches: old(self).metadata_mirror_mismatches.wrapping_add(
                        1,
                    ),
                    ..*old(self)
                },
                MetadataKind::ReadError => StatusCounters {
                    metadata_read_errors: old(self).metadata_read_errors.wrapping_add(1),
                    ..*old(self)
                },
                MetadataKind::StaleBranch => StatusCounters {
                    stale_csum_branches: old(self).stale_csum_branches.wrapping_add(1),
                    ..*old(self)
                },
            }),
    {
        match kind {
            MetadataKind::HeaderError => {
                self.metadata_header_errors = self.metadata_header_errors.wrapping_add(1);
            },
            MetadataKind::MirrorMismatch => {
                self.metadata_mirror_mismatches = self.metadata_mirror_mismatches.wrapping_add(1);
            },
            MetadataKind::ReadError => {
                self.metadata_read_errors = self.metadata_read_errors.wrapping_add(1);
            },
            MetadataKind::StaleBranch => {
                self.stale_csum_branches = self.stale_csum_branches.wrapping_add(1);
            },
        }
    }

    /// Counts one more run of the scrub.
    pub fn count_run(&mut self, run: &ScrubStats)
        ensures
            *final(self) == (StatusCounters {
                sectors_checked: old(self).sectors_checked.wrapping_add(run.sectors_checked),
                sectors_ok: old(self).sectors_ok.wrapping_add(run.sectors_ok),
                sectors_no_csum: old(self).sectors_no_csum.wrapping_add(run.sectors_no_csum),
                sectors_read_error: old(self).sectors_read_error.wrapping_add(
                    run.sectors_read_error,
                ),
                isolation_truncated: old(self).isolation_truncated.wrapping_add(
                    run.isolation_truncated,
                ),
                bytes_checked: old(self).bytes_checked.wrapping_add(run.bytes_checked),
                mismatch: old(self).mismatch.wrapping_add(run.sectors_mismatch),
                stale: old(self).stale.wrapping_add(run.sectors_stale),
                ..*old(self)
            }),
    {
        self.sectors_checked = self.sectors_checked.wrapping_add(run.sectors_checked);
        self.sectors_ok = self.sectors_ok.wrapping_add(run.sectors_ok);
        self.sectors_no_csum = self.sectors_no_csum.wrapping_add(run.sectors_no_csum);
        self.sectors_read_error = self.sectors_read_error.wrapping_add(run.sectors_read_error);
        self.isolation_truncated = self.isolation_truncated.wrapping_add(run.isolation_truncated);
        self.bytes_checked = self.bytes_checked.wrapping_add(run.bytes_checked);
        self.mismatch = self.mismatch.wrapping_add(run.sectors_mismatch);
        self.stale = self.stale.wrapping_add(run.sectors_stale);
    }

    /// Counts the bytes of an extent that is done.
    pub fn count_progress(&mut self, bytes: u64)
        ensures
            *final(self) == (StatusCounters {
                progress_done: old(self).progress_done.wrapping_add(bytes),
                ..*old(self)
            }),
    {
        self.progress_done = self.progress_done.wrapping_add(bytes);
    }

    /// The counters after one more candidate was dealt with.
    pub open spec fn reported(&self, outcome: Outcome, repaired_live: bool) -> StatusCounters {
        let entered = !(outcome is Stale) && !(outcome is Skipped);
        StatusCounters {
            mismatch: if entered { self.mismatch.wrapping_add(1) } else { self.mismatch },
            stale: if outcome is Stale { self.stale.wrapping_add(1) } else { self.stale },
            skipped: if outcome is Skipped { self.skipped.wrapping_add(1) } else { self.skipped },
            recovered: if outcome is Recovered {
                self.recovered.wrapping_add(1)
            } else {
                self.recovered
            },
            failed: if outcome is Failed { self.failed.wrapping_add(1) } else { self.failed },
            not_frozen: if outcome is NotFrozen {
                self.not_frozen.wrapping_add(1)
            } else {
                self.not_frozen
            },
            readback_failed: if outcome is ReadbackFailed {
                self.readback_failed.wrapping_add(1)
            } else {
                self.readback_failed
            },
            not_corrupt: if outcome is NotCorrupt {
                self.not_corrupt.wrapping_add(1)
            } else {
                self.not_corrupt
            },
            repaired_while_mounted: if repaired_live { 1 } else { self.repaired_while_mounted },
            ..*self
        }
    }

    /// Counts a candidate that was dealt with. A block written while the
    /// filesystem is mounted is noted for good.
    pub fn count_report(&mut self, outcome: Outcome, written: bool, has_live_mount: bool)
        ensures
            *final(self) == old(self).reported(outcome, written && has_live_mount),
    {
        match outcome {
            Outcome::Stale => {
                self.stale = self.stale.wrapping_add(1);
            },
            Outcome::Skipped => {
                self.skipped = self.skipped.wrapping_add(1);
            },
            Outcome::Recovered => {
                self.mismatch = self.mismatch.wrapping_add(1);
                self.recovered = self.recovered.wrapping_add(1);
            },
            Outcome::Failed => {
                self.mismatch = self.mismatch.wrapping_add(1);
                self.failed = self.failed.wrapping_add(1);
            },
            Outcome::NotFrozen => {
                self.mismatch = self.mismatch.wrapping_add(1);
                self.not_frozen = self.not_frozen.wrapping_add(1);
            },
            Outcome::ReadbackFailed => {
                self.mismatch = self.mismatch.wrapping_add(1);
                self.readback_failed = self.readback_failed.wrapping_add(1);
            },
            Outcome::NotCorrupt => {
                self.mismatch = self.mismatch.wrapping_add(1);
                self.not_corrupt = self.not_corrupt.wrapping_add(1);
            },
        }
        if written && has_live_mount {
            self.repaired_while_mounted = 1;
        }
    }

    /// Counts repeated reports that a batch dropped.
    pub fn count_deduped(&mut self, n: u64)
        ensures
            *final(self) == (StatusCounters {
                deduped: old(self).deduped.wrapping_add(n),
                ..*old(self)
            }),
    {
        self.deduped = self.deduped.wrapping_add(n);
    }

    /// Progress in thousandths of a percent.
    pub fn progress(&self) -> (r: u64)
        ensures
            r == progress_milli(self.progress_done, self.progress_total),
    {
        if self.progress_total == 0 {
            return 100_000;
        }
        let done: u128 = self.progress_done as u128;
        let milli: u128 = done * 100_000 / (self.progress_total as u128);
        if milli > 100_000 {
            100_000
        } else {
            milli as u64
        }
    }

    /// Progress in hundredths of a percent, as the page shows it.
    pub fn progress_hundredths(&self) -> (h: u64)
        ensures
            h == hundredths(progress_milli(self.progress_done, self.progress_total)),
            h <= 10_000,
    {
        let milli: u64 = self.progress();
        let q: u64 = milli / 10;
        let r: u64 = milli % 10;
        if r < 5 {
            return q;
        }
        if r > 5 {
            return q + 1;
        }
        let n: u128 = scale(milli as u128);
        let rem: u128 = n % 1000;
        let up = if rem == 0 {
            q % 2 == 1
        } else {
            rem > 500 || (rem == 500 && (n / 1000) % 2 == 1)
        };
        if up {
            q + 1
        } else {
            q
        }
    }

    /// Renders all counters as key=value text for the status page.
    pub fn snapshot(&self) -> (s: String)
        ensures
            s@ == snapshot_text(*self),
    {
        let mut s = String::new();
        push_line(&mut s, "state", self.state.as_str());
        assert(s@ =~= line("state"@, self.state@));
        push_line(&mut s, "device", self.device.as_str());
        push_number(&mut s, "sectors_checked", self.sectors_checked);
        push_number(&mut s, "sectors_ok", self.sectors_ok);
        push_number(&mut s, "sectors_mismatch", self.mismatch);
        push_number(&mut s, "sectors_stale", self.stale);
        push_number(&mut s, "sectors_no_csum", self.sectors_no_csum);
        push_number(&mut s, "sectors_read_error", self.sectors_read_error);
        push_number(&mut s, "stale_csum_branches", self.stale_csum_branches);
        push_number(&mut s, "isolation_truncated", self.isolation_truncated);
        push_number(&mut s, "bytes_checked", self.bytes_checked);
        push_number(&mut s, "metadata_header_errors", self.metadata_header_errors);
        push_number(&mut s, "metadata_mirror_mismatches", self.metadata_mirror_mismatches);
        push_number(&mut s, "metadata_read_errors", self.metadata_read_errors);
        push_number(&mut s, "recovered", self.recovered);
        push_number(&mut s, "failed", self.failed);
        push_number(&mut s, "skipped", self.skipped);
        push_number(&mut s, "not_frozen", self.not_frozen);
        push_number(&mut s, "readback_failed", self.readback_failed);
        push_number(&mut s, "not_corrupt", self.not_corrupt);
        push_number(&mut s, "deduped", self.deduped);
        push_number(&mut s, "repaired_while_mounted", self.repaired_while_mounted);
        push_number(&mut s, "recovery", self.recovery);
        push_number(&mut s, "progress_total", self.progress_total);
        push_number(&mut s, "progress_done", self.progress_done);
        let h: u64 = self.progress_hundredths();
        let mut pct = String::new();
        text::push_decimal(&mut pct, h / 100);
        pct.append(".");
        pct.push(text::digit_char((h / 10 % 10) as u32));
        pct.push(text::digit_char((h % 10) as u32));
        assert(pct@ =~= percent_text(self.progress_done, self.progress_total));
        push_line(&mut s, "progress_pct", pct.as_str());
        s
    }

    /// Answers one request: the status page for `GET /status`, not found for
    /// anything else. The content length counts the body's bytes.
    pub fn respond(&self, request: &[u8]) -> (s: String)
        ensures
            asks_status(request@) ==> s@ == http_text(
                "200 OK"@,
                snapshot_text(*self),
                vstd::utf8::encode_utf8(snapshot_text(*self)).len() as usize as nat,
            ),
            !asks_status(request@) ==> s@ == http_text(
                "404 Not Found"@,
                "not found\n"@,
                vstd::utf8::encode_utf8("not found\n"@).len() as usize as nat,
            ),
    {
        let magic: [u8; 11] = STATUS_REQUEST;
        let asked = request.len() >= 11 && crate::bytes::bytes_equal(
            vstd::slice::slice_subrange(request, 0, 11),
            magic.as_slice(),
        );
        assert(request@.len() >= 11 ==> request@.subrange(0, 11) =~= request@.take(11));
        let mut s = String::from_str("HTTP/1.1 ");
        if asked {
            let body = self.snapshot();
            s.append("200 OK");
            s.append("\r\nContent-Length: ");
            text::push_decimal(&mut s, body.as_str().len() as u64);
            s.append("\r\nContent-Type: text/plain\r\nConnection: close\r\n\r\n");
            s.append(body.as_str());
            assert(s@ =~= http_text(
                "200 OK"@,
                body@,
                vstd::utf8::encode_utf8(body@).len() as usize as nat,
            ));
        } else {
            let body = "not found\n";
            s.append("404 Not Found");
            s.append("\r\nContent-Length: ");
            text::push_decimal(&mut s, body.len() as u64);
            s.append("\r\nContent-Type: text/plain\r\nConnection: close\r\n\r\n");
            s.append(body);
            assert(s@ =~= http_text(
                "404 Not Found"@,
                "not found\n"@,
                vstd::utf8::encode_utf8("not found\n"@).len() as usize as nat,
            ));
        }
        s
    }
}

/// What to do about a path that is already taken when the status socket is bound.
#[derive(Debug, Clone, Copy, PartialEq, Eq, Structural)]
pub enum TakenPath {
    /// Not a socket: not ours to delete, the bind fails.
    NotASocket,
    /// A live server answers on it: left alone, the bind fails.
    LiveServer,
    /// A socket with no server behind it: unlink it and bind again.
    Stale,
}

/// Decides about a taken path. Only a socket that nobody answers on may be
/// removed.
pub fn taken_path(is_socket: bool, answered: bool) -> (r: TakenPath)
    ensures
        r is Stale <==> is_socket && !answered,
        r is NotASocket <==> !is_socket,
{
    if !is_socket {
        TakenPath::NotASocket
    } else if answered {
        TakenPath::LiveServer
    } else {
        TakenPath::Stale
    }
}

/// The percentage never falls while bytes are scrubbed, and ends at 100.
pub proof fn law_progress_is_monotonic(done: u64, later: u64, total: u64)
    requires
        done <= later,
    ensures
        hundredths(progress_milli(done, total)) <= hundredths(progress_milli(later, total)),
        0 <= hundredths(progress_milli(done, total)) <= 10_000,
        later >= total ==> hundredths(progress_milli(later, total)) == 10_000,
{
    if total > 0 {
        assert(done as int * 100_000 / total as int <= later as int * 100_000 / total as int)
            by (nonlinear_arith)
            requires
                done <= later,
                total > 0,
        ;
        assert(done as int * 100_000 / total as int >= 0) by (nonlinear_arith)
            requires
                total > 0,
        ;
        if later >= total {
            assert(later as int * 100_000 / total as int >= 100_000) by (nonlinear_arith)
                requires
                    later >= total,
                    total > 0,
            ;
        }
    }
}

} // verus!
