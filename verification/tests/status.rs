//! The status page and the counters behind it.

use scrub_rs::batch_recover::Outcome;
use scrub_rs::btrfs::scrub::ScrubStats;
use scrub_rs::status::{taken_path, MetadataKind, StatusCounters, TakenPath};

#[test]
fn serves_status_payload_and_404s() {
    let mut counters = StatusCounters::new();
    counters.set_state("running".to_string());
    counters.set_device("/dev/nmd1p1".to_string());
    counters.sectors_checked = 42;
    counters.sectors_ok = 40;
    counters.mismatch = 2;
    counters.stale = 1;
    counters.bytes_checked = 4096;
    counters.recovered = 1;
    counters.recovery = 1;
    counters.progress_total = 1073741824;
    counters.progress_done = 268435456;

    let resp = counters.respond(b"GET /status HTTP/1.1\r\nHost: localhost\r\n\r\n");
    assert!(resp.starts_with("HTTP/1.1 200 OK"), "got: {resp:?}");
    assert!(resp.contains("Content-Type: text/plain"), "got: {resp:?}");
    assert!(resp.contains("Content-Length:"), "got: {resp:?}");
    for expected in [
        "state=running",
        "device=/dev/nmd1p1",
        "sectors_checked=42",
        "sectors_ok=40",
        "sectors_mismatch=2",
        "sectors_stale=1",
        "sectors_no_csum=0",
        "sectors_read_error=0",
        "bytes_checked=4096",
        "metadata_header_errors=0",
        "metadata_mirror_mismatches=0",
        "metadata_read_errors=0",
        "recovered=1",
        "failed=0",
        "skipped=0",
        "recovery=1",
        "progress_total=1073741824",
        "progress_done=268435456",
        "progress_pct=25.00",
    ] {
        assert!(resp.contains(expected), "missing {expected:?} in: {resp:?}");
    }

    let resp = counters.respond(b"GET /nope HTTP/1.1\r\n\r\n");
    assert!(resp.starts_with("HTTP/1.1 404"), "got: {resp:?}");
    assert!(counters.respond(b"").starts_with("HTTP/1.1 404"));
    assert!(counters.respond(b"GET /statu").starts_with("HTTP/1.1 404"));
}

#[test]
fn content_length_counts_the_bytes_of_the_body() {
    let mut counters = StatusCounters::new();
    counters.set_device("/dev/\u{e9}".to_string());
    for request in [&b"GET /status"[..], &b"GET /"[..]] {
        let resp = counters.respond(request);
        let (head, body) = resp.split_once("\r\n\r\n").unwrap();
        let length: usize = head
            .lines()
            .find_map(|l| l.strip_prefix("Content-Length: "))
            .unwrap()
            .parse()
            .unwrap();
        assert_eq!(length, body.len());
    }
}

#[test]
fn page_lists_every_counter_in_order() {
    let mut counters = StatusCounters::new();
    counters.set_recovery(true);
    counters.deduped = 7;
    let page = counters.snapshot();
    let names: Vec<&str> = page
        .lines()
        .map(|l| l.split_once('=').unwrap().0)
        .collect();
    assert_eq!(
        names,
        vec![
            "state",
            "device",
            "sectors_checked",
            "sectors_ok",
            "sectors_mismatch",
            "sectors_stale",
            "sectors_no_csum",
            "sectors_read_error",
            "stale_csum_branches",
            "isolation_truncated",
            "bytes_checked",
            "metadata_header_errors",
            "metadata_mirror_mismatches",
            "metadata_read_errors",
            "recovered",
            "failed",
            "skipped",
            "not_frozen",
            "readback_failed",
            "not_corrupt",
            "deduped",
            "repaired_while_mounted",
            "recovery",
            "progress_total",
            "progress_done",
            "progress_pct",
        ]
    );
    assert!(page.contains("\ndeduped=7\n"));
    assert!(page.contains("\nrecovery=1\n"));
    assert!(page.ends_with("progress_pct=100.00\n"));
}

#[test]
fn percentages_round_as_doubles_print() {
    let mut counters = StatusCounters::new();
    counters.progress_total = 100_000;
    for milli in 0..=100_000u64 {
        counters.progress_done = milli;
        assert_eq!(counters.progress(), milli);
        let h = counters.progress_hundredths();
        assert_eq!(
            format!("{}.{:02}", h / 100, h % 100),
            format!("{:.2}", milli as f64 / 1000.0),
            "at {milli}"
        );
    }
}

#[test]
fn progress_is_clamped_and_full_while_nothing_is_queued() {
    let mut counters = StatusCounters::new();
    assert_eq!(counters.progress_hundredths(), 10_000);
    counters.progress_total = 3;
    counters.progress_done = 1;
    assert_eq!(counters.progress(), 33_333);
    counters.progress_done = u64::MAX;
    assert_eq!(counters.progress(), 100_000);
    counters.progress_total = u64::MAX;
    assert_eq!(counters.progress(), 100_000);
    counters.progress_done = u64::MAX / 2;
    assert_eq!(counters.progress(), 49_999);
}

#[test]
fn progress_never_falls() {
    let mut counters = StatusCounters::new();
    counters.progress_total = 977;
    let mut last = 0;
    for done in 0..=977 {
        counters.progress_done = done;
        let h = counters.progress_hundredths();
        assert!(h >= last);
        last = h;
    }
    assert_eq!(last, 10_000);
}

#[test]
fn reports_are_counted_by_outcome() {
    let mut counters = StatusCounters::new();
    for outcome in [
        Outcome::Stale,
        Outcome::Skipped,
        Outcome::Recovered,
        Outcome::Failed,
        Outcome::NotFrozen,
        Outcome::ReadbackFailed,
        Outcome::NotCorrupt,
    ] {
        counters.count_report(outcome, false, true);
    }
    assert_eq!(counters.mismatch, 5);
    assert_eq!(counters.stale, 1);
    assert_eq!(counters.skipped, 1);
    assert_eq!(counters.recovered, 1);
    assert_eq!(counters.failed, 1);
    assert_eq!(counters.not_frozen, 1);
    assert_eq!(counters.readback_failed, 1);
    assert_eq!(counters.not_corrupt, 1);
    assert_eq!(counters.repaired_while_mounted, 0);
    counters.count_report(Outcome::Recovered, true, false);
    assert_eq!(counters.repaired_while_mounted, 0);
    counters.count_report(Outcome::Recovered, true, true);
    assert_eq!(counters.repaired_while_mounted, 1);
    counters.count_deduped(3);
    assert_eq!(counters.deduped, 3);
}

#[test]
fn metadata_failures_are_counted_by_kind() {
    let mut counters = StatusCounters::new();
    counters.count_metadata(MetadataKind::HeaderError);
    counters.count_metadata(MetadataKind::MirrorMismatch);
    counters.count_metadata(MetadataKind::MirrorMismatch);
    counters.count_metadata(MetadataKind::ReadError);
    counters.count_metadata(MetadataKind::StaleBranch);
    assert_eq!(counters.metadata_header_errors, 1);
    assert_eq!(counters.metadata_mirror_mismatches, 2);
    assert_eq!(counters.metadata_read_errors, 1);
    assert_eq!(counters.stale_csum_branches, 1);
}

#[test]
fn runs_and_extents_are_counted() {
    let run = ScrubStats {
        sectors_checked: 10,
        sectors_ok: 5,
        sectors_mismatch: 1,
        sectors_no_csum: 0,
        sectors_read_error: 2,
        sectors_stale: 2,
        stale_csum_branches: 9,
        isolation_truncated: 1,
        bytes_checked: 40960,
        metadata_header_errors: 9,
    };
    let mut counters = StatusCounters::new();
    counters.count_run(&run);
    counters.count_run(&run);
    counters.count_progress(7);
    assert_eq!(counters.sectors_checked, 20);
    assert_eq!(counters.sectors_ok, 10);
    assert_eq!(counters.mismatch, 2);
    assert_eq!(counters.stale, 4);
    assert_eq!(counters.sectors_read_error, 4);
    assert_eq!(counters.isolation_truncated, 2);
    assert_eq!(counters.bytes_checked, 81920);
    assert_eq!(counters.progress_done, 7);
    assert_eq!(counters.stale_csum_branches, 0, "told apart by the tree walk");
    assert_eq!(counters.metadata_header_errors, 0);
}

#[test]
fn only_sockets_without_a_server_are_removed() {
    assert_eq!(taken_path(true, false), TakenPath::Stale);
    assert_eq!(taken_path(true, true), TakenPath::LiveServer);
    assert_eq!(taken_path(false, false), TakenPath::NotASocket);
    assert_eq!(taken_path(false, true), TakenPath::NotASocket);
}
