//! The command line: numbers, options, commands, accounts and exit codes.

use scrub_rs::batch_recover::BatchStats;
use scrub_rs::cli::{
    command, exit_code, freeze_target, parse_logical, parse_offset, parse_options, reconcile,
    Command, Flag, Imbalance, OffsetError, Options, UsageError, EXIT_ISSUES_FOUND,
    EXIT_METADATA_FATAL, EXIT_RECOVERED, EXIT_RECOVER_FAILED, EXIT_SUCCESS,
};
use scrub_rs::fs::ScrubStats;
use scrub_rs::text::IntError;

fn words(args: &[&str]) -> Vec<String> {
    args.iter().map(|a| a.to_string()).collect()
}

fn seconds(flag: Flag, value: &String) -> bool {
    match value.parse::<f64>() {
        Ok(s) => {
            if flag == Flag::BatchIdle {
                s >= 0.0
            } else {
                s.is_finite() && s > 0.0
            }
        }
        Err(_) => false,
    }
}

fn options(args: &[&str]) -> Result<Options, UsageError> {
    parse_options(&words(args), &seconds)
}

fn clean() -> ScrubStats {
    ScrubStats::default()
}

#[test]
fn offsets_are_bytes_or_sectors() {
    assert_eq!(parse_offset("4096"), Ok(4096));
    assert_eq!(parse_offset(" 0x10 "), Ok(16));
    assert_eq!(parse_offset("+2"), Ok(1024));
    assert_eq!(parse_offset("+0x10"), Ok(8192));
    assert_eq!(parse_offset("18446744073709551615"), Ok(u64::MAX));
    assert_eq!(parse_offset("-1"), Err(OffsetError::Negative));
    assert_eq!(parse_offset(""), Err(OffsetError::Decimal(IntError::Empty)));
    assert_eq!(
        parse_offset("12a"),
        Err(OffsetError::Decimal(IntError::InvalidDigit))
    );
    assert_eq!(
        parse_offset("0xzz"),
        Err(OffsetError::Hex(IntError::InvalidDigit))
    );
    assert_eq!(
        parse_offset("18446744073709551616"),
        Err(OffsetError::Decimal(IntError::TooLarge))
    );
    assert_eq!(
        parse_offset("+36028797018963968"),
        Err(OffsetError::TooLarge)
    );
}

#[test]
fn offset_errors_are_told_in_words() {
    assert_eq!(
        OffsetError::Negative.message(" -4\n"),
        "negative byte offsets are not allowed: \"-4\""
    );
    for bad in ["", "x", "99999999999999999999"] {
        let std_says = bad.parse::<u64>().unwrap_err().to_string();
        assert_eq!(
            parse_offset(bad).unwrap_err().message(bad),
            format!("invalid decimal: {std_says}")
        );
        let hex = format!("0x{}", if bad == "x" { "g" } else { bad });
        assert!(parse_offset(&hex)
            .map(|_| String::new())
            .unwrap_or_else(|e| e.message(&hex))
            .starts_with(if bad.starts_with('9') {
                "invalid hex: number too large"
            } else {
                "invalid hex: "
            }));
    }
    assert_eq!(OffsetError::TooLarge.message("+1"), "the offset does not fit");
}

#[test]
fn logical_addresses_are_hexadecimal() {
    assert_eq!(parse_logical("0x1f"), Ok(31));
    assert_eq!(parse_logical("1F"), Ok(31));
    assert_eq!(parse_logical(""), Err(IntError::Empty));
    assert_eq!(parse_logical("0x"), Err(IntError::Empty));
    assert_eq!(parse_logical("g"), Err(IntError::InvalidDigit));
    assert_eq!(
        parse_logical("10000000000000000"),
        Err(IntError::TooLarge)
    );
}

#[test]
fn options_default_to_assessment_only() {
    let o = options(&[]).unwrap();
    assert!(o.dry_run);
    assert!(o.freeze_enabled);
    assert_eq!(o.batch_max, 64);
    assert_eq!(o.base_offset, 0);
    assert_eq!(o.status_port, 0);
    assert!(o.freeze_mount.is_none() && o.batch_idle.is_none() && o.freeze_max.is_none());
}

#[test]
fn options_are_read_in_order() {
    let o = options(&[
        "--repair",
        "--offset",
        "0x1000",
        "--batch-max",
        "8",
        "--batch-idle",
        "0.5",
        "--freeze-max",
        "30",
        "--freeze-mount",
        "/mnt/disk1",
        "--status-port",
        "8080",
        "--batch-max",
        "9",
    ])
    .unwrap();
    assert!(!o.dry_run);
    assert_eq!(o.base_offset, 4096);
    assert_eq!(o.batch_max, 9);
    assert_eq!(o.batch_idle.as_deref(), Some("0.5"));
    assert_eq!(o.freeze_max.as_deref(), Some("30"));
    assert_eq!(o.status_port, 8080);
    assert_eq!(freeze_target(&o).as_deref(), Some("/mnt/disk1"));
}

#[test]
fn freezing_needs_repair_and_a_mount() {
    let o = options(&["--freeze-mount", "/m"]).unwrap();
    assert!(freeze_target(&o).is_none(), "dry run");
    let o = options(&["--freeze-mount", "/m", "--repair", "--no-freeze"]).unwrap();
    assert!(freeze_target(&o).is_none(), "switched off");
    let o = options(&["--repair"]).unwrap();
    assert!(freeze_target(&o).is_none(), "no mount");
}

#[test]
fn refused_options_say_why() {
    let cases = [
        (vec!["--what"], "unknown argument: --what"),
        (vec!["--offset"], "error: --offset requires a value"),
        (
            vec!["--freeze-mount"],
            "error: --freeze-mount requires a path",
        ),
        (
            vec!["--status-port", "65536"],
            "error: --status-port must be a port number (0-65535)",
        ),
        (
            vec!["--offset", "-4"],
            "error parsing --offset \"-4\": negative byte offsets are not allowed: \"-4\"",
        ),
        (
            vec!["--offset", " \"a\\"],
            "error parsing --offset \" \\\"a\\\\\": invalid decimal: invalid digit found in string",
        ),
        (
            vec!["--batch-max", "0"],
            "error: --batch-max must be a positive integer",
        ),
        (
            vec!["--batch-max", "many"],
            "error: --batch-max must be a positive integer",
        ),
        (
            vec!["--batch-idle", "-1"],
            "error: --batch-idle must be a non-negative number of seconds",
        ),
        (
            vec!["--freeze-max", "0"],
            "error: --freeze-max must be a positive number of seconds",
        ),
        (
            vec!["--freeze-max", "inf"],
            "error: --freeze-max must be a positive number of seconds",
        ),
    ];
    for (args, message) in cases {
        assert_eq!(options(&args).unwrap_err().message(), message);
    }
    assert!(options(&["--batch-idle", "0"]).is_ok());
    assert!(matches!(
        options(&["--repair", "--batch-idle"]),
        Err(UsageError::MissingValue(Flag::BatchIdle))
    ));
}

#[test]
fn commands_are_told_apart() {
    assert!(matches!(command(&words(&[])), Command::Help));
    assert!(matches!(command(&words(&["--help"])), Command::Help));
    assert!(matches!(command(&words(&["-h"])), Command::Help));
    assert!(matches!(command(&words(&["/dev/x", "-h"])), Command::Help));
    assert!(matches!(
        command(&words(&["--dump-array"])),
        Command::DumpArray
    ));
    assert!(matches!(
        command(&words(&["--resolve", "/dev/x"])),
        Command::ResolveUsage
    ));
    match command(&words(&["--resolve", "/dev/x", "0x20"])) {
        Command::Resolve { device, logical } => {
            assert_eq!(device, "/dev/x");
            assert_eq!(logical, 32);
        }
        other => panic!("got {other:?}"),
    }
    match command(&words(&["--resolve", "/dev/x", "20g"])) {
        Command::BadLogical { value, error } => {
            assert_eq!(value, "20g");
            assert_eq!(error, IntError::InvalidDigit);
        }
        other => panic!("got {other:?}"),
    }
    match command(&words(&["/dev/x", "--repair"])) {
        Command::Scrub { device } => assert_eq!(device, "/dev/x"),
        other => panic!("got {other:?}"),
    }
}

#[test]
fn accounts_must_balance() {
    let mut b = BatchStats::default();
    b.mismatch = 3;
    b.recovered = 2;
    b.failed = 1;
    b.stale = 1;
    b.skipped = 1;
    b.deduped = 2;
    assert_eq!(reconcile(&b, 7), Ok(()));
    assert_eq!(
        reconcile(&b, 8),
        Err(Imbalance::Unclassified {
            sent: 8,
            classified: 7
        })
    );
    b.failed = 0;
    assert_eq!(
        reconcile(&b, 7),
        Err(Imbalance::Buckets {
            mismatch: 3,
            buckets: 2
        })
    );
    b.mismatch = u64::MAX;
    b.stale = u64::MAX;
    assert!(reconcile(&b, 1).is_err());
}

#[test]
fn clean_disk_alone_earns_success() {
    let none = BatchStats::default();
    assert_eq!(exit_code(&clean(), &none, false), EXIT_SUCCESS);
    assert_eq!(exit_code(&clean(), &none, true), EXIT_SUCCESS);

    let mut s = clean();
    s.isolation_truncated = 1;
    s.metadata_mirror_mismatches = 1;
    s.sectors_stale = 1;
    assert_eq!(exit_code(&s, &none, true), EXIT_SUCCESS);

    for field in 0..4 {
        let mut s = clean();
        match field {
            0 => s.sectors_mismatch = 1,
            1 => s.sectors_read_error = 1,
            2 => s.metadata_read_errors = 1,
            _ => s.stale_csum_branches = 1,
        }
        assert_eq!(exit_code(&s, &none, false), EXIT_ISSUES_FOUND);
    }
    let mut b = BatchStats::default();
    b.skipped = 1;
    assert_eq!(exit_code(&clean(), &b, true), EXIT_RECOVER_FAILED);
}

#[test]
fn recovered_code_is_refused_while_anything_is_left() {
    let mut b = BatchStats::default();
    b.mismatch = 2;
    b.recovered = 2;
    assert_eq!(exit_code(&clean(), &b, true), EXIT_RECOVERED);
    assert_eq!(exit_code(&clean(), &b, false), EXIT_ISSUES_FOUND);

    let spoilers: [fn(&mut BatchStats); 5] = [
        |b| b.failed = 1,
        |b| b.skipped = 1,
        |b| b.not_frozen = 1,
        |b| b.readback_failed = 1,
        |b| b.not_corrupt = 1,
    ];
    for spoil in spoilers {
        let mut b = BatchStats::default();
        b.mismatch = 2;
        b.recovered = 1;
        spoil(&mut b);
        assert_eq!(exit_code(&clean(), &b, true), EXIT_RECOVER_FAILED);
    }

    let mut s = clean();
    s.stale_csum_branches = 1;
    assert_eq!(exit_code(&s, &b, true), EXIT_RECOVER_FAILED);
    assert_eq!(
        exit_code(&s, &BatchStats::default(), true),
        EXIT_ISSUES_FOUND,
        "a gap alone is no failed recovery"
    );
}

#[test]
fn lost_metadata_outranks_everything() {
    let mut s = clean();
    s.metadata_header_errors = 1;
    s.sectors_mismatch = 4;
    let mut b = BatchStats::default();
    b.mismatch = 1;
    b.recovered = 1;
    assert_eq!(exit_code(&s, &b, true), EXIT_METADATA_FATAL);
    assert_eq!(exit_code(&s, &b, false), EXIT_METADATA_FATAL);
}
