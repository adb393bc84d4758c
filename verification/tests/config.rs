//! The array layout out of the stat text.

use scrub_rs::array::config::{slot_from_array_partition, ArrayConfig};
use scrub_rs::array::nmdstat::{
    load, normalize_dev, stat_entries, stat_value, stat_values, LoadError, StatEntry,
};
use scrub_rs::array::path::paths_equal;
use scrub_rs::array::resolve::{resolve, ResolveError};

const SAMPLE: &str = "\
rdevName.0=loop0
rdevOffset.0=64
rdevName.1=loop2
rdevOffset.1=64
rdevName.2=loop3
rdevOffset.2=64
rdevName.29=loop1
rdevOffset.29=64
rdevName.3=
rdevOffset.3=0
";

#[test]
fn parses_slots_and_offsets() {
    let values = stat_values(SAMPLE);
    assert_eq!(stat_value(&values, "rdevName.0").unwrap(), "loop0");
    assert_eq!(stat_value(&values, "rdevOffset.29").unwrap(), "64");
    assert_eq!(stat_value(&values, "rdevName.3").unwrap(), "");
}

#[test]
fn layout_comes_out_of_the_stat_text() {
    let entries = stat_entries(&stat_values(SAMPLE));
    let found: Vec<(u64, &str, u64)> = entries
        .iter()
        .map(|e| (e.slot, e.path.as_str(), e.offset_sectors))
        .collect();
    assert_eq!(
        found,
        vec![
            (0, "/dev/loop0", 64),
            (1, "/dev/loop2", 64),
            (2, "/dev/loop3", 64),
            (29, "/dev/loop1", 64),
        ]
    );
    let cfg = load(Some(ArrayConfig::from_entries(&entries).unwrap())).unwrap();
    assert_eq!(cfg.parity_p.as_deref(), Some("/dev/loop0"));
    assert_eq!(cfg.parity_q.as_deref(), Some("/dev/loop1"));
    assert_eq!(cfg.data_dev(1), Some("/dev/loop2"));
    assert_eq!(cfg.data_dev(2), Some("/dev/loop3"));
    assert_eq!(cfg.data_dev(3), None);
    assert_eq!(cfg.raw_offset_for("/dev/loop3"), 64 * 512);
    assert_eq!(cfg.raw_offset_for("/dev/nmd1p1"), 0);
    assert_eq!(cfg.raw_phys(2, 4096), Some(4096 + 64 * 512));
    assert_eq!(cfg.position("/dev/loop2", 1), Some(1 + 64 * 512));
    assert_eq!(cfg.position("/dev/loop2", u64::MAX), None);

    let at = resolve(&cfg, 2, 8192).unwrap();
    assert_eq!(at.dev_path, "/dev/loop3");
    assert_eq!(at.raw_phys, 8192 + 64 * 512);
    assert_eq!(at.array_phys, 8192);
    assert!(matches!(
        resolve(&cfg, 7, 0),
        Err(ResolveError::NotADataDisk { devid: 7 })
    ));
    assert!(matches!(
        resolve(&cfg, 2, u64::MAX),
        Err(ResolveError::OutOfRange)
    ));
}

#[test]
fn later_lines_replace_earlier_ones_and_keys_are_sorted() {
    let values = stat_values("b=1\n a = x y \nb= 2\nno pair\n=empty key\n");
    let shown: Vec<(&str, &str)> = values
        .iter()
        .map(|(k, v)| (k.as_str(), v.as_str()))
        .collect();
    assert_eq!(shown, vec![("", "empty key"), ("a ", "x y"), ("b", "2")]);
    assert!(stat_value(&values, "c").is_none());
    assert!(stat_values("").is_empty());
}

#[test]
fn bad_slots_and_offsets_are_ignored() {
    let values = stat_values("rdevName.x=sda\nrdevName.5=/dev/sdb\nrdevOffset.5=oops\n");
    let entries = stat_entries(&values);
    assert_eq!(entries.len(), 1);
    assert_eq!(entries[0].slot, 5);
    assert_eq!(entries[0].path, "/dev/sdb");
    assert_eq!(entries[0].offset_sectors, 0);
    assert_eq!(normalize_dev("sda"), "/dev/sda");
    assert_eq!(normalize_dev("/dev/sda"), "/dev/sda");
}

#[test]
fn missing_stat_file_or_parity_is_an_error() {
    assert_eq!(load(None).unwrap_err(), LoadError::NoStatFile);
    let only_data = vec![StatEntry {
        slot: 1,
        path: "/dev/sda".to_string(),
        offset_sectors: 0,
    }];
    let cfg = ArrayConfig::from_entries(&only_data).unwrap();
    assert_eq!(load(Some(cfg)).unwrap_err(), LoadError::NoParity);
    let huge = vec![StatEntry {
        slot: 4,
        path: "/dev/sda".to_string(),
        offset_sectors: u64::MAX,
    }];
    assert_eq!(
        ArrayConfig::from_entries(&huge).unwrap_err(),
        LoadError::OffsetTooLarge { slot: 4 }
    );
}

#[test]
fn partition_names_give_their_slot() {
    assert_eq!(slot_from_array_partition("/dev/nmd2p1"), Some(2));
    assert_eq!(slot_from_array_partition("nmd12p1"), Some(12));
    assert_eq!(slot_from_array_partition("/dev/nmd2"), None);
    assert_eq!(slot_from_array_partition("/dev/nmdp1"), None);
    assert_eq!(slot_from_array_partition("/dev/nmd3p"), None);
    assert_eq!(slot_from_array_partition("/dev/sda1"), None);
}

#[test]
fn raw_devices_are_found_by_resolved_path() {
    let entries = stat_entries(&stat_values(SAMPLE));
    let cfg = ArrayConfig::from_entries(&entries).unwrap();
    let resolved = vec!["/dev/sdx".to_string(), "/dev/sdy".to_string()];
    assert_eq!(cfg.slot_for_raw_dev("/dev/sdy", &resolved), Some(2));
    assert_eq!(cfg.slot_for_raw_dev("/dev/sdz", &resolved), None);
    assert_eq!(cfg.slot_for_raw_dev("/dev//./sdy/", &resolved), Some(2));
}

#[test]
fn disks_are_listed_in_slot_order() {
    let mut cfg = ArrayConfig::default();
    assert!(cfg.disk_list().is_empty());
    for (slot, path) in [(7, "/dev/c"), (1, "/dev/a"), (3, "/dev/b"), (7, "/dev/d")] {
        cfg.data_devs.insert(slot, path.to_string());
    }
    assert_eq!(
        cfg.disk_list(),
        vec![
            (1, "/dev/a".to_string()),
            (3, "/dev/b".to_string()),
            (7, "/dev/d".to_string())
        ]
    );
    assert_eq!(cfg.data_dev(7), Some("/dev/d"));
    assert_eq!(cfg.data_dev(2), None);
}

#[test]
fn paths_are_compared_by_their_names() {
    let texts = [
        "", ".", "./", "/", "//", "/.", "a", "./a", "a/", "a/.", "a//b", "a/./b", "a/b", "/a/b",
        "//a///b//", "/a/../b", "/b", "..", "../", "a.b", "/dev/sda", "/dev//sda", "/./dev/sda/.",
    ];
    for a in texts {
        for b in texts {
            assert_eq!(
                paths_equal(a, b),
                std::path::Path::new(a) == std::path::Path::new(b),
                "{a:?} and {b:?}"
            );
        }
    }
}

#[test]
fn offsets_are_found_by_path() {
    let entries = vec![
        StatEntry {
            slot: 0,
            path: "/dev/p".to_string(),
            offset_sectors: 1,
        },
        StatEntry {
            slot: 3,
            path: "/dev//sda".to_string(),
            offset_sectors: 64,
        },
    ];
    let cfg = ArrayConfig::from_entries(&entries).unwrap();
    assert_eq!(cfg.raw_offset_for("/dev/sda"), 64 * 512);
    assert_eq!(cfg.raw_offset_for("/dev/./sda/"), 64 * 512);
    assert_eq!(cfg.raw_offset_for("dev/sda"), 0);
}
