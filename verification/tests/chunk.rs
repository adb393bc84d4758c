//! The chunk map.

use scrub_rs::btrfs::chunk::{ChunkItem, ChunkMap, ChunkRecord, Stripe};
use scrub_rs::btrfs::key::bg_flag;

fn rec(logical: u64, ty: u64) -> ChunkRecord {
    ChunkRecord {
        logical,
        chunk: ChunkItem {
            length: 1 << 20,
            stripe_len: 64 * 1024,
            ty,
            num_stripes: 1,
            stripes: vec![Stripe {
                devid: 1,
                offset: 0,
            }],
        },
    }
}

#[test]
fn data_single_and_dup_are_accepted() {
    let mut m = ChunkMap::default();
    m.insert(&rec(0x1000_0000, bg_flag::DATA));
    m.insert(&rec(0x2000_0000, bg_flag::DATA | bg_flag::DUP));
    assert!(m.validate_data_profiles().is_ok());
}

#[test]
fn striped_data_chunk_is_rejected() {
    for profile in [
        bg_flag::RAID0,
        bg_flag::RAID1,
        bg_flag::RAID10,
        bg_flag::RAID5,
        bg_flag::RAID6,
        bg_flag::RAID1C3,
        bg_flag::RAID1C4,
    ] {
        let mut m = ChunkMap::default();
        m.insert(&rec(0x1000_0000, bg_flag::DATA | profile));
        let err = m.validate_data_profiles().unwrap_err();
        let msg = err.message();
        assert!(msg.contains("logical 0x1000000"), "{msg}");
        assert!(msg.contains("RAID"), "{msg}");
    }
}

#[test]
fn metadata_raid1_is_not_rejected() {
    let mut m = ChunkMap::default();
    m.insert(&rec(0x1000_0000, bg_flag::METADATA | bg_flag::RAID1));
    m.insert(&rec(0x2000_0000, bg_flag::DATA));
    assert!(m.validate_data_profiles().is_ok());
}

#[test]
fn newer_of_two_chunks_with_one_start_answers() {
    let at = |offset: u64| {
        let mut r = rec(0x1000_0000, bg_flag::SYSTEM);
        r.chunk.stripes[0].offset = offset;
        r
    };
    let mut m = ChunkMap::default();
    m.insert(&at(0x10_0000));
    assert_eq!(m.lookup(0x1000_0040), Some((1, 0x10_0040)));
    // The same chunk again changes nothing, a moved one takes its place.
    m.insert(&at(0x10_0000));
    assert_eq!(m.lookup(0x1000_0040), Some((1, 0x10_0040)));
    m.insert(&at(0x70_0000));
    assert_eq!(m.lookup(0x1000_0040), Some((1, 0x70_0040)));
    // A chunk that starts earlier and reaches over does not.
    let mut wide = rec(0x0fff_0000, bg_flag::SYSTEM);
    wide.chunk.length = 1 << 24;
    m.insert(&wide);
    assert_eq!(m.lookup(0x1000_0040), Some((1, 0x70_0040)));
    assert_eq!(m.lookup(0x0fff_0010), Some((1, 0x10)));
}

#[test]
fn first_striped_chunk_is_the_one_reported() {
    let mut m = ChunkMap::default();
    m.insert(&rec(0x3000_0000, bg_flag::DATA | bg_flag::RAID0));
    m.insert(&rec(0x2000_0000, bg_flag::DATA | bg_flag::RAID5));
    m.insert(&rec(0x1000_0000, bg_flag::DATA));
    let err = m.validate_data_profiles().unwrap_err();
    assert_eq!((err.logical, err.profile), (0x2000_0000, bg_flag::RAID5));
}

#[test]
fn lookup_maps_inside_the_chunk_only() {
    let mut m = ChunkMap::default();
    assert!(m.is_empty());
    let mut r = rec(0x2000_0000, bg_flag::DATA | bg_flag::DUP);
    r.chunk.stripes = vec![
        Stripe {
            devid: 1,
            offset: 0x50_0000,
        },
        Stripe {
            devid: 1,
            offset: 0x90_0000,
        },
    ];
    m.insert(&r);
    m.insert(&rec(0x1000_0000, bg_flag::METADATA));
    assert_eq!(m.len(), 2);
    assert_eq!(m.lookup(0x2000_0000 + 4096), Some((1, 0x50_1000)));
    assert_eq!(
        m.lookup_stripes(0x2000_0000),
        Some(vec![(1, 0x50_0000), (1, 0x90_0000)])
    );
    assert_eq!(m.lookup(0x2000_0000 + (1 << 20)), None);
    assert_eq!(m.lookup(0x1000_0000 - 1), None);
    assert_eq!(m.info(0x1000_0000).unwrap().flags, bg_flag::METADATA);
    assert_eq!(m.info(0x2000_0000).unwrap().length, 1 << 20);
    assert!(m.info(0x3000_0000).is_none());
}

#[test]
fn chunks_whose_copies_end_outside_are_still_mapped() {
    let mut m = ChunkMap::default();
    let mut r = rec(0x2000_0000, bg_flag::DATA);
    r.chunk.stripes = vec![Stripe {
        devid: 1,
        offset: u64::MAX - 4096,
    }];
    assert!(r.fits());
    m.insert(&r);
    assert!(m.copies_in_range(0x2000_0000 + 4096));
    assert_eq!(m.lookup(0x2000_0000 + 4096), Some((1, u64::MAX)));
    assert!(!m.copies_in_range(0x2000_0000 + 4097));
    assert!(m.copies_in_range(0), "an unmapped address has no copies");
    assert_eq!(m.entry(0x2000_0000 + 4097).unwrap().begin, 0x2000_0000);
}
