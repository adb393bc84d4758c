//! Block-group type and chunk profile flag bits (the chunk item's type field).

use vstd::prelude::*;

verus! {

pub const DATA: u64 = 0x1;

pub const SYSTEM: u64 = 0x2;

pub const METADATA: u64 = 0x4;

pub const RAID0: u64 = 0x8;

pub const RAID1: u64 = 0x10;

pub const DUP: u64 = 0x20;

pub const RAID10: u64 = 0x40;

pub const RAID5: u64 = 0x80;

pub const RAID6: u64 = 0x100;

pub const RAID1C3: u64 = 0x200;

pub const RAID1C4: u64 = 0x400;

/// Profiles that keep more than one copy of each block.
pub const MIRROR_MASK: u64 = RAID1 | DUP | RAID1C3 | RAID1C4;

/// Profiles that stripe blocks across multiple devices.
pub const STRIPED_MASK: u64 = RAID0 | RAID10 | RAID5 | RAID6;

} // verus!
