//! btrfs on-disk key type numbers.

use vstd::prelude::*;

verus! {

pub const INODE_ITEM: u8 = 1;

pub const INODE_REF: u8 = 12;

pub const DIR_ITEM: u8 = 84;

pub const DIR_INDEX: u8 = 96;

pub const EXTENT_DATA: u8 = 108;

pub const EXTENT_CSUM: u8 = 128;

pub const ROOT_ITEM: u8 = 132;

pub const EXTENT_ITEM: u8 = 168;

pub const METADATA_ITEM: u8 = 169;

pub const DEV_EXTENT_KEY: u8 = 204;

pub const DEV_ITEM: u8 = 216;

pub const CHUNK_ITEM: u8 = 228;

} // verus!
