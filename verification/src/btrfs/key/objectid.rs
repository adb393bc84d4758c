//! Well-known btrfs tree objectids; also the objectid of each tree's ROOT_ITEM
//! key in the root tree.

use vstd::prelude::*;

verus! {

pub const ROOT_TREE: u64 = 1;

pub const EXTENT_TREE: u64 = 2;

pub const CHUNK_TREE: u64 = 3;

pub const DEV_TREE: u64 = 4;

pub const FS_TREE: u64 = 5;

pub const CSUM_TREE: u64 = 7;

pub const UUID_TREE: u64 = 9;

pub const FREE_SPACE_TREE: u64 = 10;

/// -10 as u64: the objectid under which EXTENT_CSUM items live in the csum tree.
pub const EXTENT_CSUM_OBJECTID: u64 = 0xFFFF_FFFF_FFFF_FFF6;

} // verus!
