//! btrfs on-disk checksum type values (the superblock field at offset 196).

use vstd::prelude::*;

verus! {

pub const CRC32C: u16 = 0;

pub const XXHASH: u16 = 1;

pub const SHA256: u16 = 2;

pub const BLAKE2: u16 = 3;

} // verus!
