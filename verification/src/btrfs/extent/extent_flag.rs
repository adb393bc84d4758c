//! EXTENT_ITEM flag bits.

use vstd::prelude::*;

verus! {

/// Extent was written without checksums.
pub const NODATASUM: u64 = 0x8;

} // verus!
