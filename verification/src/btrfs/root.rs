//! ROOT_ITEM parsing: resolves each tree's root node from the root tree.

use vstd::prelude::*;

use crate::btrfs::util;

verus! {

/// A btrfs ROOT_ITEM pared down to the tree root's logical address and level.
#[derive(Debug, Clone, Copy, PartialEq, Eq, Structural)]
pub struct RootItem {
    pub bytenr: u64,
    pub level: u8,
}

/// The root item in `buf`: bytenr at 176, level at 238.
pub open spec fn root_item_at(buf: Seq<u8>) -> RootItem {
    RootItem { bytenr: util::le64(buf, 176), level: buf[238] }
}

impl RootItem {
    /// Parses an on-disk ROOT_ITEM; the rest of the item is ignored.
    pub fn parse(buf: &[u8]) -> (r: Self)
        requires
            buf@.len() >= 239,
        ensures
            r == root_item_at(buf@),
    {
        RootItem { bytenr: util::le_u64(buf, 176), level: buf[238] }
    }
}

} // verus!
