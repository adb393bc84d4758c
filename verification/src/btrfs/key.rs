//! Keys: the address and order of every item in a btrfs tree.

use vstd::prelude::*;

use crate::btrfs::util;

pub mod bg_flag;
pub mod key_type;
pub mod objectid;

verus! {

/// A btrfs key: (objectid, type, offset), 17 bytes on disk. Items in a node are
/// ordered lexicographically by key.
#[derive(Debug, Clone, Copy, PartialEq, Eq, Structural)]
pub struct Key {
    pub objectid: u64,
    pub ty: u8,
    pub offset: u64,
}

/// `a` comes no later than `b` in item order.
pub open spec fn key_le(a: Key, b: Key) -> bool {
    ||| a.objectid < b.objectid
    ||| a.objectid == b.objectid && a.ty < b.ty
    ||| a.objectid == b.objectid && a.ty == b.ty && a.offset <= b.offset
}

/// The key stored at `pos`: objectid (8), type (1), offset (8).
pub open spec fn key_at(buf: Seq<u8>, pos: int) -> Key {
    Key { objectid: util::le64(buf, pos), ty: buf[pos + 8], offset: util::le64(buf, pos + 9) }
}

impl Key {
    pub fn new(objectid: u64, ty: u8, offset: u64) -> (r: Self)
        ensures
            r == (Key { objectid, ty, offset }),
    {
        Key { objectid, ty, offset }
    }

    /// Parses the 17-byte on-disk key at `pos`.
    pub fn parse(buf: &[u8], pos: usize) -> (r: Self)
        requires
            pos + 17 <= buf@.len(),
        ensures
            r == key_at(buf@, pos as int),
    {
        assert(pos + 17 <= buf.len());
        Key {
            objectid: util::le_u64(buf, pos),
            ty: buf[pos + 8],
            offset: util::le_u64(buf, pos + 9),
        }
    }

    /// Whether this key comes no later than `other` in item order.
    pub fn leq(&self, other: &Key) -> (r: bool)
        ensures
            r == key_le(*self, *other),
    {
        self.objectid < other.objectid || (self.objectid == other.objectid && (self.ty < other.ty
            || (self.ty == other.ty && self.offset <= other.offset)))
    }
}

/// Item order is total.
pub proof fn law_key_order_total(a: Key, b: Key, c: Key)
    ensures
        key_le(a, a),
        key_le(a, b) || key_le(b, a),
        key_le(a, b) && key_le(b, a) ==> a == b,
        key_le(a, b) && key_le(b, c) ==> key_le(a, c),
{
}

/// A child pointer in an internal node: 17-byte key, the child node's logical
/// address, and the child's expected generation (33 bytes on disk).
#[derive(Debug, Clone, Copy, PartialEq, Eq, Structural)]
pub struct KeyPtr {
    pub key: Key,
    /// Logical address of the child node; mapped through the chunk tree.
    pub blockptr: u64,
    pub generation: u64,
}

/// The child pointer stored at `pos`: key (17), blockptr (8), generation (8).
pub open spec fn key_ptr_at(buf: Seq<u8>, pos: int) -> KeyPtr {
    KeyPtr {
        key: key_at(buf, pos),
        blockptr: util::le64(buf, pos + 17),
        generation: util::le64(buf, pos + 25),
    }
}

impl KeyPtr {
    /// Parses the 33-byte on-disk child pointer at `pos`.
    pub fn parse(buf: &[u8], pos: usize) -> (r: Self)
        requires
            pos + 33 <= buf@.len(),
        ensures
            r == key_ptr_at(buf@, pos as int),
    {
        assert(pos + 33 <= buf.len());
        KeyPtr {
            key: Key::parse(buf, pos),
            blockptr: util::le_u64(buf, pos + 17),
            generation: util::le_u64(buf, pos + 25),
        }
    }
}

} // verus!
