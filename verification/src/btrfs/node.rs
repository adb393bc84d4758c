//! Node and leaf parsing: the 101-byte on-disk header, leaf item slots, and
//! internal-node child pointers.

use vstd::prelude::*;
use vstd::slice::slice_subrange;

use crate::btrfs::key;
use crate::btrfs::key::{Key, KeyPtr};
use crate::btrfs::util;

verus! {

/// On-disk node header: 32-byte checksum, then fsid, bytenr, flags,
/// chunk_tree_uuid, generation, owner, nritems, level.
pub const HEADER_SIZE: usize = 101;

/// Leaf item slot: 17-byte key, 4-byte data offset, 4-byte data size.
pub const LEAF_ITEM_SIZE: usize = 25;

/// Internal-node child pointer: 17-byte key, 8-byte blockptr, 8-byte generation.
pub const KEYPTR_SIZE: usize = 33;

/// On-disk node header. The 32-byte checksum at offset 0 is verified separately
/// by the checksum strategy, so parsing starts at byte 32.
#[derive(Debug, Clone, Copy)]
pub struct Header {
    pub fsid: [u8; 16],
    /// The node's own logical address; checked against the read position.
    pub bytenr: u64,
    pub flags: u64,
    pub chunk_tree_uuid: [u8; 16],
    pub generation: u64,
    pub owner: u64,
    pub nritems: u32,
    /// 0 = leaf; higher values are internal-node levels.
    pub level: u8,
}

/// `h` is the header stored in `buf`.
pub open spec fn header_of(h: Header, buf: Seq<u8>) -> bool {
    &&& h.fsid@ == buf.subrange(32, 48)
    &&& h.bytenr == util::le64(buf, 48)
    &&& h.flags == util::le64(buf, 56)
    &&& h.chunk_tree_uuid@ == buf.subrange(64, 80)
    &&& h.generation == util::le64(buf, 80)
    &&& h.owner == util::le64(buf, 88)
    &&& h.nritems == util::le32(buf, 96)
    &&& h.level == buf[100]
}

impl Header {
    pub fn parse(buf: &[u8]) -> (h: Self)
        requires
            buf@.len() >= 101,
        ensures
            header_of(h, buf@),
    {
        Header {
            fsid: util::array_at(buf, 32),
            bytenr: util::le_u64(buf, 48),
            flags: util::le_u64(buf, 56),
            chunk_tree_uuid: util::array_at(buf, 64),
            generation: util::le_u64(buf, 80),
            owner: util::le_u64(buf, 88),
            nritems: util::le_u32(buf, 96),
            level: buf[100],
        }
    }
}

/// One slot in a leaf's item array: the item's key and where its data lives in
/// the leaf.
#[derive(Debug, Clone, Copy, PartialEq, Eq, Structural)]
pub struct LeafItemSlot {
    pub key: Key,
    /// Offset of the item data relative to the end of the header.
    pub data_offset: u32,
    pub data_size: u32,
}

/// The item slot stored at `pos`.
pub open spec fn slot_at(buf: Seq<u8>, pos: int) -> LeafItemSlot {
    LeafItemSlot {
        key: key::key_at(buf, pos),
        data_offset: util::le32(buf, pos + 17),
        data_size: util::le32(buf, pos + 21),
    }
}

impl LeafItemSlot {
    pub fn parse(buf: &[u8], pos: usize) -> (r: Self)
        requires
            pos + 25 <= buf@.len(),
        ensures
            r == slot_at(buf@, pos as int),
    {
        assert(pos + 25 <= buf.len());
        LeafItemSlot {
            key: Key::parse(buf, pos),
            data_offset: util::le_u32(buf, pos + 17),
            data_size: util::le_u32(buf, pos + 21),
        }
    }
}

/// A parsed leaf: its header, item slots, and the raw node bytes so items can be
/// sliced out of the buffer.
pub struct Leaf {
    pub header: Header,
    pub slots: Vec<LeafItemSlot>,
    /// Raw leaf bytes (header, slots and item data).
    pub buf: Vec<u8>,
}

impl Leaf {
    /// The data of item `i` lies inside the leaf.
    pub open spec fn item_in_bounds(&self, i: int) -> bool {
        101 + self.slots@[i].data_offset + self.slots@[i].data_size <= self.buf@.len()
    }

    /// The data of item `i`: it starts `data_offset` bytes after the header.
    pub open spec fn item(&self, i: int) -> Seq<u8> {
        let start = 101 + self.slots@[i].data_offset;
        self.buf@.subrange(start, start + self.slots@[i].data_size)
    }

    /// First byte after the item-slot array; the leaf's item data lives at or
    /// after this point.
    pub fn data_start(&self) -> (r: usize)
        requires
            101 + self.slots@.len() * 25 <= usize::MAX,
        ensures
            r == 101 + self.slots@.len() * 25,
    {
        HEADER_SIZE + self.slots.len() * LEAF_ITEM_SIZE
    }

    /// The data of item `i`.
    pub fn item_data(&self, i: usize) -> (r: &[u8])
        requires
            i < self.slots@.len(),
            self.item_in_bounds(i as int),
        ensures
            r@ == self.item(i as int),
    {
        let slot = &self.slots[i];
        assert(101 + slot.data_offset + slot.data_size <= self.buf.len());
        let start: usize = HEADER_SIZE + slot.data_offset as usize;
        let end: usize = start + slot.data_size as usize;
        slice_subrange(self.buf.as_slice(), start, end)
    }

    /// The data of item `i`, or `None` where it runs past the leaf.
    pub fn checked_item(&self, i: usize) -> (r: Option<&[u8]>)
        requires
            i < self.slots@.len(),
        ensures
            r is Some <==> self.item_in_bounds(i as int),
            r matches Some(d) ==> d@ == self.item(i as int),
    {
        let slot = &self.slots[i];
        let end: u64 = 101 + slot.data_offset as u64 + slot.data_size as u64;
        if end <= self.buf.len() as u64 {
            Some(self.item_data(i))
        } else {
            None
        }
    }
}

/// A parsed internal node: its header and child pointers.
pub struct InternalNode {
    pub header: Header,
    pub ptrs: Vec<KeyPtr>,
}

/// A parsed node: a leaf at level 0, an internal node at higher levels.
pub enum Node {
    Leaf(Leaf),
    Internal(InternalNode),
}

/// The slot or pointer array that the header announces lies inside `buf`.
pub open spec fn node_in_bounds(buf: Seq<u8>) -> bool {
    &&& buf.len() >= 101
    &&& 101 + util::le32(buf, 96) * (if buf[100] == 0 { 25int } else { 33 }) <= buf.len()
}

/// The item slots of a leaf.
pub open spec fn slots_of(buf: Seq<u8>) -> Seq<LeafItemSlot> {
    Seq::new(util::le32(buf, 96) as nat, |i: int| slot_at(buf, 101 + i * 25))
}

/// The child pointers of an internal node.
pub open spec fn ptrs_of(buf: Seq<u8>) -> Seq<KeyPtr> {
    Seq::new(util::le32(buf, 96) as nat, |i: int| key::key_ptr_at(buf, 101 + i * 33))
}

/// `node` is what `buf` holds.
pub open spec fn node_of(node: Node, buf: Seq<u8>) -> bool {
    match node {
        Node::Leaf(leaf) => {
            &&& buf[100] == 0
            &&& header_of(leaf.header, buf)
            &&& leaf.slots@ == slots_of(buf)
            &&& leaf.buf@ == buf
        },
        Node::Internal(internal) => {
            &&& buf[100] != 0
            &&& header_of(internal.header, buf)
            &&& internal.ptrs@ == ptrs_of(buf)
        },
    }
}

/// Whether the slot or pointer array that the header announces lies inside
/// `buf`.
pub fn node_fits(buf: &[u8]) -> (r: bool)
    ensures
        r == node_in_bounds(buf@),
{
    if buf.len() < HEADER_SIZE {
        return false;
    }
    let n: u64 = util::le_u32(buf, 96) as u64;
    let size: u64 = if buf[100] == 0 { 25 } else { 33 };
    assert(n * size <= 0xffff_ffff * 33) by (nonlinear_arith)
        requires
            n <= 0xffff_ffff,
            size <= 33,
    ;
    101 + n * size <= buf.len() as u64
}

impl Node {
    pub open spec fn spec_header(&self) -> Header {
        match self {
            Node::Leaf(l) => l.header,
            Node::Internal(i) => i.header,
        }
    }

    pub fn header(&self) -> (r: &Header)
        ensures
            *r == self.spec_header(),
    {
        match self {
            Node::Leaf(l) => &l.header,
            Node::Internal(i) => &i.header,
        }
    }

    /// Parses a node: level 0 nodes are leaves with item slots; higher levels
    /// are internal nodes whose slots are child key pointers.
    pub fn parse(buf: Vec<u8>) -> (r: Self)
        requires
            node_in_bounds(buf@),
        ensures
            node_of(r, buf@),
    {
        let header = Header::parse(buf.as_slice());
        let n: usize = header.nritems as usize;
        let len: usize = buf.len();
        if header.level == 0 {
            let mut slots: Vec<LeafItemSlot> = Vec::new();
            let mut i: usize = 0;
            while i < n
                invariant
                    i <= n,
                    n == util::le32(buf@, 96),
                    len == buf@.len(),
                    101 + n * 25 <= len,
                    slots@ == slots_of(buf@).take(i as int),
                decreases n - i,
            {
                slots.push(LeafItemSlot::parse(buf.as_slice(), HEADER_SIZE + i * LEAF_ITEM_SIZE));
                i = i + 1;
                assert(slots@ =~= slots_of(buf@).take(i as int));
            }
            assert(slots_of(buf@).take(n as int) =~= slots_of(buf@));
            Node::Leaf(Leaf { header, slots, buf })
        } else {
            let mut ptrs: Vec<KeyPtr> = Vec::new();
            let mut i: usize = 0;
            while i < n
                invariant
                    i <= n,
                    n == util::le32(buf@, 96),
                    len == buf@.len(),
                    101 + n * 33 <= len,
                    ptrs@ == ptrs_of(buf@).take(i as int),
                decreases n - i,
            {
                ptrs.push(KeyPtr::parse(buf.as_slice(), HEADER_SIZE + i * KEYPTR_SIZE));
                i = i + 1;
                assert(ptrs@ =~= ptrs_of(buf@).take(i as int));
            }
            assert(ptrs_of(buf@).take(n as int) =~= ptrs_of(buf@));
            Node::Internal(InternalNode { header, ptrs })
        }
    }
}

} // verus!
