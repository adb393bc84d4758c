//! Reading inverts writing: every structure that stands on disk is read back
//! with the values it was laid out with, whatever they are.

use vstd::bytes::spec_u64_to_le_bytes;
use vstd::prelude::*;

use crate::btrfs::chunk;
use crate::btrfs::chunk::{ChunkItem, ChunkRecord, Stripe};
use crate::btrfs::dev_extent;
use crate::btrfs::extent;
use crate::btrfs::key;
use crate::btrfs::key::{Key, KeyPtr};
use crate::btrfs::node;
use crate::btrfs::node::{Header, Leaf, LeafItemSlot, Node};
use crate::btrfs::root;
use crate::btrfs::superblock;
use crate::btrfs::superblock::Superblock;
use crate::btrfs::util;

verus! {

// ---------------------------------------------------------------------------
// Little-endian numbers
// ---------------------------------------------------------------------------

/// `bytes` stand in `buf` at `at`.
pub open spec fn holds(buf: Seq<u8>, at: int, bytes: Seq<u8>) -> bool {
    &&& 0 <= at
    &&& at + bytes.len() <= buf.len()
    &&& buf.subrange(at, at + bytes.len()) == bytes
}

/// The 64-bit number stands in `buf` at `at`, lowest byte first.
pub open spec fn holds64(buf: Seq<u8>, at: int, v: u64) -> bool {
    holds(buf, at, spec_u64_to_le_bytes(v))
}

/// The 32-bit number stands in `buf` at `at`, lowest byte first.
pub open spec fn holds32(buf: Seq<u8>, at: int, v: u32) -> bool {
    holds(buf, at, spec_u64_to_le_bytes(v as u64).take(4))
}

/// The 16-bit number stands in `buf` at `at`, lowest byte first.
pub open spec fn holds16(buf: Seq<u8>, at: int, v: u16) -> bool {
    holds(buf, at, spec_u64_to_le_bytes(v as u64).take(2))
}

/// A number is the sum of its bytes, each in its place.
proof fn lemma_le_parts(v: u64)
    ensures
        ({
            let s = spec_u64_to_le_bytes(v);
            &&& s.len() == 8
            &&& v == s[0] + 0x100 * s[1] + 0x1_0000 * s[2] + 0x100_0000 * s[3] + 0x1_0000_0000 * (
            s[4] + 0x100 * s[5] + 0x1_0000 * s[6] + 0x100_0000 * s[7])
            &&& v < 0x1_0000_0000 ==> s[4] == 0 && s[5] == 0 && s[6] == 0 && s[7] == 0
            &&& v < 0x1_0000 ==> s[2] == 0 && s[3] == 0
        }),
{
    vstd::bytes::spec_u64_to_le_bytes_to_open(v);
    assert({
        &&& v & 0xff < 256
        &&& (v >> 8) & 0xff < 256
        &&& (v >> 16) & 0xff < 256
        &&& (v >> 24) & 0xff < 256
        &&& (v >> 32) & 0xff < 256
        &&& (v >> 40) & 0xff < 256
        &&& (v >> 48) & 0xff < 256
        &&& (v >> 56) & 0xff < 256
        &&& v < 0x1_0000_0000 ==> (v >> 32) & 0xff == 0 && (v >> 40) & 0xff == 0 && (v >> 48)
            & 0xff == 0 && (v >> 56) & 0xff == 0
        &&& v < 0x1_0000 ==> (v >> 16) & 0xff == 0 && (v >> 24) & 0xff == 0
    }) by (bit_vector);
    assert(v == (v & 0xff) + 0x100 * ((v >> 8) & 0xff) + 0x1_0000 * ((v >> 16) & 0xff) + 0x100_0000
        * ((v >> 24) & 0xff) + 0x1_0000_0000 * (((v >> 32) & 0xff) + 0x100 * ((v >> 40) & 0xff)
        + 0x1_0000 * ((v >> 48) & 0xff) + 0x100_0000 * ((v >> 56) & 0xff))) by (bit_vector);
}

/// A number that stands in a buffer is read back, for all values of its width.
pub proof fn law_numbers_are_read_back(buf: Seq<u8>, at: int, a: u16, b: u32, c: u64)
    ensures
        holds16(buf, at, a) ==> util::le16(buf, at) == a,
        holds32(buf, at, b) ==> util::le32(buf, at) == b,
        holds64(buf, at, c) ==> util::le64(buf, at) == c,
{
    if holds16(buf, at, a) {
        lemma_le_parts(a as u64);
        let s = spec_u64_to_le_bytes(a as u64);
        let t = buf.subrange(at, at + 2);
        assert(t == s.take(2));
        assert(t[0] == buf[at] && t[1] == buf[at + 1]);
        assert(s.take(2)[0] == s[0] && s.take(2)[1] == s[1]);
    }
    if holds32(buf, at, b) {
        lemma_le_parts(b as u64);
        let s = spec_u64_to_le_bytes(b as u64);
        let t = buf.subrange(at, at + 4);
        assert(t == s.take(4));
        assert(t[0] == buf[at] && t[1] == buf[at + 1] && t[2] == buf[at + 2] && t[3] == buf[at
            + 3]);
        assert(s.take(4)[0] == s[0] && s.take(4)[1] == s[1] && s.take(4)[2] == s[2] && s.take(
            4,
        )[3] == s[3]);
    }
    if holds64(buf, at, c) {
        lemma_le_parts(c);
        let s = spec_u64_to_le_bytes(c);
        let t = buf.subrange(at, at + 8);
        assert(t == s);
        assert(t[0] == buf[at] && t[1] == buf[at + 1] && t[2] == buf[at + 2] && t[3] == buf[at
            + 3] && t[4] == buf[at + 4] && t[5] == buf[at + 5] && t[6] == buf[at + 6] && t[7]
            == buf[at + 7]);
        let low = s[0] + 0x100 * s[1] + 0x1_0000 * s[2] + 0x100_0000 * s[3];
        let high = s[4] + 0x100 * s[5] + 0x1_0000 * s[6] + 0x100_0000 * s[7];
        assert(0 <= low < 0x1_0000_0000 && 0 <= high < 0x1_0000_0000);
        assert(util::le32(buf, at) == low);
        assert(util::le32(buf, at + 4) == high);
    }
}

// ---------------------------------------------------------------------------
// Keys and nodes
// ---------------------------------------------------------------------------

/// The key stands in `buf` at `at`: object, type, offset.
pub open spec fn holds_key(buf: Seq<u8>, at: int, k: Key) -> bool {
    &&& holds64(buf, at, k.objectid)
    &&& holds(buf, at + 8, seq![k.ty])
    &&& holds64(buf, at + 9, k.offset)
}

/// The child pointer stands in `buf` at `at`: key, address, generation.
pub open spec fn holds_ptr(buf: Seq<u8>, at: int, p: KeyPtr) -> bool {
    &&& holds_key(buf, at, p.key)
    &&& holds64(buf, at + 17, p.blockptr)
    &&& holds64(buf, at + 25, p.generation)
}

/// The item slot stands in `buf` at `at`: key, offset of the data, its size.
pub open spec fn holds_slot(buf: Seq<u8>, at: int, s: LeafItemSlot) -> bool {
    &&& holds_key(buf, at, s.key)
    &&& holds32(buf, at + 17, s.data_offset)
    &&& holds32(buf, at + 21, s.data_size)
}

/// Keys, child pointers and item slots are read back as they were laid out.
pub proof fn law_keys_are_read_back(
    buf: Seq<u8>,
    at: int,
    k: Key,
    p: KeyPtr,
    s: LeafItemSlot,
)
    ensures
        holds_key(buf, at, k) ==> key::key_at(buf, at) == k,
        holds_ptr(buf, at, p) ==> key::key_ptr_at(buf, at) == p,
        holds_slot(buf, at, s) ==> node::slot_at(buf, at) == s,
{
    if holds_key(buf, at, k) {
        lemma_key(buf, at, k);
    }
    if holds_ptr(buf, at, p) {
        lemma_key(buf, at, p.key);
        law_numbers_are_read_back(buf, at + 17, 0, 0, p.blockptr);
        law_numbers_are_read_back(buf, at + 25, 0, 0, p.generation);
    }
    if holds_slot(buf, at, s) {
        lemma_key(buf, at, s.key);
        law_numbers_are_read_back(buf, at + 17, 0, s.data_offset, 0);
        law_numbers_are_read_back(buf, at + 21, 0, s.data_size, 0);
    }
}

proof fn lemma_key(buf: Seq<u8>, at: int, k: Key)
    requires
        holds_key(buf, at, k),
    ensures
        key::key_at(buf, at) == k,
{
    law_numbers_are_read_back(buf, at, 0, 0, k.objectid);
    law_numbers_are_read_back(buf, at + 9, 0, 0, k.offset);
    lemma_byte(buf, at + 8, k.ty);
}

proof fn lemma_byte(buf: Seq<u8>, at: int, b: u8)
    requires
        holds(buf, at, seq![b]),
    ensures
        buf[at] == b,
{
    assert(buf.subrange(at, at + 1)[0] == buf[at]);
}

/// Items are in the order of objects, then of types, then of offsets.
pub proof fn law_keys_compare_by_object_type_offset(a: Key, b: Key)
    ensures
        a.objectid != b.objectid ==> key::key_le(a, b) == (a.objectid < b.objectid),
        a.objectid == b.objectid && a.ty != b.ty ==> key::key_le(a, b) == (a.ty < b.ty),
        a.objectid == b.objectid && a.ty == b.ty ==> key::key_le(a, b) == (a.offset <= b.offset),
{
}

/// The header stands at the start of `buf`, behind the 32 bytes of a checksum.
pub open spec fn holds_header(buf: Seq<u8>, h: Header) -> bool {
    &&& holds(buf, 32, h.fsid@)
    &&& holds64(buf, 48, h.bytenr)
    &&& holds64(buf, 56, h.flags)
    &&& holds(buf, 64, h.chunk_tree_uuid@)
    &&& holds64(buf, 80, h.generation)
    &&& holds64(buf, 88, h.owner)
    &&& holds32(buf, 96, h.nritems)
    &&& holds(buf, 100, seq![h.level])
}

/// What stands in two headers is the same.
pub open spec fn same_header(a: Header, b: Header) -> bool {
    &&& a.fsid@ == b.fsid@
    &&& a.bytenr == b.bytenr
    &&& a.flags == b.flags
    &&& a.chunk_tree_uuid@ == b.chunk_tree_uuid@
    &&& a.generation == b.generation
    &&& a.owner == b.owner
    &&& a.nritems == b.nritems
    &&& a.level == b.level
}

/// A header is read back as it was laid out.
pub proof fn law_header_is_read_back(buf: Seq<u8>, laid: Header, read: Header)
    requires
        holds_header(buf, laid),
        node::header_of(read, buf),
    ensures
        same_header(read, laid),
{
    law_numbers_are_read_back(buf, 48, 0, 0, laid.bytenr);
    law_numbers_are_read_back(buf, 56, 0, 0, laid.flags);
    law_numbers_are_read_back(buf, 80, 0, 0, laid.generation);
    law_numbers_are_read_back(buf, 88, 0, 0, laid.owner);
    law_numbers_are_read_back(buf, 96, 0, laid.nritems, 0);
    lemma_byte(buf, 100, laid.level);
    assert(laid.fsid@.len() == 16);
    assert(laid.chunk_tree_uuid@.len() == 16);
}

/// A leaf is read back: every slot, and for every slot the bytes that stand at
/// its offset behind the header.
pub proof fn law_leaf_is_read_back(
    buf: Seq<u8>,
    header: Header,
    slots: Seq<LeafItemSlot>,
    read: Node,
)
    requires
        holds_header(buf, header),
        header.level == 0,
        header.nritems == slots.len(),
        forall|i: int|
            0 <= i < slots.len() ==> holds_slot(buf, 101 + 25 * i, #[trigger] slots[i]),
        node::node_of(read, buf),
    ensures
        read matches Node::Leaf(leaf) && {
            &&& same_header(leaf.header, header)
            &&& leaf.slots@ == slots
            &&& forall|i: int, data: Seq<u8>|
                0 <= i < slots.len() && data.len() == (#[trigger] slots[i]).data_size
                    && #[trigger] holds(buf, 101 + slots[i].data_offset, data)
                    ==> leaf.item_in_bounds(i) && leaf.item(i) == data
            &&& forall|i: int|
                0 <= i < slots.len() && 101 + (#[trigger] slots[i]).data_offset
                    + slots[i].data_size > buf.len() ==> !leaf.item_in_bounds(i)
        },
{
    lemma_byte(buf, 100, 0);
    law_numbers_are_read_back(buf, 96, 0, header.nritems, 0);
    match read {
        Node::Leaf(leaf) => {
            law_header_is_read_back(buf, header, leaf.header);
            assert forall|i: int| 0 <= i < slots.len() implies leaf.slots@[i] == slots[i] by {
                assert(holds_slot(buf, 101 + 25 * i, slots[i]));
                law_keys_are_read_back(
                    buf,
                    101 + 25 * i,
                    arbitrary(),
                    arbitrary(),
                    slots[i],
                );
                assert(101 + i * 25 == 101 + 25 * i);
            }
            assert(leaf.slots@ =~= slots);
        },
        Node::Internal(_) => {},
    }
}

/// An internal node is read back with every child pointer.
pub proof fn law_internal_node_is_read_back(
    buf: Seq<u8>,
    header: Header,
    ptrs: Seq<KeyPtr>,
    read: Node,
)
    requires
        holds_header(buf, header),
        header.level != 0,
        header.nritems == ptrs.len(),
        forall|i: int| 0 <= i < ptrs.len() ==> holds_ptr(buf, 101 + 33 * i, #[trigger] ptrs[i]),
        node::node_of(read, buf),
    ensures
        read matches Node::Internal(internal) && same_header(internal.header, header)
            && internal.ptrs@ == ptrs,
{
    lemma_byte(buf, 100, header.level);
    law_numbers_are_read_back(buf, 96, 0, header.nritems, 0);
    match read {
        Node::Internal(internal) => {
            law_header_is_read_back(buf, header, internal.header);
            assert forall|i: int| 0 <= i < ptrs.len() implies internal.ptrs@[i] == ptrs[i] by {
                assert(holds_ptr(buf, 101 + 33 * i, ptrs[i]));
                law_keys_are_read_back(buf, 101 + 33 * i, arbitrary(), ptrs[i], arbitrary());
                assert(101 + i * 33 == 101 + 33 * i);
            }
            assert(internal.ptrs@ =~= ptrs);
        },
        Node::Leaf(_) => {},
    }
}

/// A node can be taken apart where its items fit behind its header, 25 bytes for
/// a leaf's, 33 for an internal node's, and nowhere else.
pub proof fn law_node_must_have_room(buf: Seq<u8>, header: Header)
    requires
        holds_header(buf, header),
    ensures
        header.level == 0 ==> node::node_in_bounds(buf) == (101 + 25 * header.nritems
            <= buf.len()),
        header.level != 0 ==> node::node_in_bounds(buf) == (101 + 33 * header.nritems
            <= buf.len()),
{
    lemma_byte(buf, 100, header.level);
    law_numbers_are_read_back(buf, 96, 0, header.nritems, 0);
}

// ---------------------------------------------------------------------------
// Chunks
// ---------------------------------------------------------------------------

/// The chunk item stands in `buf` at `at`: length, stripe length, type, number
/// of stripes, and 32 bytes for each stripe.
pub open spec fn holds_chunk(
    buf: Seq<u8>,
    at: int,
    length: u64,
    stripe_len: u64,
    ty: u64,
    stripes: Seq<Stripe>,
) -> bool {
    &&& stripes.len() < 0x1_0000
    &&& holds64(buf, at, length)
    &&& holds64(buf, at + 16, stripe_len)
    &&& holds64(buf, at + 24, ty)
    &&& holds16(buf, at + 44, stripes.len() as u16)
    &&& at + 48 + 32 * stripes.len() <= buf.len()
    &&& forall|i: int|
        0 <= i < stripes.len() ==> holds_stripe(buf, at + 48 + 32 * i, #[trigger] stripes[i])
}

/// The stripe stands in `buf` at `at`: device, then offset.
pub open spec fn holds_stripe(buf: Seq<u8>, at: int, s: Stripe) -> bool {
    holds64(buf, at, s.devid) && holds64(buf, at + 8, s.offset)
}

/// The item was read with these values.
pub open spec fn chunk_is(
    item: ChunkItem,
    length: u64,
    stripe_len: u64,
    ty: u64,
    stripes: Seq<Stripe>,
) -> bool {
    &&& item.length == length
    &&& item.stripe_len == stripe_len
    &&& item.ty == ty
    &&& item.num_stripes == stripes.len()
    &&& item.stripes@ == stripes
}

/// Parsing a chunk item inverts laying it out: it can be parsed, and gives the
/// length, the stripe length, the type and exactly the stripes that stand there.
pub proof fn law_chunk_item_is_read_back(
    buf: Seq<u8>,
    length: u64,
    stripe_len: u64,
    ty: u64,
    stripes: Seq<Stripe>,
    item: ChunkItem,
)
    requires
        holds_chunk(buf, 0, length, stripe_len, ty, stripes),
    ensures
        chunk::chunk_item_in_bounds(buf),
        chunk::chunk_item_of(item, buf) ==> chunk_is(item, length, stripe_len, ty, stripes),
{
    law_numbers_are_read_back(buf, 0, 0, 0, length);
    law_numbers_are_read_back(buf, 16, 0, 0, stripe_len);
    law_numbers_are_read_back(buf, 24, 0, 0, ty);
    law_numbers_are_read_back(buf, 44, stripes.len() as u16, 0, 0);
    if chunk::chunk_item_of(item, buf) {
        assert forall|i: int| 0 <= i < stripes.len() implies item.stripes@[i] == stripes[i] by {
            assert(holds_stripe(buf, 0 + 48 + 32 * i, stripes[i]));
            law_numbers_are_read_back(buf, 48 + i * 32, 0, 0, stripes[i].devid);
            law_numbers_are_read_back(buf, 48 + i * 32 + 8, 0, 0, stripes[i].offset);
        }
        assert(item.stripes@ =~= stripes);
    }
}

/// A chunk item whose stripes do not all stand in the buffer cannot be parsed.
pub proof fn law_cut_off_chunk_item_is_refused(buf: Seq<u8>, count: u16)
    requires
        buf.len() < 48 || holds16(buf, 44, count) && buf.len() < 48 + 32 * count,
    ensures
        !chunk::chunk_item_in_bounds(buf),
{
    if buf.len() >= 48 {
        law_numbers_are_read_back(buf, 44, count, 0, 0);
    }
}

/// What stands in a part of a buffer stands in the buffer.
proof fn lemma_holds_in_part(buf: Seq<u8>, from: int, to: int, at: int, bytes: Seq<u8>)
    requires
        0 <= from <= to <= buf.len(),
        holds(buf, from + at, bytes),
        0 <= at,
        from + at + bytes.len() <= to,
    ensures
        holds(buf.subrange(from, to), at, bytes),
{
    assert(buf.subrange(from, to).subrange(at, at + bytes.len()) =~= buf.subrange(
        from + at,
        from + at + bytes.len(),
    ));
}

/// The system chunk array holds, from `at` on, an entry for each record and then
/// ends: a key of type 228 whose offset is the logical address, and the item.
pub open spec fn holds_sys_chunks(buf: Seq<u8>, at: int, recs: Seq<ChunkRecord>) -> bool
    decreases recs.len(),
{
    if recs.len() == 0 {
        at == buf.len()
    } else {
        let r = recs[0];
        &&& 0 <= at
        &&& holds(buf, at + 8, seq![228u8])
        &&& holds64(buf, at + 9, r.logical)
        &&& holds_chunk(
            buf,
            at + 17,
            r.chunk.length,
            r.chunk.stripe_len,
            r.chunk.ty,
            r.chunk.stripes@,
        )
        &&& r.chunk.num_stripes == r.chunk.stripes@.len()
        &&& holds_sys_chunks(buf, at + 17 + 48 + 32 * r.chunk.stripes@.len(), recs.skip(1))
    }
}

/// Two records that say the same.
pub open spec fn same_record(a: ChunkRecord, b: ChunkRecord) -> bool {
    a.logical == b.logical && chunk_is(
        a.chunk,
        b.chunk.length,
        b.chunk.stripe_len,
        b.chunk.ty,
        b.chunk.stripes@,
    )
}

/// The system chunk array is read back, entry by entry.
pub proof fn law_sys_chunks_are_read_back(
    buf: Seq<u8>,
    at: int,
    laid: Seq<ChunkRecord>,
    read: Seq<ChunkRecord>,
)
    requires
        holds_sys_chunks(buf, at, laid),
        chunk::sys_chunks_from(read, buf, at),
    ensures
        read.len() == laid.len(),
        forall|i: int| 0 <= i < laid.len() ==> same_record(#[trigger] read[i], laid[i]),
    decreases laid.len(),
{
    if laid.len() > 0 {
        let r = laid[0];
        let n = r.chunk.stripes@.len();
        let end = at + 17 + 48 + 32 * n;
        lemma_byte(buf, at + 8, 228);
        law_numbers_are_read_back(buf, at + 9, 0, 0, r.logical);
        law_numbers_are_read_back(buf, at + 17 + 44, n as u16, 0, 0);
        assert(chunk::sys_chunk_at(buf, at));
        assert(chunk::sys_chunk_next(buf, at) == end);
        let part = buf.subrange(at + 17, end);
        vstd::bytes::lemma_auto_spec_u64_to_from_le_bytes();
        lemma_holds_in_part(buf, at + 17, end, 0, spec_u64_to_le_bytes(r.chunk.length));
        lemma_holds_in_part(buf, at + 17, end, 16, spec_u64_to_le_bytes(r.chunk.stripe_len));
        lemma_holds_in_part(buf, at + 17, end, 24, spec_u64_to_le_bytes(r.chunk.ty));
        lemma_holds_in_part(buf, at + 17, end, 44, spec_u64_to_le_bytes(n as u16 as u64).take(2));
        assert forall|i: int| 0 <= i < n implies holds_stripe(
            part,
            0 + 48 + 32 * i,
            #[trigger] r.chunk.stripes@[i],
        ) by {
            let s = r.chunk.stripes@[i];
            assert(holds_stripe(buf, at + 17 + 48 + 32 * i, s));
            lemma_holds_in_part(
                buf,
                at + 17,
                end,
                48 + 32 * i,
                spec_u64_to_le_bytes(s.devid),
            );
            lemma_holds_in_part(
                buf,
                at + 17,
                end,
                48 + 32 * i + 8,
                spec_u64_to_le_bytes(s.offset),
            );
        }
        law_chunk_item_is_read_back(
            part,
            r.chunk.length,
            r.chunk.stripe_len,
            r.chunk.ty,
            r.chunk.stripes@,
            read[0].chunk,
        );
        law_sys_chunks_are_read_back(buf, end, laid.skip(1), read.skip(1));
        assert forall|i: int| 0 <= i < laid.len() implies same_record(
            #[trigger] read[i],
            laid[i],
        ) by {
            if i > 0 {
                assert(read.skip(1)[i - 1] == read[i]);
                assert(laid.skip(1)[i - 1] == laid[i]);
            }
        }
    }
}

// ---------------------------------------------------------------------------
// Roots, extents, the superblock
// ---------------------------------------------------------------------------

/// A root item is read back: its node's address stands at 176, its level at 238.
pub proof fn law_root_item_is_read_back(buf: Seq<u8>, bytenr: u64, level: u8)
    requires
        holds64(buf, 176, bytenr),
        holds(buf, 238, seq![level]),
    ensures
        root::root_item_at(buf).bytenr == bytenr,
        root::root_item_at(buf).level == level,
{
    law_numbers_are_read_back(buf, 176, 0, 0, bytenr);
    lemma_byte(buf, 238, level);
}

/// A device extent is read back: its physical start is the key's offset, its
/// chunk stands at 16 of the item, its length at 24. It is an item of type 204
/// whose object is the device.
pub proof fn law_dev_extent_is_read_back(
    leaf: Leaf,
    i: int,
    devid: u64,
    phys: u64,
    chunk_offset: u64,
    length: u64,
)
    requires
        0 <= i < leaf.slots@.len(),
        leaf.slots@[i].key == (Key { objectid: devid, ty: 204, offset: phys }),
        holds64(leaf.item(i), 16, chunk_offset),
        holds64(leaf.item(i), 24, length),
    ensures
        dev_extent::is_extent_of(leaf, i, devid),
        dev_extent::extent_at(leaf, i, devid).devid == devid,
        dev_extent::extent_at(leaf, i, devid).phys_start == phys,
        dev_extent::extent_at(leaf, i, devid).chunk_offset == chunk_offset,
        dev_extent::extent_at(leaf, i, devid).length == length,
{
    law_numbers_are_read_back(leaf.item(i), 16, 0, 0, chunk_offset);
    law_numbers_are_read_back(leaf.item(i), 24, 0, 0, length);
}

/// A leaf gives exactly the extents of the device: nothing of another type or
/// another device, each of its own once, in the order of the leaf.
pub proof fn law_leaf_gives_the_devices_extents(leaf: Leaf, devid: u64, n: int)
    requires
        0 <= n <= leaf.slots@.len(),
    ensures
        forall|i: int|
            0 <= i < n && (#[trigger] leaf.slots@[i]).key.ty == 204 && leaf.slots@[i].key.objectid
                == devid ==> dev_extent::extents_upto(leaf, devid, n).contains(
                dev_extent::extent_at(leaf, i, devid),
            ),
        forall|j: int|
            0 <= j < dev_extent::extents_upto(leaf, devid, n).len() ==> exists|i: int|
                {
                    &&& 0 <= i < n
                    &&& (#[trigger] leaf.slots@[i]).key.ty == 204
                    &&& leaf.slots@[i].key.objectid == devid
                    &&& #[trigger] dev_extent::extents_upto(leaf, devid, n)[j]
                        == dev_extent::extent_at(leaf, i, devid)
                },
        dev_extent::extents_upto(leaf, devid, n).len() <= n,
        (forall|i: int|
            0 <= i < n ==> (#[trigger] leaf.slots@[i]).key.ty == 204
                && leaf.slots@[i].key.objectid == devid) ==> dev_extent::extents_upto(
            leaf,
            devid,
            n,
        ) == Seq::new(n as nat, |i: int| dev_extent::extent_at(leaf, i, devid)),
    decreases n,
{
    let all = dev_extent::extents_upto(leaf, devid, n);
    if n > 0 {
        law_leaf_gives_the_devices_extents(leaf, devid, n - 1);
        let before = dev_extent::extents_upto(leaf, devid, n - 1);
        let last = leaf.slots@[n - 1];
        if last.key.ty == 204 && last.key.objectid == devid {
            assert(all == before.push(dev_extent::extent_at(leaf, n - 1, devid)));
            assert(all[all.len() - 1] == dev_extent::extent_at(leaf, n - 1, devid));
        } else {
            assert(all == before);
        }
        assert forall|i: int|
            0 <= i < n && (#[trigger] leaf.slots@[i]).key.ty == 204 && leaf.slots@[i].key.objectid
                == devid implies all.contains(dev_extent::extent_at(leaf, i, devid)) by {
            if i < n - 1 {
                let j = choose|j: int|
                    0 <= j < before.len() && before[j] == dev_extent::extent_at(leaf, i, devid);
                assert(all[j] == before[j]);
            }
        }
        assert forall|j: int| 0 <= j < all.len() implies exists|i: int|
            {
                &&& 0 <= i < n
                &&& (#[trigger] leaf.slots@[i]).key.ty == 204
                &&& leaf.slots@[i].key.objectid == devid
                &&& #[trigger] all[j] == dev_extent::extent_at(leaf, i, devid)
            } by {
            if j < before.len() {
                assert(all[j] == before[j]);
            } else {
                assert(leaf.slots@[n - 1].key.ty == 204);
            }
        }
        if forall|i: int|
            0 <= i < n ==> (#[trigger] leaf.slots@[i]).key.ty == 204
                && leaf.slots@[i].key.objectid == devid {
            assert(leaf.slots@[n - 1].key.ty == 204);
            assert(all =~= Seq::new(
                n as nat,
                |i: int| dev_extent::extent_at(leaf, i, devid),
            ));
        }
    } else {
        assert(all =~= Seq::new(n as nat, |i: int| dev_extent::extent_at(leaf, i, devid)));
    }
}

/// A file extent is read back; an inline one, whose kind is 0, gives none.
pub proof fn law_file_extent_is_read_back(
    buf: Seq<u8>,
    inode: u64,
    file_offset: u64,
    kind: u8,
    disk_bytenr: u64,
    disk_num_bytes: u64,
    offset: u64,
    num_bytes: u64,
)
    requires
        holds(buf, 20, seq![kind]),
        holds64(buf, 21, disk_bytenr),
        holds64(buf, 29, disk_num_bytes),
        holds64(buf, 37, offset),
        holds64(buf, 45, num_bytes),
    ensures
        extent::is_disk_extent(buf) == (kind != 0),
        extent::file_extent_at(buf, inode, file_offset) == (extent::FileExtent {
            inode,
            file_offset,
            extent_type: kind,
            disk_bytenr,
            disk_num_bytes,
            offset,
            num_bytes,
        }),
{
    vstd::bytes::lemma_auto_spec_u64_to_from_le_bytes();
    lemma_byte(buf, 20, kind);
    law_numbers_are_read_back(buf, 21, 0, 0, disk_bytenr);
    law_numbers_are_read_back(buf, 29, 0, 0, disk_num_bytes);
    law_numbers_are_read_back(buf, 37, 0, 0, offset);
    law_numbers_are_read_back(buf, 45, 0, 0, num_bytes);
}

/// The superblock stands in `buf`, each value at its place.
pub open spec fn holds_superblock(buf: Seq<u8>, sb: Superblock) -> bool {
    &&& buf.len() == 4096
    &&& holds(buf, 32, sb.fsid@)
    &&& holds64(buf, 48, sb.bytenr)
    &&& holds(buf, 64, sb.magic@)
    &&& holds64(buf, 72, sb.generation)
    &&& holds64(buf, 80, sb.root)
    &&& holds64(buf, 88, sb.chunk_root)
    &&& holds64(buf, 112, sb.total_bytes)
    &&& holds64(buf, 120, sb.bytes_used)
    &&& holds64(buf, 136, sb.num_devices)
    &&& holds32(buf, 144, sb.sector_size)
    &&& holds32(buf, 148, sb.node_size)
    &&& holds32(buf, 156, sb.stripesize)
    &&& holds32(buf, 160, sb.sys_chunk_array_size)
    &&& holds64(buf, 164, sb.chunk_root_generation)
    &&& holds16(buf, 196, sb.csum_type)
    &&& holds64(buf, 201, sb.devid)
    &&& sb.sys_chunk_array_size == sb.sys_chunks@.len()
    &&& holds(buf, 811, sb.sys_chunks@)
}

/// A superblock is read back as it was laid out.
pub proof fn law_superblock_is_read_back(buf: Seq<u8>, laid: Superblock, read: Superblock)
    requires
        holds_superblock(buf, laid),
        superblock::superblock_of(read, buf),
    ensures
        read.fsid@ == laid.fsid@,
        read.bytenr == laid.bytenr,
        read.magic@ == laid.magic@,
        read.generation == laid.generation,
        read.root == laid.root,
        read.chunk_root == laid.chunk_root,
        read.total_bytes == laid.total_bytes,
        read.bytes_used == laid.bytes_used,
        read.num_devices == laid.num_devices,
        read.sector_size == laid.sector_size,
        read.node_size == laid.node_size,
        read.stripesize == laid.stripesize,
        read.sys_chunk_array_size == laid.sys_chunk_array_size,
        read.chunk_root_generation == laid.chunk_root_generation,
        read.csum_type == laid.csum_type,
        read.devid == laid.devid,
        read.sys_chunks@ == laid.sys_chunks@,
{
    assert(laid.fsid@.len() == 16);
    assert(laid.magic@.len() == 8);
    law_numbers_are_read_back(buf, 48, 0, 0, laid.bytenr);
    law_numbers_are_read_back(buf, 72, 0, 0, laid.generation);
    law_numbers_are_read_back(buf, 80, 0, 0, laid.root);
    law_numbers_are_read_back(buf, 88, 0, 0, laid.chunk_root);
    law_numbers_are_read_back(buf, 112, 0, 0, laid.total_bytes);
    law_numbers_are_read_back(buf, 120, 0, 0, laid.bytes_used);
    law_numbers_are_read_back(buf, 136, 0, 0, laid.num_devices);
    law_numbers_are_read_back(buf, 144, 0, laid.sector_size, 0);
    law_numbers_are_read_back(buf, 148, 0, laid.node_size, 0);
    law_numbers_are_read_back(buf, 156, 0, laid.stripesize, 0);
    law_numbers_are_read_back(buf, 160, 0, laid.sys_chunk_array_size, 0);
    law_numbers_are_read_back(buf, 164, 0, 0, laid.chunk_root_generation);
    law_numbers_are_read_back(buf, 196, laid.csum_type, 0, 0);
    law_numbers_are_read_back(buf, 201, 0, 0, laid.devid);
}

} // verus!
