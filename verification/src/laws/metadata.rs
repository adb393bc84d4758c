//! Metadata: which copy of a node is used, and what a node says.

use vstd::prelude::*;

use crate::btrfs::chunk::{ChunkMap, MapEntry};
use crate::btrfs::extent;
use crate::btrfs::extent::covering;
use crate::btrfs::extent::{CsumLive, ExtentLive, ExtentLookup, Lookup, Phase, ReconfirmWalk};
use crate::btrfs::key;
use crate::btrfs::key::key_type;
use crate::btrfs::key::objectid;
use crate::btrfs::key::Key;
use crate::btrfs::node;
use crate::btrfs::node::{Header, InternalNode, Leaf, Node};
use crate::btrfs::reader;
use crate::btrfs::reader::{CopyKind, FsReader, ReadError, ReadNodeResult};
use crate::btrfs::tree;
use crate::btrfs::tree::{NodeRef, WalkStep};
use crate::btrfs::util;
use crate::btrfs::walk;
use crate::fs::Reconfirm;
use crate::laws::checksums;
use crate::laws::disk_format;

verus! {

// ---------------------------------------------------------------------------
// Numbers of the format
// ---------------------------------------------------------------------------

/// The numbers by which the format names its trees and items.
pub proof fn law_numbers_of_the_format()
    ensures
        key_type::INODE_ITEM == 1,
        key_type::INODE_REF == 12,
        key_type::DIR_ITEM == 84,
        key_type::DIR_INDEX == 96,
        key_type::EXTENT_DATA == 108,
        key_type::EXTENT_CSUM == 128,
        key_type::ROOT_ITEM == 132,
        key_type::EXTENT_ITEM == 168,
        key_type::METADATA_ITEM == 169,
        key_type::DEV_EXTENT_KEY == 204,
        key_type::DEV_ITEM == 216,
        key_type::CHUNK_ITEM == 228,
        objectid::ROOT_TREE == 1,
        objectid::EXTENT_TREE == 2,
        objectid::CHUNK_TREE == 3,
        objectid::DEV_TREE == 4,
        objectid::FS_TREE == 5,
        objectid::CSUM_TREE == 7,
        objectid::EXTENT_CSUM_OBJECTID == u64::MAX - 9,
{
}

// ---------------------------------------------------------------------------
// Copies of a node
// ---------------------------------------------------------------------------

/// The copy was read, and its checksum is that of its bytes.
pub open spec fn sound(csum_type: u16, copy: Option<Vec<u8>>) -> bool {
    copy matches Some(buf) && buf@.len() > 32 && checksums::stored_header(
        buf@,
        csum_type as int,
    ) == checksums::hashed(buf@.subrange(32, buf@.len() as int), csum_type as int)
}

/// The header is that of the node that is looked for.
pub open spec fn looked_for(
    fsid: Option<[u8; 16]>,
    h: Header,
    logical: u64,
    generation: u64,
    level: Option<u8>,
    owner: Option<u64>,
) -> bool {
    &&& h.bytenr == logical
    &&& fsid is Some ==> h.fsid@ == fsid.unwrap()@
    &&& level is Some ==> h.level == level.unwrap()
    &&& owner is Some ==> h.owner == owner.unwrap()
    &&& generation != u64::MAX ==> h.generation == generation
}

/// A copy is good if and only if its checksum is right and the header that stands
/// in it is that of the node that is looked for; stale if only its checksum is
/// right; corrupt if that is not; and unread where there is none.
pub proof fn law_copy_is_what_its_bytes_say(
    r: FsReader,
    copy: Option<Vec<u8>>,
    h: Header,
    logical: u64,
    generation: u64,
    level: Option<u8>,
    owner: Option<u64>,
)
    requires
        r.strategy is Some,
        r.strategy.unwrap().csum_type <= 3,
        copy is Some ==> disk_format::holds_header(copy.unwrap()@, h),
    ensures
        ({
            let kind = r.copy_kind(copy, logical, generation, level, owner);
            let t = r.strategy.unwrap().csum_type;
            let expected = looked_for(r.fsid, h, logical, generation, level, owner);
            &&& kind == CopyKind::Unread <==> copy is None
            &&& kind == CopyKind::Corrupt <==> copy is Some && !sound(t, copy)
            &&& kind == CopyKind::Stale <==> sound(t, copy) && !expected
            &&& kind == CopyKind::Good <==> sound(t, copy) && expected
        }),
{
    if let Some(buf) = copy {
        let b = buf@;
        disk_format::law_numbers_are_read_back(b, 48, 0, 0, h.bytenr);
        disk_format::law_numbers_are_read_back(b, 80, 0, 0, h.generation);
        disk_format::law_numbers_are_read_back(b, 88, 0, 0, h.owner);
        assert(h.fsid@.len() == 16);
        assert(b.subrange(100, 101)[0] == b[100]);
        assert(seq![h.level][0] == h.level);
        checksums::law_header_covers_what_follows_it(r.strategy.unwrap().csum_type, b);
    }
}

/// The node that is handed out is that of the first good copy. Without one, it is
/// that of the first stale copy, and told to be stale. Without either, there is
/// none; where not even one copy was read, that is the error.
pub proof fn law_first_good_copy_is_used(
    r: FsReader,
    copies: Seq<Option<Vec<u8>>>,
    logical: u64,
    generation: u64,
    level: Option<u8>,
    owner: Option<u64>,
    out: Result<ReadNodeResult, ReadError>,
    i: int,
)
    requires
        r.strategy is Some,
        r.judged(copies, logical, generation, level, owner, out),
        0 <= i < copies.len(),
    ensures
        ({
            let kind = |j: int| r.copy_kind(copies[j], logical, generation, level, owner);
            &&& kind(i) == CopyKind::Good && (forall|j: int|
                0 <= j < i ==> (#[trigger] kind(j)) != CopyKind::Good) ==> match out {
                Ok(res) => {
                    &&& res.node is Some
                    &&& node::node_of(res.node.unwrap(), copies[i].unwrap()@)
                    &&& !res.generation_mismatch
                    &&& !res.all_mirrors_failed
                },
                Err(e) => e == (ReadError::Malformed { logical }) && !node::node_in_bounds(
                    copies[i].unwrap()@,
                ),
            }
            &&& kind(i) == CopyKind::Stale && (forall|j: int|
                0 <= j < copies.len() ==> (#[trigger] kind(j)) != CopyKind::Good) && (forall|
                j: int,
            |
                0 <= j < i ==> (#[trigger] kind(j)) != CopyKind::Stale) ==> match out {
                Ok(res) => {
                    &&& res.node is Some
                    &&& node::node_of(res.node.unwrap(), copies[i].unwrap()@)
                    &&& res.generation_mismatch
                    &&& !res.all_mirrors_failed
                },
                Err(e) => e == (ReadError::Malformed { logical }) && !node::node_in_bounds(
                    copies[i].unwrap()@,
                ),
            }
            &&& kind(i) == CopyKind::Corrupt && (forall|j: int|
                0 <= j < copies.len() ==> (#[trigger] kind(j)) != CopyKind::Good && kind(j)
                    != CopyKind::Stale) ==> (out matches Ok(res) && res.node is None
                && res.all_mirrors_failed && !res.generation_mismatch)
            &&& (forall|j: int|
                0 <= j < copies.len() ==> (#[trigger] kind(j)) == CopyKind::Unread) ==> out == Err::<
                ReadNodeResult,
                ReadError,
            >(ReadError::NoCopy { logical })
        }),
{
    let kind = |j: int| r.copy_kind(copies[j], logical, generation, level, owner);
    let kinds = r.copy_kinds(copies, logical, generation, level, owner);
    assert forall|j: int| 0 <= j < copies.len() implies #[trigger] kinds[j] == kind(j) by {}
    assert(kinds[i] == kind(i));
    if kind(i) == CopyKind::Good && (forall|j: int|
        0 <= j < i ==> (#[trigger] kind(j)) != CopyKind::Good) {
        assert(!reader::none_of(kinds, CopyKind::Good));
        assert forall|j: int| #[trigger] reader::chosen(kinds, j) implies j == i by {
            if j < i {
                assert(kinds[j] == kind(j));
            }
        }
    }
    if kind(i) == CopyKind::Stale && (forall|j: int|
        0 <= j < copies.len() ==> (#[trigger] kind(j)) != CopyKind::Good) && (forall|j: int|
        0 <= j < i ==> (#[trigger] kind(j)) != CopyKind::Stale) {
        assert(reader::none_of(kinds, CopyKind::Good));
        assert(!reader::none_of(kinds, CopyKind::Stale));
        assert forall|j: int| #[trigger] reader::chosen(kinds, j) implies j == i by {
            if j < i {
                assert(kinds[j] == kind(j));
            }
        }
    }
    if kind(i) == CopyKind::Corrupt && (forall|j: int|
        0 <= j < copies.len() ==> (#[trigger] kind(j)) != CopyKind::Good && kind(j)
            != CopyKind::Stale) {
        assert(reader::none_of(kinds, CopyKind::Good));
        assert(reader::none_of(kinds, CopyKind::Stale));
        assert forall|j: int| !#[trigger] reader::chosen(kinds, j) by {}
    }
    if forall|j: int| 0 <= j < copies.len() ==> (#[trigger] kind(j)) == CopyKind::Unread {
        assert forall|j: int| 0 <= j < kinds.len() implies #[trigger] kinds[j]
            == CopyKind::Unread by {
            assert(kinds[j] == kind(j));
        }
        assert(reader::none_of(kinds, CopyKind::Good));
        assert(reader::none_of(kinds, CopyKind::Stale));
        assert(reader::none_of(kinds, CopyKind::Corrupt));
        assert forall|j: int| !#[trigger] reader::chosen(kinds, j) by {}
    }
}

proof fn lemma_some_valid(kinds: Seq<CopyKind>)
    ensures
        0 <= reader::valid_copies(kinds) <= kinds.len(),
        reader::valid_copies(kinds) == 0 <==> forall|j: int|
            0 <= j < kinds.len() ==> (#[trigger] kinds[j]) == CopyKind::Unread || kinds[j]
                == CopyKind::Corrupt,
        reader::valid_copies(kinds) == kinds.len() <==> forall|j: int|
            0 <= j < kinds.len() ==> (#[trigger] kinds[j]) == CopyKind::Good || kinds[j]
                == CopyKind::Stale,
    decreases kinds.len(),
{
    if kinds.len() > 0 {
        let front = kinds.drop_last();
        lemma_some_valid(front);
        let n = kinds.len() - 1;
        assert(kinds[n] == kinds.last());
        assert forall|j: int| 0 <= j < front.len() implies front[j] == #[trigger] kinds[j] by {}
        if forall|j: int|
            0 <= j < front.len() ==> (#[trigger] front[j]) == CopyKind::Unread || front[j]
                == CopyKind::Corrupt {
            assert forall|j: int| 0 <= j < n implies (#[trigger] kinds[j]) == CopyKind::Unread
                || kinds[j] == CopyKind::Corrupt by {
                assert(front[j] == kinds[j]);
            }
        }
        if forall|j: int|
            0 <= j < front.len() ==> (#[trigger] front[j]) == CopyKind::Good || front[j]
                == CopyKind::Stale {
            assert forall|j: int| 0 <= j < n implies (#[trigger] kinds[j]) == CopyKind::Good
                || kinds[j] == CopyKind::Stale by {
                assert(front[j] == kinds[j]);
            }
        }
    }
}

/// Copies are told to disagree if and only if one has a right checksum and
/// another one has not, or could not be read.
pub proof fn law_copies_disagree_iff_only_some_are_sound(kinds: Seq<CopyKind>)
    ensures
        reader::copies_disagree(kinds) <==> {
            &&& exists|i: int|
                0 <= i < kinds.len() && ((#[trigger] kinds[i]) == CopyKind::Good || kinds[i]
                    == CopyKind::Stale)
            &&& exists|j: int|
                0 <= j < kinds.len() && ((#[trigger] kinds[j]) == CopyKind::Corrupt || kinds[j]
                    == CopyKind::Unread)
        },
{
    lemma_some_valid(kinds);
    if reader::copies_disagree(kinds) {
        let i = choose|i: int|
            0 <= i < kinds.len() && !((#[trigger] kinds[i]) == CopyKind::Unread || kinds[i]
                == CopyKind::Corrupt);
        let j = choose|j: int|
            0 <= j < kinds.len() && !((#[trigger] kinds[j]) == CopyKind::Good || kinds[j]
                == CopyKind::Stale);
        assert(kinds[i] == CopyKind::Good || kinds[i] == CopyKind::Stale);
        assert(kinds[j] == CopyKind::Corrupt || kinds[j] == CopyKind::Unread);
    }
}

/// The copies of a node are read where its chunk's stripes have it, from the
/// partition's start on.
pub proof fn law_copies_are_read_on_the_stripes(
    r: FsReader,
    map: ChunkMap,
    logical: u64,
    out: Seq<u64>,
    i: int,
    k: int,
)
    requires
        r.copy_offsets(map, logical, out),
        map.found(logical, i),
        0 <= k < map@[i].stripes@.len(),
    ensures
        out.len() == map@[i].stripes@.len(),
        out[k] == r.base_offset + map@[i].stripes@[k].offset + (logical - map@[i].begin),
{
}

// ---------------------------------------------------------------------------
// What a leaf says
// ---------------------------------------------------------------------------

/// `keys[n]` comes after the sector's key, where there is one.
pub open spec fn comes_after(k: Key, sector: u64) -> bool {
    ||| k.objectid > u64::MAX - 9
    ||| k.objectid == u64::MAX - 9 && k.ty > 128
    ||| k.objectid == u64::MAX - 9 && k.ty == 128 && k.offset > sector
}

/// A leaf of the checksum tree in key order gives, for an address in sector `s`
/// of an item, the `s`-th checksum of the item.
pub proof fn law_checksum_of_a_sector_is_found(
    leaf: Leaf,
    i: int,
    s: int,
    logical: u64,
    hash_len: usize,
    sector_size: u64,
    r: Lookup<CsumLive>,
)
    requires
        hash_len > 0,
        sector_size > 0,
        extent::csum_answer(Node::Leaf(leaf), logical, hash_len, sector_size, r),
        0 <= i < leaf.slots@.len(),
        leaf.slots@[i].key.objectid == u64::MAX - 9,
        leaf.slots@[i].key.ty == 128,
        leaf.item_in_bounds(i),
        leaf.item(i).len() as int % hash_len as int == 0,
        0 <= s < leaf.item(i).len() as int / hash_len as int,
        leaf.slots@[i].key.offset as int % sector_size as int == 0,
        leaf.slots@[i].key.offset + s * sector_size <= logical < leaf.slots@[i].key.offset + s
            * sector_size + sector_size,
        forall|j: int|
            0 <= j < i ==> !comes_after((#[trigger] leaf.slots@[j]).key, leaf.slots@[i].key.offset),
        i + 1 < leaf.slots@.len() ==> comes_after(
            leaf.slots@[i + 1].key,
            (leaf.slots@[i].key.offset + s * sector_size) as u64,
        ),
    ensures
        r matches Lookup::Found(CsumLive::Present(c)) && c@ == leaf.item(i).subrange(
            s * hash_len,
            s * hash_len + hash_len,
        ),
{
    let start = leaf.slots@[i].key.offset;
    let ss = sector_size as int;
    let q = start as int / ss;
    vstd::arithmetic::div_mod::lemma_fundamental_div_mod(start as int, ss);
    assert(start + s * ss == (q + s) * ss) by (nonlinear_arith)
        requires
            start == ss * q,
    ;
    assert(s * ss >= 0) by (nonlinear_arith)
        requires
            s >= 0,
            ss > 0,
    ;
    let a = logical as int / ss;
    vstd::arithmetic::div_mod::lemma_fundamental_div_mod(logical as int, ss);
    assert(a == q + s) by (nonlinear_arith)
        requires
            logical == ss * a + logical as int % ss,
            0 <= logical as int % ss < ss,
            (q + s) * ss <= logical < (q + s) * ss + ss,
            ss > 0,
    ;
    let sector = extent::sector_of(logical, sector_size) as u64;
    assert(sector == start + s * ss);
    vstd::arithmetic::div_mod::lemma_div_multiples_vanish(s, ss);
    assert(ss * s == s * ss) by (nonlinear_arith);
    assert((sector - start) / ss == s);
    let keys = extent::slot_keys(leaf.slots@);
    let target = extent::csum_target(sector);
    let n = choose|n: int| #[trigger]
        extent::leads(keys, target, n) && (if n == 0 || leaf.slots@[n - 1].key.ty
            != key_type::EXTENT_CSUM {
            r == Lookup::Found(CsumLive::Absent)
        } else if !leaf.item_in_bounds(n - 1) {
            r is OutOfBounds
        } else if extent::run_covers(leaf, n - 1, sector, hash_len, sector_size) {
            r matches Lookup::Found(CsumLive::Present(c)) && c@ == extent::run_csum(
                leaf,
                n - 1,
                sector,
                hash_len,
                sector_size,
            )
        } else {
            r == Lookup::Found(CsumLive::Absent)
        });
    assert forall|j: int| 0 <= j <= i implies key::key_le(#[trigger] keys[j], target) by {
        if j < i {
            assert(!comes_after(leaf.slots@[j].key, start));
        }
    }
    assert(extent::leads(keys, target, i + 1)) by {
        if i + 1 < keys.len() {
            assert(comes_after(leaf.slots@[i + 1].key, sector));
        }
    }
    extent::law_lead_is_unique(keys, target, n, i + 1);
}

/// A verdict of corruption rests on a leaf that holds, for the sector, just the
/// checksum that the scrub saw: as checksum `s` of an item whose run reaches the
/// sector.
pub proof fn law_live_checksum_is_the_stored_one(
    leaf: Leaf,
    logical: u64,
    stored: Seq<u8>,
    hash_len: usize,
    sector_size: u64,
) -> (is: (int, int))
    requires
        hash_len > 0,
        sector_size > 0,
        extent::holds_checksum(Some(Node::Leaf(leaf)), logical, stored, hash_len, sector_size),
    ensures
        0 <= is.0 < leaf.slots@.len(),
        leaf.slots@[is.0].key.ty == 128,
        0 <= is.1 < leaf.item(is.0).len() as int / hash_len as int,
        leaf.slots@[is.0].key.offset + is.1 * sector_size <= logical < leaf.slots@[is.0].key.offset
            + is.1 * sector_size + 2 * sector_size,
        leaf.slots@[is.0].key.offset as int % sector_size as int == 0 ==> logical
            < leaf.slots@[is.0].key.offset + is.1 * sector_size + sector_size,
        leaf.item(is.0).subrange(is.1 * hash_len, is.1 * hash_len + hash_len) == stored,
{
    let ss = sector_size as int;
    let a = logical as int / ss;
    vstd::arithmetic::div_mod::lemma_fundamental_div_mod(logical as int, ss);
    assert(a >= 0 && 0 <= a * ss <= logical < a * ss + ss) by (nonlinear_arith)
        requires
            logical == ss * a + logical as int % ss,
            0 <= logical as int % ss < ss,
            ss > 0,
            logical >= 0,
    ;
    let sector = extent::sector_of(logical, sector_size) as u64;
    assert(sector == a * ss);
    let n = choose|n: int|
        #![trigger leaf.slots@[n]]
        {
            &&& 0 <= n < leaf.slots@.len()
            &&& leaf.slots@[n].key.ty == key_type::EXTENT_CSUM
            &&& extent::run_covers(leaf, n, sector, hash_len, sector_size)
            &&& extent::run_csum(leaf, n, sector, hash_len, sector_size) == stored
        };
    let start = leaf.slots@[n].key.offset;
    let s = (sector - start) / ss;
    vstd::arithmetic::div_mod::lemma_fundamental_div_mod(sector - start, ss);
    assert(s >= 0 && s * ss <= sector - start < s * ss + ss) by (nonlinear_arith)
        requires
            sector - start == ss * s + (sector - start) % ss,
            0 <= (sector - start) % ss < ss,
            ss > 0,
            sector - start >= 0,
    ;
    if start as int % ss == 0 {
        let q = start as int / ss;
        vstd::arithmetic::div_mod::lemma_fundamental_div_mod(start as int, ss);
        let d = a - q;
        assert(sector - start == d * ss) by (nonlinear_arith)
            requires
                sector == a * ss,
                start == ss * q,
                d == a - q,
        ;
        assert(s == d) by (nonlinear_arith)
            requires
                s * ss <= d * ss < s * ss + ss,
                ss > 0,
        ;
    }
    (n, s)
}

/// An extent is without checksums if and only if the flags that stand at byte 16
/// of its item carry the fourth bit.
pub proof fn law_extent_without_checksums(data: Seq<u8>, flags: u64)
    requires
        disk_format::holds64(data, 16, flags),
    ensures
        covering::flagged_nodatasum(data) <==> (flags / 8) % 2 == 1,
{
    vstd::bytes::lemma_auto_spec_u64_to_from_le_bytes();
    disk_format::law_numbers_are_read_back(data, 16, 0, 0, flags);
    assert(flags & 8 != 0 <==> (flags / 8) % 2 == 1) by (bit_vector);
}

/// A leaf of the extent tree in key order answers for an address with the extent
/// item, type 168, that starts last at or before it: where the extent reaches the
/// address it is live, without checksums just where its flags say so; where it
/// ends before, there is a hole.
pub proof fn law_extent_answers_for_the_addresses_it_covers(
    leaf: Leaf,
    i: int,
    logical: u64,
    flags: u64,
    r: ExtentLookup,
)
    requires
        extent::extent_answer(Node::Leaf(leaf), logical, r),
        0 <= i < leaf.slots@.len(),
        leaf.slots@[i].key.ty == 168,
        leaf.slots@[i].key.objectid <= logical,
        leaf.item_in_bounds(i),
        disk_format::holds64(leaf.item(i), 16, flags),
        forall|j: int|
            0 <= j < i ==> (#[trigger] leaf.slots@[j]).key.objectid < leaf.slots@[i].key.objectid,
        i + 1 < leaf.slots@.len() ==> leaf.slots@[i + 1].key.objectid > logical,
    ensures
        logical < leaf.slots@[i].key.objectid + leaf.slots@[i].key.offset ==> r
            == ExtentLookup::Found(
            if (flags / 8) % 2 == 1 {
                ExtentLive::NoDataSum
            } else {
                ExtentLive::Live
            },
        ),
        leaf.slots@[i].key.objectid + leaf.slots@[i].key.offset <= logical ==> r
            == ExtentLookup::Found(ExtentLive::Hole),
{
    law_extent_without_checksums(leaf.item(i), flags);
    let keys = extent::slot_keys(leaf.slots@);
    let target = extent::extent_target(logical);
    assert forall|j: int| 0 <= j < i + 1 implies key::key_le(#[trigger] keys[j], target) by {
        assert(keys[j] == leaf.slots@[j].key);
    }
    assert(extent::leads(keys, target, i + 1));
    let n = choose|n: int|
        {
            &&& #[trigger] extent::leads(keys, target, n)
            &&& if extent::no_extent_item(leaf, n) {
                r matches ExtentLookup::Under(c) && c@.len() == 0
            } else {
                exists|m: int| #[trigger]
                    extent::last_extent_item(leaf, n, m) && r == extent::item_answer(
                        leaf,
                        m,
                        logical,
                    )
            }
        };
    extent::law_lead_is_unique(keys, target, n, i + 1);
    assert(leaf.slots@[i].key.ty == 168);
    let m = choose|m: int| #[trigger]
        extent::last_extent_item(leaf, n, m) && r == extent::item_answer(leaf, m, logical);
    assert(m == i) by {
        if m < i {
            assert(leaf.slots@[i].key.ty != 168);
        }
    }
}

/// A walk goes by what reading a node gave: a leaf is visited with its contents,
/// an internal node descended into, and a node that could not be read, verified
/// or that is stale is told as such.
pub proof fn law_step_says_what_was_read(
    read: Result<ReadNodeResult, ReadError>,
    bounds: Option<(Key, Key)>,
    step: WalkStep,
)
    requires
        tree::step_of(read, bounds, step),
    ensures
        step is ReadError ==> read is Err,
        read is Err ==> step is ReadError || step is Malformed,
        read matches Ok(res) ==> {
            &&& res.all_mirrors_failed <==> step is MetadataError
            &&& step is Stale <==> !res.all_mirrors_failed && res.generation_mismatch
            &&& !res.all_mirrors_failed && !res.generation_mismatch ==> match res.node.unwrap() {
                Node::Leaf(l) => step matches WalkStep::Leaf { leaf, mirror_mismatch } && leaf == l
                    && mirror_mismatch == res.mirror_mismatch,
                Node::Internal(_) => step matches WalkStep::Descended { mirror_mismatch, .. }
                    && mirror_mismatch == res.mirror_mismatch,
            }
        },
{
}

/// A child is read as its pointer says: at its address, under its generation where
/// it has one, at its level and with its owner.
pub proof fn law_child_is_read_as_its_pointer_says<P: Fn(u64, usize) -> Option<Vec<u8>>>(
    reader: FsReader,
    chunk_map: ChunkMap,
    pread: P,
    child: NodeRef,
    got: Result<ReadNodeResult, ReadError>,
)
    requires
        walk::ref_read(reader, chunk_map, pread, child, got),
    ensures
        child.exp_gen matches Some(g) ==> reader.node_read(
            chunk_map,
            pread,
            child.logical,
            g,
            child.exp_level,
            child.exp_owner,
            got,
        ),
        child.exp_gen is None ==> reader.node_read(
            chunk_map,
            pread,
            child.logical,
            u64::MAX,
            child.exp_level,
            child.exp_owner,
            got,
        ),
{
}

/// Copy `k` of the node is what reading it gave: a whole node's bytes, where the
/// stripe has the address, from the start of the filesystem on.
pub open spec fn copy_is_read<P: Fn(u64, usize) -> Option<Vec<u8>>>(
    reader: FsReader,
    e: MapEntry,
    pread: P,
    logical: u64,
    copies: Seq<Option<Vec<u8>>>,
    k: int,
) -> bool {
    exists|at: u64|
        {
            &&& at == reader.base_offset + e.stripes@[k].offset + (logical - e.begin)
            &&& #[trigger] call_ensures(pread, (at, reader.node_size), copies[k])
        }
}

/// A node that was read was judged by all its copies, one from each stripe of its
/// chunk.
pub proof fn law_node_is_judged_by_its_stripes<P: Fn(u64, usize) -> Option<Vec<u8>>>(
    reader: FsReader,
    chunk_map: ChunkMap,
    pread: P,
    logical: u64,
    generation: u64,
    level: Option<u8>,
    owner: Option<u64>,
    res: ReadNodeResult,
    i: int,
) -> (copies: Seq<Option<Vec<u8>>>)
    requires
        reader.node_read(
            chunk_map,
            pread,
            logical,
            generation,
            level,
            owner,
            Ok::<ReadNodeResult, ReadError>(res),
        ),
        chunk_map.found(logical, i),
    ensures
        copies.len() == chunk_map@[i].stripes@.len(),
        forall|k: int|
            0 <= k < copies.len() ==> #[trigger] copy_is_read(
                reader,
                chunk_map@[i],
                pread,
                logical,
                copies,
                k,
            ),
        reader.judged(
            copies,
            logical,
            generation,
            level,
            owner,
            Ok::<ReadNodeResult, ReadError>(res),
        ),
{
    let (positions, copies) = choose|positions: Seq<u64>, copies: Seq<Option<Vec<u8>>>|
        {
            &&& #[trigger] reader::copies_read(pread, reader.node_size, positions, copies)
            &&& reader.copy_offsets(chunk_map, logical, positions)
            &&& reader.judged(
                copies,
                logical,
                generation,
                level,
                owner,
                Ok::<ReadNodeResult, ReadError>(res),
            )
        };
    let e = chunk_map@[i];
    assert(positions.len() == e.stripes@.len());
    assert forall|k: int| 0 <= k < copies.len() implies #[trigger] copy_is_read(
        reader,
        e,
        pread,
        logical,
        copies,
        k,
    ) by {
        assert(positions[k] == reader.base_offset + e.copies(logical)[k].1);
        assert(call_ensures(pread, (positions[k], reader.node_size), copies[k]));
    }
    copies
}

// ---------------------------------------------------------------------------
// Re-checking a mismatch
// ---------------------------------------------------------------------------

/// The live checksum decides: where a leaf of the checksum tree holds for the
/// sector just the checksum that the scrub saw, the sector is corrupt; where it
/// holds another, it was rewritten.
pub proof fn law_live_checksum_decides(
    walk: ReconfirmWalk,
    after: ReconfirmWalk,
    leaf: Leaf,
    i: int,
    s: int,
)
    requires
        walk.phase is Csum,
        walk.follows(Some(Node::Leaf(leaf)), after),
        walk.hash_len > 0,
        walk.sector_size > 0,
        0 <= i < leaf.slots@.len(),
        leaf.slots@[i].key.objectid == u64::MAX - 9,
        leaf.slots@[i].key.ty == 128,
        leaf.item_in_bounds(i),
        leaf.item(i).len() as int % walk.hash_len as int == 0,
        0 <= s < leaf.item(i).len() as int / walk.hash_len as int,
        leaf.slots@[i].key.offset as int % walk.sector_size as int == 0,
        leaf.slots@[i].key.offset + s * walk.sector_size <= walk.logical
            < leaf.slots@[i].key.offset + s * walk.sector_size + walk.sector_size,
        forall|j: int|
            0 <= j < i ==> !comes_after((#[trigger] leaf.slots@[j]).key, leaf.slots@[i].key.offset),
        i + 1 < leaf.slots@.len() ==> comes_after(
            leaf.slots@[i + 1].key,
            (leaf.slots@[i].key.offset + s * walk.sector_size) as u64,
        ),
    ensures
        walk.stored@ == leaf.item(i).subrange(s * walk.hash_len, s * walk.hash_len + walk.hash_len)
            ==> after.phase == Phase::Done(Reconfirm::Corruption),
        walk.stored@ != leaf.item(i).subrange(s * walk.hash_len, s * walk.hash_len + walk.hash_len)
            ==> after.phase == Phase::Done(Reconfirm::Stale),
{
    let a = choose|a: Lookup<CsumLive>|
        {
            &&& #[trigger] extent::csum_answer(
                Node::Leaf(leaf),
                walk.logical,
                walk.hash_len,
                walk.sector_size,
                a,
            )
            &&& after.phase == (match a {
                Lookup::Descend(n) => if walk.phase->Csum_depth + 1 < 16 {
                    Phase::Csum { node: n, depth: (walk.phase->Csum_depth + 1) as usize }
                } else {
                    Phase::Done(Reconfirm::Unverifiable)
                },
                Lookup::OutOfBounds => Phase::OutOfBounds,
                Lookup::Found(CsumLive::Absent) => Phase::Done(Reconfirm::Stale),
                Lookup::Found(CsumLive::Unreadable) => Phase::Done(Reconfirm::Unverifiable),
                Lookup::Found(CsumLive::Present(live)) => if live@ == walk.stored@ {
                    Phase::Done(Reconfirm::Corruption)
                } else {
                    Phase::Done(Reconfirm::Stale)
                },
            })
        };
    law_checksum_of_a_sector_is_found(
        leaf,
        i,
        s,
        walk.logical,
        walk.hash_len,
        walk.sector_size,
        a,
    );
}

/// The extent that covers the address leads on to its checksum, or, without
/// checksums, and where it ends before the address, shows that the sector was
/// freed or rewritten.
pub proof fn law_live_extent_leads_to_its_checksum(
    walk: ReconfirmWalk,
    after: ReconfirmWalk,
    leaf: Leaf,
    i: int,
    flags: u64,
)
    requires
        walk.phase is Extent,
        walk.follows(Some(Node::Leaf(leaf)), after),
        0 <= i < leaf.slots@.len(),
        leaf.slots@[i].key.ty == 168,
        leaf.slots@[i].key.objectid <= walk.logical,
        leaf.item_in_bounds(i),
        disk_format::holds64(leaf.item(i), 16, flags),
        forall|j: int|
            0 <= j < i ==> (#[trigger] leaf.slots@[j]).key.objectid < leaf.slots@[i].key.objectid,
        i + 1 < leaf.slots@.len() ==> leaf.slots@[i + 1].key.objectid > walk.logical,
    ensures
        walk.logical < leaf.slots@[i].key.objectid + leaf.slots@[i].key.offset && (flags / 8) % 2
            == 0 ==> after.phase == (Phase::Csum { node: walk.csum_root, depth: 0 }),
        walk.logical >= leaf.slots@[i].key.objectid + leaf.slots@[i].key.offset || (flags / 8) % 2
            == 1 ==> after.phase == Phase::Done(Reconfirm::Stale),
        after.stored == walk.stored,
        after.logical == walk.logical,
{
    let a = choose|a: ExtentLookup|
        {
            &&& #[trigger] extent::extent_answer(Node::Leaf(leaf), walk.logical, a)
            &&& walk.extent_taken(walk.phase->Extent_depth, a, after)
        };
    law_extent_answers_for_the_addresses_it_covers(leaf, i, walk.logical, flags, a);
}

/// A node that could not be read leaves the sector unverified, in either tree; a
/// verdict that was reached stays.
pub proof fn law_unreadable_node_leaves_it_open(
    walk: ReconfirmWalk,
    after: ReconfirmWalk,
    node: Option<Node>,
)
    requires
        walk.follows(node, after),
    ensures
        node is None && (walk.phase is Extent || walk.phase is Csum) ==> after.phase == Phase::Done(
            Reconfirm::Unverifiable,
        ),
        walk.phase is Done ==> after.phase == walk.phase,
        after.logical == walk.logical,
        after.stored == walk.stored,
        after.csum_root == walk.csum_root,
        after.sector_size == walk.sector_size,
        after.hash_len == walk.hash_len,
{
}

/// In the checksum tree the child is next whose keys the sector's belongs to, as
/// far down as 16 levels.
pub proof fn law_child_of_the_checksum_is_next(
    walk: ReconfirmWalk,
    after: ReconfirmWalk,
    internal: InternalNode,
    idx: int,
)
    requires
        walk.phase is Csum,
        walk.phase->Csum_depth < 15,
        walk.follows(Some(Node::Internal(internal)), after),
        walk.sector_size > 0,
        0 <= idx < internal.ptrs@.len(),
        forall|j: int|
            0 <= j <= idx ==> !comes_after(
                (#[trigger] internal.ptrs@[j]).key,
                (walk.logical - walk.logical % walk.sector_size) as u64,
            ),
        idx + 1 < internal.ptrs@.len() ==> comes_after(
            internal.ptrs@[idx + 1].key,
            (walk.logical - walk.logical % walk.sector_size) as u64,
        ),
    ensures
        after.phase == (Phase::Csum {
            node: internal.ptrs@[idx].blockptr,
            depth: (walk.phase->Csum_depth + 1) as usize,
        }),
{
    let ss = walk.sector_size as int;
    let sector = (walk.logical - walk.logical % walk.sector_size) as u64;
    vstd::arithmetic::div_mod::lemma_fundamental_div_mod(walk.logical as int, ss);
    let q = walk.logical as int / ss;
    assert(ss * q == q * ss) by (nonlinear_arith);
    assert(extent::sector_of(walk.logical, walk.sector_size) == sector);
    let keys = extent::ptr_keys(internal.ptrs@);
    let target = extent::csum_target(sector);
    assert forall|j: int| 0 <= j < idx + 1 implies key::key_le(#[trigger] keys[j], target) by {
        assert(keys[j] == internal.ptrs@[j].key);
        assert(!comes_after(internal.ptrs@[j].key, sector));
    }
    assert(extent::leads(keys, target, idx + 1));
    let a = choose|a: Lookup<CsumLive>|
        {
            &&& #[trigger] extent::csum_answer(
                Node::Internal(internal),
                walk.logical,
                walk.hash_len,
                walk.sector_size,
                a,
            )
            &&& after.phase == (match a {
                Lookup::Descend(n) => Phase::Csum {
                    node: n,
                    depth: (walk.phase->Csum_depth + 1) as usize,
                },
                Lookup::OutOfBounds => Phase::OutOfBounds,
                Lookup::Found(CsumLive::Absent) => Phase::Done(Reconfirm::Stale),
                Lookup::Found(CsumLive::Unreadable) => Phase::Done(Reconfirm::Unverifiable),
                Lookup::Found(CsumLive::Present(live)) => if live@ == walk.stored@ {
                    Phase::Done(Reconfirm::Corruption)
                } else {
                    Phase::Done(Reconfirm::Stale)
                },
            })
        };
    let n = choose|n: int|
        {
            &&& #[trigger] extent::leads(keys, target, n)
            &&& a == (if n == 0 {
                Lookup::Found(CsumLive::Absent)
            } else {
                Lookup::Descend(internal.ptrs@[n - 1].blockptr)
            })
        };
    extent::law_lead_is_unique(keys, target, n, idx + 1);
}

} // verus!
