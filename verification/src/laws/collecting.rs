//! What is collected: the pairs of the array's status text, and the items of the
//! leaves of a tree.

use vstd::prelude::*;

use crate::array::nmdstat;
use crate::btrfs::chunk;
use crate::btrfs::chunk::ChunkRecord;
use crate::btrfs::csum;
use crate::btrfs::csum::{LazyCsumProvider, RangeError, RangeRead};
use crate::btrfs::csum_strategy::CsumError;
use crate::btrfs::dev_extent;
use crate::btrfs::extent;
use crate::btrfs::node::Leaf;
use crate::btrfs::open;
use crate::btrfs::open::OpenError;
use crate::btrfs::superblock::Superblock;
use crate::btrfs::tree;
use crate::btrfs::tree::{NodeRef, WalkCounts, WalkStep};
use crate::btrfs::util;
use crate::btrfs::walk;
use crate::btrfs::walk::Visit;
use crate::craft;
use crate::laws::checksums;
use crate::laws::disk_format;
use crate::laws::text as white_text;
use crate::status::MetadataKind;
use crate::text;

verus! {

// ---------------------------------------------------------------------------
// The status text
// ---------------------------------------------------------------------------

/// All of it is white space.
pub open spec fn blank(s: Seq<char>) -> bool {
    forall|i: int| 0 <= i < s.len() ==> white_text::white(#[trigger] s[i])
}

/// The text can stand as a key: it has characters, starts with no white space and
/// has no equals sign in it.
pub open spec fn can_be_key(key: Seq<char>) -> bool {
    &&& key.len() > 0
    &&& !white_text::white(key[0])
    &&& forall|i: int| 0 <= i < key.len() ==> #[trigger] key[i] != '='
}

/// The line gives the key some value.
pub open spec fn gives_key(line: Seq<char>, key: Seq<char>) -> bool {
    exists|lead: Seq<char>, rest: Seq<char>|
        blank(lead) && line == #[trigger] (lead + key + seq!['='] + rest)
}

/// A line of the text: from its start or behind a line feed, to the next line feed
/// or the end.
pub open spec fn is_line(s: Seq<char>, a: int, b: int) -> bool {
    &&& 0 <= a <= b <= s.len()
    &&& a == 0 || s[a - 1] == '\n'
    &&& b == s.len() || s[b] == '\n'
    &&& forall|i: int| a <= i < b ==> #[trigger] s[i] != '\n'
}

proof fn lemma_pair(
    lead: Seq<char>,
    key: Seq<char>,
    gap: Seq<char>,
    value: Seq<char>,
    tail: Seq<char>,
)
    requires
        blank(lead),
        blank(gap),
        blank(tail),
        can_be_key(key),
        value.len() > 0 ==> !white_text::white(value[0]) && !white_text::white(value.last()),
    ensures
        ({
            let line = lead + key + seq!['='] + gap + value + tail;
            &&& !nmdstat::no_pair(line)
            &&& forall|k: Seq<char>, v: Seq<char>| #[trigger]
                nmdstat::is_pair(line, k, v) ==> k == key && v == value
        }),
{
    let eq = seq!['='];
    let line = lead + key + eq + gap + value + tail;
    let none = Seq::<char>::empty();
    let n = key.len() as int;
    let core = if value.len() > 0 {
        key + eq + gap + value
    } else {
        key + eq
    };
    let back = if value.len() > 0 {
        tail
    } else {
        gap + tail
    };
    assert(line =~= lead + core + back);
    assert(core[0] == key[0]);
    if value.len() > 0 {
        assert(core.last() == value.last());
    } else {
        assert(core.last() == '=');
        assert forall|i: int| 0 <= i < back.len() implies white_text::white(
            #[trigger] back[i],
        ) by {
            if i < gap.len() {
                assert(back[i] == gap[i]);
            } else {
                assert(back[i] == tail[i - gap.len()]);
            }
        }
    }
    white_text::law_trimming_takes_white_space_off(lead, core, back);
    assert(core[n] == '=');
    assert(core.contains('='));
    assert forall|j: int| 0 <= j < n implies #[trigger] core[j] != '=' by {
        assert(core[j] == key[j]);
    }
    assert(core.take(n) =~= key);
    if value.len() > 0 {
        assert(core.skip(n + 1) =~= gap + value + none);
        white_text::law_trimming_takes_white_space_off(gap, value, none);
    } else {
        assert(core.skip(n + 1) =~= none);
        assert(none =~= none + none + none);
        white_text::law_trimming_takes_white_space_off(none, none, none);
        assert(value =~= none);
    }
    assert forall|k: Seq<char>, v: Seq<char>| #[trigger] nmdstat::is_pair(line, k, v) implies k
        == key && v == value by {
        let i = choose|i: int|
            {
                &&& #[trigger] text::first_at(core, '=', i)
                &&& k == core.take(i)
                &&& v == text::trimmed(core.skip(i + 1))
            };
        if i < n {
            assert(core[i] != '=');
        } else if i > n {
            assert(core[n] != '=');
        }
    }
}

proof fn lemma_pair_gives_key(line: Seq<char>, key: Seq<char>, value: Seq<char>)
    requires
        nmdstat::is_pair(line, key, value),
    ensures
        gives_key(line, key),
{
    let l = text::trimmed(line);
    let (lead, back) = white_text::lemma_trimmed_parts(line);
    let i = choose|i: int|
        {
            &&& #[trigger] text::first_at(l, '=', i)
            &&& key == l.take(i)
            &&& value == text::trimmed(l.skip(i + 1))
        };
    let rest = l.skip(i + 1) + back;
    assert(line =~= lead + key + seq!['='] + rest);
}

/// The line that starts at `a` is one of those that were taken.
proof fn lemma_line_is_taken(
    s: Seq<char>,
    starts: Seq<int>,
    maps: Seq<Map<Seq<char>, Seq<char>>>,
    a: int,
    b: int,
    k: int,
) -> (at: int)
    requires
        nmdstat::values_upto(s, starts, maps),
        starts.last() == s.len() + 1,
        is_line(s, a, b),
        0 <= k < starts.len(),
        starts[k] <= a,
    ensures
        0 <= at < starts.len() - 1,
        starts[at] == a,
        starts[at + 1] == b + 1,
    decreases starts.len() - k,
{
    assert(k < starts.len() - 1);
    let from = starts[k];
    let to = starts[k + 1];
    assert(nmdstat::line_at(s, starts[k], starts[k + 1]));
    if to <= a {
        lemma_line_is_taken(s, starts, maps, a, b, k + 1)
    } else {
        if from < a {
            assert(s[a - 1] != '\n');
        }
        if to - 1 < b {
            assert(s[to - 1] == '\n');
        }
        if b < to - 1 {
            assert(s[b] != '\n');
        }
        k
    }
}

proof fn lemma_value_stays(
    s: Seq<char>,
    starts: Seq<int>,
    maps: Seq<Map<Seq<char>, Seq<char>>>,
    key: Seq<char>,
    from: int,
    to: int,
)
    requires
        nmdstat::values_upto(s, starts, maps),
        starts.last() == s.len() + 1,
        0 <= from <= to < starts.len(),
        forall|a: int, b: int| #[trigger]
            is_line(s, a, b) && a >= starts[from] ==> !gives_key(s.subrange(a, b), key),
    ensures
        maps[to].dom().contains(key) == maps[from].dom().contains(key),
        maps[to][key] == maps[from][key],
    decreases to - from,
{
    if from < to {
        lemma_value_stays(s, starts, maps, key, from, to - 1);
        let k = to - 1;
        assert(nmdstat::line_at(s, starts[k], starts[k + 1]));
        let a = starts[k];
        let b = starts[k + 1] - 1;
        lemma_starts_follow(s, starts, maps, from, k);
        assert(is_line(s, a, b));
        let line = s.subrange(a, b);
        if !nmdstat::no_pair(line) {
            let (x, v) = choose|x: Seq<char>, v: Seq<char>| #[trigger]
                nmdstat::is_pair(line, x, v) && maps[k + 1] == maps[k].insert(x, v);
            lemma_pair_gives_key(line, x, v);
            assert(x != key);
        }
    }
}

proof fn lemma_starts_follow(
    s: Seq<char>,
    starts: Seq<int>,
    maps: Seq<Map<Seq<char>, Seq<char>>>,
    from: int,
    k: int,
)
    requires
        nmdstat::values_upto(s, starts, maps),
        0 <= from <= k < starts.len() - 1,
    ensures
        starts[from] <= starts[k],
        starts[k] == 0 || s[starts[k] - 1] == '\n',
    decreases k - from,
{
    assert(nmdstat::line_at(s, starts[k], starts[k + 1]));
    if k > 0 {
        assert(nmdstat::line_at(s, starts[k - 1], starts[k - 1 + 1]));
    }
    if from < k {
        lemma_starts_follow(s, starts, maps, from, k - 1);
    }
}

/// A key has the value of the last line that gives it one: what stands behind its
/// equals sign, without the white space round it.
pub proof fn law_last_line_of_a_key_counts(
    s: Seq<char>,
    m: Map<Seq<char>, Seq<char>>,
    a: int,
    b: int,
    lead: Seq<char>,
    key: Seq<char>,
    gap: Seq<char>,
    value: Seq<char>,
    tail: Seq<char>,
)
    requires
        nmdstat::is_values(s, m),
        is_line(s, a, b),
        s.subrange(a, b) == lead + key + seq!['='] + gap + value + tail,
        blank(lead),
        blank(gap),
        blank(tail),
        can_be_key(key),
        value.len() > 0 ==> !white_text::white(value[0]) && !white_text::white(value.last()),
        forall|x: int, y: int| #[trigger]
            is_line(s, x, y) && x > b ==> !gives_key(s.subrange(x, y), key),
    ensures
        m.dom().contains(key),
        m[key] == value,
{
    let (starts, maps) = choose|starts: Seq<int>, maps: Seq<Map<Seq<char>, Seq<char>>>| #[trigger]
        nmdstat::values_upto(s, starts, maps) && starts.last() == s.len() + 1 && maps.last() == m;
    let k = lemma_line_is_taken(s, starts, maps, a, b, 0);
    assert(nmdstat::line_at(s, starts[k], starts[k + 1]));
    lemma_pair(lead, key, gap, value, tail);
    let line = s.subrange(a, b);
    let (x, v) = choose|x: Seq<char>, v: Seq<char>| #[trigger]
        nmdstat::is_pair(line, x, v) && maps[k + 1] == maps[k].insert(x, v);
    assert(x == key && v == value);
    lemma_value_stays(s, starts, maps, key, k + 1, starts.len() - 1);
}

/// A key that no line gives a value has none.
pub proof fn law_key_without_a_line_has_no_value(
    s: Seq<char>,
    m: Map<Seq<char>, Seq<char>>,
    key: Seq<char>,
)
    requires
        nmdstat::is_values(s, m),
        forall|x: int, y: int| #[trigger]
            is_line(s, x, y) ==> !gives_key(s.subrange(x, y), key),
    ensures
        !m.dom().contains(key),
{
    let (starts, maps) = choose|starts: Seq<int>, maps: Seq<Map<Seq<char>, Seq<char>>>| #[trigger]
        nmdstat::values_upto(s, starts, maps) && starts.last() == s.len() + 1 && maps.last() == m;
    lemma_value_stays(s, starts, maps, key, 0, starts.len() - 1);
}

// ---------------------------------------------------------------------------
// Leaves
// ---------------------------------------------------------------------------

/// The leaf was visited.
pub open spec fn visited(visits: Seq<Visit>, v: int, leaf: Leaf) -> bool {
    0 <= v < visits.len() && (visits[v].step matches WalkStep::Leaf { leaf: l, .. } && l == leaf)
}

/// Every extent of the device in a leaf that was visited is among what is
/// collected.
pub proof fn law_every_extent_of_the_device_is_collected(
    visits: Seq<Visit>,
    devid: u64,
    v: int,
    leaf: Leaf,
    i: int,
    chunk_offset: u64,
    length: u64,
) -> (at: int)
    requires
        visited(visits, v, leaf),
        0 <= i < leaf.slots@.len(),
        leaf.slots@[i].key.ty == 204,
        leaf.slots@[i].key.objectid == devid,
        disk_format::holds64(leaf.item(i), 16, chunk_offset),
        disk_format::holds64(leaf.item(i), 24, length),
    ensures
        ({
            let all = dev_extent::visit_extents(visits, devid);
            &&& 0 <= at < all.len()
            &&& all[at].devid == devid
            &&& all[at].phys_start == leaf.slots@[i].key.offset
            &&& all[at].chunk_offset == chunk_offset
            &&& all[at].length == length
        }),
    decreases visits.len(),
{
    let n = leaf.slots@.len() as int;
    let before = dev_extent::visit_extents(visits.drop_last(), devid);
    if v < visits.len() - 1 {
        assert(visits.drop_last()[v] == visits[v]);
        law_every_extent_of_the_device_is_collected(
            visits.drop_last(),
            devid,
            v,
            leaf,
            i,
            chunk_offset,
            length,
        )
    } else {
        let own = dev_extent::extents_upto(leaf, devid, n);
        disk_format::law_leaf_gives_the_devices_extents(leaf, devid, n);
        disk_format::law_dev_extent_is_read_back(
            leaf,
            i,
            devid,
            leaf.slots@[i].key.offset,
            chunk_offset,
            length,
        );
        let e = dev_extent::extent_at(leaf, i, devid);
        assert(own.contains(e));
        let j = choose|j: int| 0 <= j < own.len() && own[j] == e;
        assert(dev_extent::visit_extents(visits, devid)[before.len() + j] == own[j]);
        before.len() + j
    }
}

proof fn lemma_file_extent_listed(leaf: Leaf, k: int, i: int) -> (at: int)
    requires
        0 <= i < k <= leaf.slots@.len(),
        craft::is_data_extent(leaf, i),
    ensures
        0 <= at < craft::data_extents(leaf, k).len(),
        craft::data_extents(leaf, k)[at] == extent::file_extent_at(
            leaf.item(i),
            leaf.slots@[i].key.objectid,
            leaf.slots@[i].key.offset,
        ),
    decreases k,
{
    if i == k - 1 {
        craft::data_extents(leaf, k).len() - 1
    } else {
        lemma_file_extent_listed(leaf, k - 1, i)
    }
}

/// Every file extent with data on disk in a leaf that was visited is among what is
/// collected, under its inode and file offset.
pub proof fn law_every_file_extent_is_collected(
    visits: Seq<Visit>,
    v: int,
    leaf: Leaf,
    i: int,
    kind: u8,
    disk_bytenr: u64,
    disk_num_bytes: u64,
    offset: u64,
    num_bytes: u64,
) -> (at: int)
    requires
        visited(visits, v, leaf),
        0 <= i < leaf.slots@.len(),
        leaf.slots@[i].key.ty == 108,
        kind != 0,
        disk_format::holds(leaf.item(i), 20, seq![kind]),
        disk_format::holds64(leaf.item(i), 21, disk_bytenr),
        disk_format::holds64(leaf.item(i), 29, disk_num_bytes),
        disk_format::holds64(leaf.item(i), 37, offset),
        disk_format::holds64(leaf.item(i), 45, num_bytes),
    ensures
        ({
            let all = craft::visit_data_extents(visits);
            &&& 0 <= at < all.len()
            &&& all[at].inode == leaf.slots@[i].key.objectid
            &&& all[at].file_offset == leaf.slots@[i].key.offset
            &&& all[at].disk_bytenr == disk_bytenr
            &&& all[at].offset == offset
            &&& all[at].num_bytes == num_bytes
        }),
    decreases visits.len(),
{
    let before = craft::visit_data_extents(visits.drop_last());
    if v < visits.len() - 1 {
        assert(visits.drop_last()[v] == visits[v]);
        law_every_file_extent_is_collected(
            visits.drop_last(),
            v,
            leaf,
            i,
            kind,
            disk_bytenr,
            disk_num_bytes,
            offset,
            num_bytes,
        )
    } else {
        disk_format::law_file_extent_is_read_back(
            leaf.item(i),
            leaf.slots@[i].key.objectid,
            leaf.slots@[i].key.offset,
            kind,
            disk_bytenr,
            disk_num_bytes,
            offset,
            num_bytes,
        );
        let n = leaf.slots@.len() as int;
        let j = lemma_file_extent_listed(leaf, n, i);
        assert(craft::visit_data_extents(visits)[before.len() + j] == craft::data_extents(
            leaf,
            n,
        )[j]);
        before.len() + j
    }
}

proof fn lemma_record_listed(leaf: Leaf, recs: Seq<ChunkRecord>, k: int, i: int) -> (at: int)
    requires
        open::records_upto(leaf, recs, k),
        0 <= i < k <= leaf.slots@.len(),
        leaf.slots@[i].key.ty == 228,
    ensures
        0 <= at < recs.len(),
        recs[at].logical == leaf.slots@[i].key.offset,
        chunk::chunk_item_of(recs[at].chunk, leaf.item(i)),
    decreases k,
{
    if i == k - 1 {
        recs.len() - 1
    } else if leaf.slots@[k - 1].key.ty == 228 {
        let at = lemma_record_listed(leaf, recs.drop_last(), k - 1, i);
        assert(recs.drop_last()[at] == recs[at]);
        at
    } else {
        lemma_record_listed(leaf, recs, k - 1, i)
    }
}

/// Every chunk item in a leaf that was visited is recorded, at the address its key
/// says.
pub proof fn law_every_chunk_is_recorded(
    visits: Seq<Visit>,
    recs: Seq<ChunkRecord>,
    v: int,
    leaf: Leaf,
    i: int,
) -> (at: int)
    requires
        open::visit_records(visits, recs),
        visited(visits, v, leaf),
        0 <= i < leaf.slots@.len(),
        leaf.slots@[i].key.ty == 228,
    ensures
        0 <= at < recs.len(),
        recs[at].logical == leaf.slots@[i].key.offset,
        chunk::chunk_item_of(recs[at].chunk, leaf.item(i)),
    decreases visits.len(),
{
    let added = choose|added: Seq<ChunkRecord>|
        {
            &&& #[trigger] open::records_taken(visits.last(), added)
            &&& added.len() <= recs.len()
            &&& recs.skip(recs.len() - added.len()) == added
            &&& open::visit_records(visits.drop_last(), recs.take(recs.len() - added.len()))
        };
    let cut = recs.len() - added.len();
    if v < visits.len() - 1 {
        assert(visits.drop_last()[v] == visits[v]);
        let at = law_every_chunk_is_recorded(visits.drop_last(), recs.take(cut), v, leaf, i);
        assert(recs.take(cut)[at] == recs[at]);
        at
    } else {
        let at = lemma_record_listed(leaf, added, leaf.slots@.len() as int, i);
        assert(recs.skip(cut)[at] == recs[cut + at]);
        cut + at
    }
}

/// The item gives the root of a tree: a root item, type 132, of that object.
pub open spec fn gives_root(leaf: Leaf, i: int, id: u64) -> bool {
    &&& 0 <= i < leaf.slots@.len()
    &&& leaf.slots@[i].key.ty == 132
    &&& leaf.slots@[i].key.objectid == id
}

proof fn lemma_root_in_leaf(leaf: Leaf, id: u64, before: Option<u64>, k: int, i: int)
    requires
        0 <= k <= leaf.slots@.len(),
    ensures
        i < k && gives_root(leaf, i, id) && (forall|j: int|
            i < j < k ==> !#[trigger] gives_root(leaf, j, id)) ==> open::root_upto(
            leaf,
            id,
            before,
            k,
        ) == Some(util::le64(leaf.item(i), 176)),
        (forall|j: int| 0 <= j < k ==> !#[trigger] gives_root(leaf, j, id)) ==> open::root_upto(
            leaf,
            id,
            before,
            k,
        ) == before,
    decreases k,
{
    if k > 0 {
        lemma_root_in_leaf(leaf, id, before, k - 1, i);
        let last = gives_root(leaf, k - 1, id);
    }
}

/// A tree's root is what its last root item in the leaves visited says: the
/// address that stands at 176 of the item.
pub proof fn law_last_root_item_counts(
    visits: Seq<Visit>,
    id: u64,
    before: Option<u64>,
    v: int,
    leaf: Leaf,
    i: int,
    bytenr: u64,
)
    requires
        visited(visits, v, leaf),
        gives_root(leaf, i, id),
        disk_format::holds64(leaf.item(i), 176, bytenr),
        forall|j: int| i < j < leaf.slots@.len() ==> !#[trigger] gives_root(leaf, j, id),
        forall|w: int, l: Leaf, j: int|
            v < w && #[trigger] visited(visits, w, l) ==> !#[trigger] gives_root(l, j, id),
    ensures
        open::root_found(visits, id, before) == Some(bytenr),
    decreases visits.len(),
{
    let front = visits.drop_last();
    if v < visits.len() - 1 {
        assert(front[v] == visits[v]);
        assert forall|w: int, l: Leaf, j: int|
            v < w && #[trigger] visited(front, w, l) implies !#[trigger] gives_root(l, j, id) by {
            assert(front[w] == visits[w]);
            assert(visited(visits, w, l));
        }
        law_last_root_item_counts(front, id, before, v, leaf, i, bytenr);
        if let WalkStep::Leaf { leaf: l, .. } = visits.last().step {
            assert(visited(visits, visits.len() - 1, l));
            lemma_root_in_leaf(
                l,
                id,
                open::root_found(front, id, before),
                l.slots@.len() as int,
                0,
            );
        }
    } else {
        lemma_root_in_leaf(
            leaf,
            id,
            open::root_found(front, id, before),
            leaf.slots@.len() as int,
            i,
        );
        disk_format::law_numbers_are_read_back(leaf.item(i), 176, 0, 0, bytenr);
    }
}

// ---------------------------------------------------------------------------
// Checksums of a range
// ---------------------------------------------------------------------------

/// The leaf holds this checksum for this address: it is the `s`-th of item `i`,
/// which is of type 128 and starts `s` sectors before the address.
pub open spec fn stores(
    leaf: Leaf,
    i: int,
    s: int,
    hash_len: int,
    sector_size: int,
    logical: u64,
    sum: Seq<u8>,
) -> bool {
    &&& 0 <= i < leaf.slots@.len()
    &&& leaf.slots@[i].key.ty == 128
    &&& 0 <= s
    &&& (s + 1) * hash_len <= leaf.item(i).len()
    &&& logical == leaf.slots@[i].key.offset + s * sector_size
    &&& sum == leaf.item(i).subrange(s * hash_len, (s + 1) * hash_len)
}

/// A range lists every checksum that a leaf on its way stores for an address in
/// it.
pub proof fn law_range_lists_every_checksum(
    provider: LazyCsumProvider,
    visits: Seq<Visit>,
    left: Seq<NodeRef>,
    lo: u64,
    hi: u64,
    read: RangeRead,
    v: int,
    leaf: Leaf,
    i: int,
    s: int,
    logical: u64,
    sum: Seq<u8>,
) -> (e: int)
    requires
        provider.range_result(visits, left, lo, hi, Ok::<RangeRead, RangeError>(read)),
        provider.strategy().hash_len > 0,
        visited(visits, v, leaf),
        stores(
            leaf,
            i,
            s,
            provider.strategy().hash_len as int,
            provider.strategy().sector_size as int,
            logical,
            sum,
        ),
        lo <= logical < hi,
    ensures
        0 <= e < read.entries@.len(),
        read.entries@[e].logical == logical,
        read.entries@[e].csum@ == sum,
{
    let hl = provider.strategy().hash_len as int;
    let ss = provider.strategy().sector_size as int;
    let len = leaf.item(i).len() as int;
    let p = (logical, sum);
    assert((s + 1) * hl == s * hl + hl) by (nonlinear_arith);
    assert(s < len / hl) by (nonlinear_arith)
        requires
            (s + 1) * hl <= len,
            hl > 0,
    ;
    assert(visits[v].step->leaf == leaf);
    assert(csum::checksum_in_leaf(visits[v].step->leaf, i, s, hl, ss, lo, hi, p));
    assert(csum::checksum_visited(visits, hl, ss, lo, hi, p));
    csum::law_range_is_what_the_leaves_hold(visits, hl, ss, lo, hi, read.entries@, p);
    let all = csum::pairs(read.entries@);
    let e = choose|e: int| 0 <= e < all.len() && all[e] == p;
    assert(all[e] == (read.entries@[e].logical, read.entries@[e].csum@));
    e
}

/// A range lists nothing else: every entry is stored in a leaf on the way, for an
/// address in the range, and the entries ascend.
pub proof fn law_range_lists_only_what_is_stored(
    provider: LazyCsumProvider,
    visits: Seq<Visit>,
    left: Seq<NodeRef>,
    lo: u64,
    hi: u64,
    read: RangeRead,
    e: int,
) -> (r: (int, Leaf, int, int))
    requires
        provider.range_result(visits, left, lo, hi, Ok::<RangeRead, RangeError>(read)),
        provider.strategy().hash_len > 0,
        0 <= e < read.entries@.len(),
    ensures
        left.len() == 0,
        lo <= read.entries@[e].logical < hi,
        visited(visits, r.0, r.1),
        stores(
            r.1,
            r.2,
            r.3,
            provider.strategy().hash_len as int,
            provider.strategy().sector_size as int,
            read.entries@[e].logical,
            read.entries@[e].csum@,
        ),
        forall|a: int, b: int|
            0 <= a < b < read.entries@.len() ==> (#[trigger] read.entries@[a]).logical <= (
            #[trigger] read.entries@[b]).logical,
{
    let hl = provider.strategy().hash_len as int;
    let ss = provider.strategy().sector_size as int;
    let all = csum::pairs(read.entries@);
    let p = (read.entries@[e].logical, read.entries@[e].csum@);
    assert(all[e] == p);
    assert(all.contains(p));
    csum::law_range_is_what_the_leaves_hold(visits, hl, ss, lo, hi, read.entries@, p);
    let (k, i, s) = choose|k: int, i: int, s: int|
        0 <= k < visits.len() && visits[k].step is Leaf && #[trigger] csum::checksum_in_leaf(
            visits[k].step->leaf,
            i,
            s,
            hl,
            ss,
            lo,
            hi,
            p,
        );
    let leaf = visits[k].step->leaf;
    let len = leaf.item(i).len() as int;
    assert((s + 1) * hl == s * hl + hl) by (nonlinear_arith);
    assert((s + 1) * hl <= len) by (nonlinear_arith)
        requires
            s < len / hl,
            hl > 0,
            len >= 0,
    ;
    assert(s * ss >= 0 && hi <= u64::MAX) by (nonlinear_arith)
        requires
            s >= 0,
            ss >= 0,
            hi <= u64::MAX,
    ;
    (k, leaf, i, s)
}

/// A range fails at an item only where the item runs past its leaf, or past the
/// end of the address space.
pub proof fn law_range_fails_only_where_an_item_runs_over(
    provider: LazyCsumProvider,
    visits: Seq<Visit>,
    left: Seq<NodeRef>,
    lo: u64,
    hi: u64,
    logical: u64,
    index: usize,
)
    requires
        provider.range_result(
            visits,
            left,
            lo,
            hi,
            Err::<RangeRead, RangeError>(RangeError::Item { logical, index }),
        ),
    ensures
        visits.len() > 0,
        visits.last().logical == logical,
        visits.last().step matches WalkStep::Leaf { leaf, .. } && {
            &&& leaf.slots@[index as int].key.ty == 128
            &&& !leaf.item_in_bounds(index as int) || leaf.slots@[index as int].key.offset + (
            leaf.item(index as int).len() as int / provider.strategy().hash_len as int)
                * provider.strategy().sector_size > u64::MAX
        },
{
}

// ---------------------------------------------------------------------------
// Failures
// ---------------------------------------------------------------------------

/// The visits whose node had no copy that could be verified.
pub open spec fn unverified(visits: Seq<Visit>) -> int
    decreases visits.len(),
{
    if visits.len() == 0 {
        0
    } else {
        unverified(visits.drop_last()) + if visits.last().step is MetadataError {
            1int
        } else {
            0
        }
    }
}

/// The visits whose node could not be read.
pub open spec fn unread(visits: Seq<Visit>) -> int
    decreases visits.len(),
{
    if visits.len() == 0 {
        0
    } else {
        unread(visits.drop_last()) + if visits.last().step is ReadError {
            1int
        } else {
            0
        }
    }
}

/// The visits to a usable node whose copies disagreed.
pub open spec fn disagreeing(visits: Seq<Visit>) -> int
    decreases visits.len(),
{
    if visits.len() == 0 {
        0
    } else {
        disagreeing(visits.drop_last()) + match visits.last().step {
            WalkStep::Leaf { mirror_mismatch, .. } if mirror_mismatch => 1int,
            WalkStep::Descended { mirror_mismatch, .. } if mirror_mismatch => 1int,
            _ => 0,
        }
    }
}

proof fn lemma_tallies(visits: Seq<Visit>)
    ensures
        walk::tally(visits, MetadataKind::HeaderError) == unverified(visits),
        walk::tally(visits, MetadataKind::ReadError) == unread(visits),
        walk::tally(visits, MetadataKind::MirrorMismatch) == disagreeing(visits),
    decreases visits.len(),
{
    if visits.len() > 0 {
        lemma_tallies(visits.drop_last());
    }
}

/// A walk counts its failures, each visit for itself: nodes that could not be
/// verified, nodes that could not be read, and nodes whose copies disagreed.
pub proof fn law_walk_counts_its_failures(
    before: WalkCounts,
    visits: Seq<Visit>,
    after: WalkCounts,
)
    requires
        walk::counted(before, visits, after),
    ensures
        after.header_errors == before.header_errors + unverified(visits),
        after.read_errors == before.read_errors + unread(visits),
        after.mirror_mismatches == before.mirror_mismatches + disagreeing(visits),
{
    lemma_tallies(visits);
}

/// The checksum walker knows a node as stale, unverifiable, unread or disagreeing
/// just where it did so before or one of the visits found it so.
pub proof fn law_walker_remembers_the_nodes_it_met(
    before: LazyCsumProvider,
    after: LazyCsumProvider,
    visits: Seq<Visit>,
    node: u64,
)
    requires
        after.counted_over(before, visits),
    ensures
        after.stale_nodes().contains(node) <==> before.stale_nodes().contains(node) || exists|v: int|
            0 <= v < visits.len() && (#[trigger] visits[v]).logical == node && visits[v].step
                is Stale,
        after.header_nodes().contains(node) <==> before.header_nodes().contains(node)
            || exists|v: int|
            0 <= v < visits.len() && (#[trigger] visits[v]).logical == node && visits[v].step
                is MetadataError,
        after.read_nodes().contains(node) <==> before.read_nodes().contains(node) || exists|v: int|
            0 <= v < visits.len() && (#[trigger] visits[v]).logical == node && visits[v].step
                is ReadError,
        after.mirror_nodes().contains(node) <==> before.mirror_nodes().contains(node)
            || exists|v: int|
            0 <= v < visits.len() && (#[trigger] visits[v]).logical == node && met_by(
                visits[v].step,
                MetadataKind::MirrorMismatch,
            ),
{
    lemma_met(before.mirror_nodes(), visits, MetadataKind::MirrorMismatch, node);
    assert(after.nodes_of(MetadataKind::MirrorMismatch) == after.mirror_nodes());
    lemma_met(before.stale_nodes(), visits, MetadataKind::StaleBranch, node);
    lemma_met(before.header_nodes(), visits, MetadataKind::HeaderError, node);
    lemma_met(before.read_nodes(), visits, MetadataKind::ReadError, node);
    assert(after.nodes_of(MetadataKind::StaleBranch) == after.stale_nodes());
    assert(after.nodes_of(MetadataKind::HeaderError) == after.header_nodes());
    assert(after.nodes_of(MetadataKind::ReadError) == after.read_nodes());
}

/// The step met a failure of this kind.
pub open spec fn met_by(step: WalkStep, kind: MetadataKind) -> bool {
    match kind {
        MetadataKind::StaleBranch => step is Stale,
        MetadataKind::HeaderError => step is MetadataError,
        MetadataKind::ReadError => step is ReadError,
        MetadataKind::MirrorMismatch => match step {
            WalkStep::Leaf { mirror_mismatch, .. } => mirror_mismatch,
            WalkStep::Descended { mirror_mismatch, .. } => mirror_mismatch,
            _ => false,
        },
    }
}

proof fn lemma_met(before: Set<u64>, visits: Seq<Visit>, kind: MetadataKind, node: u64)
    ensures
        csum::met(before, visits, kind).contains(node) <==> before.contains(node) || exists|v: int|
            0 <= v < visits.len() && (#[trigger] visits[v]).logical == node && met_by(
                visits[v].step,
                kind,
            ),
    decreases visits.len(),
{
    if visits.len() > 0 {
        let front = visits.drop_last();
        let n = visits.len() - 1;
        lemma_met(before, front, kind, node);
        if exists|v: int|
            0 <= v < visits.len() && (#[trigger] visits[v]).logical == node && met_by(
                visits[v].step,
                kind,
            ) {
            let v = choose|v: int|
                0 <= v < visits.len() && (#[trigger] visits[v]).logical == node && met_by(
                    visits[v].step,
                    kind,
                );
            if v < n {
                assert(front[v] == visits[v]);
            }
        }
        if exists|v: int|
            0 <= v < front.len() && (#[trigger] front[v]).logical == node && met_by(
                front[v].step,
                kind,
            ) {
            let v = choose|v: int|
                0 <= v < front.len() && (#[trigger] front[v]).logical == node && met_by(
                    front[v].step,
                    kind,
                );
            assert(front[v] == visits[v]);
        }
        assert(visits[n] == visits.last());
    }
}

// ---------------------------------------------------------------------------
// Opening
// ---------------------------------------------------------------------------

/// A filesystem is let in if and only if it has one device, the device holds all
/// of it, its checksum type is known, and its sectors and nodes have a size.
pub proof fn law_filesystem_is_let_in_iff_it_fits(
    sb: Superblock,
    dev_size: u64,
    base_offset: u64,
)
    ensures
        open::refusal(sb, dev_size, base_offset) is None <==> {
            &&& sb.num_devices == 1
            &&& dev_size == 0 || base_offset + sb.total_bytes <= dev_size
            &&& sb.csum_type <= 3
            &&& sb.sector_size > 0
            &&& sb.node_size >= 101
        },
        sb.num_devices != 1 ==> open::refusal(sb, dev_size, base_offset) == Some(
            OpenError::MultiDevice { num_devices: sb.num_devices },
        ),
        sb.num_devices == 1 && 0 < dev_size < base_offset + sb.total_bytes ==> open::refusal(
            sb,
            dev_size,
            base_offset,
        ) == Some(
            OpenError::DeviceTooShort { dev_size, total_bytes: sb.total_bytes, base_offset },
        ),
        sb.num_devices == 1 && dev_size == 0 && sb.csum_type > 3 ==> open::refusal(
            sb,
            dev_size,
            base_offset,
        ) == Some(OpenError::Csum(CsumError::UnsupportedType(sb.csum_type))),
{
    checksums::law_checksum_types(sb.csum_type, Seq::empty());
}

/// How often the kind occurs.
pub open spec fn occurrences(kinds: Seq<MetadataKind>, kind: MetadataKind) -> int
    decreases kinds.len(),
{
    if kinds.len() == 0 {
        0
    } else {
        occurrences(kinds.drop_last(), kind) + (if kinds.last() == kind { 1int } else { 0 })
    }
}

/// Visit `v` is the first to meet a failure of this kind at its node, which was not
/// known before.
pub open spec fn first_met(
    known: Set<u64>,
    visits: Seq<Visit>,
    kind: MetadataKind,
    v: int,
) -> bool {
    &&& met_by(visits[v].step, kind)
    &&& !known.contains(visits[v].logical)
    &&& forall|w: int|
        0 <= w < v && (#[trigger] visits[w]).logical == visits[v].logical ==> !met_by(
            visits[w].step,
            kind,
        )
}

/// How many of the first `k` visits are the first at their node.
pub open spec fn firsts_met(
    known: Set<u64>,
    visits: Seq<Visit>,
    kind: MetadataKind,
    k: int,
) -> int
    decreases k,
{
    if k <= 0 {
        0
    } else {
        firsts_met(known, visits, kind, k - 1) + (if first_met(known, visits, kind, k - 1) {
            1int
        } else {
            0
        })
    }
}

proof fn lemma_firsts_prefix(
    known: Set<u64>,
    a: Seq<Visit>,
    b: Seq<Visit>,
    kind: MetadataKind,
    k: int,
)
    requires
        k <= a.len() <= b.len(),
        forall|i: int| 0 <= i < a.len() ==> #[trigger] a[i] == b[i],
    ensures
        firsts_met(known, a, kind, k) == firsts_met(known, b, kind, k),
    decreases k,
{
    if k > 0 {
        lemma_firsts_prefix(known, a, b, kind, k - 1);
        let v = k - 1;
        assert(a[v] == b[v]);
        if first_met(known, a, kind, v) {
            assert forall|w: int| 0 <= w < v && (#[trigger] b[w]).logical == b[v].logical implies
                !met_by(b[w].step, kind) by {
                assert(a[w] == b[w]);
            }
        }
        if first_met(known, b, kind, v) {
            assert forall|w: int| 0 <= w < v && (#[trigger] a[w]).logical == a[v].logical implies
                !met_by(a[w].step, kind) by {
                assert(a[w] == b[w]);
            }
        }
    }
}

/// The checksum walker counts a node once for each way in which it fails: at the
/// first visit that finds it so, and not at all where it was counted before.
pub proof fn law_each_node_is_counted_once(
    provider: LazyCsumProvider,
    visits: Seq<Visit>,
    kind: MetadataKind,
)
    ensures
        occurrences(provider.newly_counted(visits), kind) == firsts_met(
            provider.nodes_of(kind),
            visits,
            kind,
            visits.len() as int,
        ),
    decreases visits.len(),
{
    if visits.len() > 0 {
        let before = visits.drop_last();
        let last = visits.last();
        let known = provider.nodes_of(kind);
        let v = visits.len() - 1;
        law_each_node_is_counted_once(provider, before, kind);
        lemma_firsts_prefix(known, before, visits, kind, v);
        lemma_met(known, before, kind, last.logical);
        assert(tree::failure_of(last.step) == Some(kind) <==> met_by(last.step, kind));
        if first_met(known, visits, kind, v) {
            assert forall|w: int|
                0 <= w < before.len() && (#[trigger] before[w]).logical == last.logical implies
                !met_by(before[w].step, kind) by {
                assert(visits[w] == before[w]);
            }
        } else if met_by(last.step, kind) && !known.contains(last.logical) {
            let w = choose|w: int|
                0 <= w < v && (#[trigger] visits[w]).logical == visits[v].logical && met_by(
                    visits[w].step,
                    kind,
                );
            assert(before[w] == visits[w]);
        }
        let counted = provider.newly_counted(before);
        match tree::failure_of(last.step) {
            Some(k) => {
                assert(counted.push(k).drop_last() =~= counted);
            },
            None => {},
        }
    }
}

/// How many of the visits met a failure of this kind.
pub open spec fn times_met(visits: Seq<Visit>, kind: MetadataKind) -> int
    decreases visits.len(),
{
    if visits.len() == 0 {
        0
    } else {
        times_met(visits.drop_last(), kind) + (if met_by(visits.last().step, kind) {
            1int
        } else {
            0
        })
    }
}

/// The search for the live roots counts every failure that it met, each visit for
/// itself, but no stale node.
pub proof fn law_live_search_counts_its_failures(visits: Seq<Visit>, kind: MetadataKind)
    ensures
        occurrences(open::live_failures(visits), kind) == (if kind is StaleBranch {
            0
        } else {
            times_met(visits, kind)
        }),
    decreases visits.len(),
{
    if visits.len() > 0 {
        law_live_search_counts_its_failures(visits.drop_last(), kind);
        let counted = open::live_failures(visits.drop_last());
        match tree::failure_of(visits.last().step) {
            Some(k) => {
                assert(counted.push(k).drop_last() =~= counted);
            },
            None => {},
        }
    }
}

/// The chunk that is refused is the first that ends outside the address space.
pub proof fn law_first_chunk_past_the_end_is_refused(recs: Seq<ChunkRecord>, k: int)
    ensures
        open::first_out_of_range(recs, k) <==> {
            &&& 0 <= k < recs.len()
            &&& recs[k].logical + recs[k].chunk.length > u64::MAX
            &&& forall|j: int|
                0 <= j < k ==> (#[trigger] recs[j]).logical + recs[j].chunk.length <= u64::MAX
        },
{
    if 0 <= k < recs.len() && forall|j: int|
        0 <= j < k ==> (#[trigger] recs[j]).logical + recs[j].chunk.length <= u64::MAX {
        assert forall|j: int| 0 <= j < k implies (#[trigger] recs[j]).in_range() by {
            assert(recs[j].logical + recs[j].chunk.length <= u64::MAX);
        }
    }
    if open::first_out_of_range(recs, k) {
        assert forall|j: int| 0 <= j < k implies (#[trigger] recs[j]).logical
            + recs[j].chunk.length <= u64::MAX by {
            assert(recs[j].in_range());
        }
    }
}

} // verus!
