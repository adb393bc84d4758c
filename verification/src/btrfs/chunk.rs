//! Chunk mapping: parse chunk items and translate logical addresses to physical
//! stripes.

use vstd::prelude::*;
use vstd::slice::slice_subrange;

use crate::btrfs::key;
use crate::btrfs::key::bg_flag;
use crate::btrfs::key::key_type;
use crate::btrfs::key::Key;
use crate::btrfs::util;
use crate::text;

verus! {

/// One stripe of a chunk: device id and physical offset within it.
#[derive(Debug, Clone, Copy, PartialEq, Eq, Structural)]
pub struct Stripe {
    pub devid: u64,
    pub offset: u64,
}

/// Parsed btrfs chunk item: the logical span it covers and the stripes backing
/// it.
#[derive(Debug)]
pub struct ChunkItem {
    pub length: u64,
    pub stripe_len: u64,
    pub ty: u64,
    pub num_stripes: u16,
    pub stripes: Vec<Stripe>,
}

/// The stripe entries of a chunk item: 32 bytes each, from byte 48.
pub open spec fn stripes_of(buf: Seq<u8>) -> Seq<Stripe> {
    Seq::new(
        util::le16(buf, 44) as nat,
        |i: int|
            Stripe {
                devid: util::le64(buf, 48 + i * 32),
                offset: util::le64(buf, 48 + i * 32 + 8),
            },
    )
}

/// `item` is the chunk item stored in `buf`.
pub open spec fn chunk_item_of(item: ChunkItem, buf: Seq<u8>) -> bool {
    &&& item.length == util::le64(buf, 0)
    &&& item.stripe_len == util::le64(buf, 16)
    &&& item.ty == util::le64(buf, 24)
    &&& item.num_stripes == util::le16(buf, 44)
    &&& item.stripes@ == stripes_of(buf)
}

/// The chunk item that starts `buf` ends inside it.
pub open spec fn chunk_item_in_bounds(buf: Seq<u8>) -> bool {
    buf.len() >= 48 && 48 + util::le16(buf, 44) * 32 <= buf.len()
}

impl ChunkItem {
    /// Parses an on-disk chunk item: a 48-byte header followed by one 32-byte
    /// stripe entry per `num_stripes`.
    pub fn parse(buf: &[u8]) -> (r: Self)
        requires
            chunk_item_in_bounds(buf@),
        ensures
            chunk_item_of(r, buf@),
    {
        let num_stripes: u16 = util::le_u16(buf, 44);
        let n: usize = num_stripes as usize;
        let mut stripes: Vec<Stripe> = Vec::new();
        let mut i: usize = 0;
        while i < n
            invariant
                i <= n,
                n == util::le16(buf@, 44),
                chunk_item_in_bounds(buf@),
                stripes@ == stripes_of(buf@).take(i as int),
            decreases n - i,
        {
            let base: usize = 48 + i * 32;
            stripes.push(
                Stripe { devid: util::le_u64(buf, base), offset: util::le_u64(buf, base + 8) },
            );
            i = i + 1;
            assert(stripes@ =~= stripes_of(buf@).take(i as int));
        }
        assert(stripes_of(buf@).take(n as int) =~= stripes_of(buf@));
        ChunkItem {
            length: util::le_u64(buf, 0),
            stripe_len: util::le_u64(buf, 16),
            ty: util::le_u64(buf, 24),
            num_stripes,
            stripes,
        }
    }

    /// Whether the chunk item that starts `buf` ends inside it.
    pub fn fits(buf: &[u8]) -> (r: bool)
        ensures
            r == chunk_item_in_bounds(buf@),
    {
        if buf.len() < 48 {
            return false;
        }
        48 + (util::le_u16(buf, 44) as usize) * 32 <= buf.len()
    }
}

/// A chunk item together with the logical address it starts at.
#[derive(Debug)]
pub struct ChunkRecord {
    pub logical: u64,
    pub chunk: ChunkItem,
}

impl ChunkRecord {
    /// The chunk's logical range ends inside the address space.
    pub open spec fn in_range(&self) -> bool {
        self.logical + self.chunk.length <= u64::MAX
    }

    /// Whether the chunk's logical range ends inside the address space.
    pub fn fits(&self) -> (r: bool)
        ensures
            r == self.in_range(),
    {
        self.logical <= u64::MAX - self.chunk.length
    }
}

/// The profile bits of a chunk's type field.
pub const PROFILE_MASK: u64 = 0x7f8;

/// The name of a chunk's RAID profile (SINGLE when unset).
pub open spec fn profile_name_of(ty: u64) -> Seq<char> {
    let p = ty & PROFILE_MASK;
    if p == 0 {
        "SINGLE"@
    } else if p == bg_flag::RAID0 {
        "RAID0"@
    } else if p == bg_flag::RAID1 {
        "RAID1"@
    } else if p == bg_flag::DUP {
        "DUP"@
    } else if p == bg_flag::RAID10 {
        "RAID10"@
    } else if p == bg_flag::RAID5 {
        "RAID5"@
    } else if p == bg_flag::RAID6 {
        "RAID6"@
    } else if p == bg_flag::RAID1C3 {
        "RAID1C3"@
    } else if p == bg_flag::RAID1C4 {
        "RAID1C4"@
    } else {
        "UNKNOWN"@
    }
}

/// Human-readable name of a chunk's RAID profile (SINGLE when unset).
pub fn profile_name(ty: u64) -> (r: &'static str)
    ensures
        r@ == profile_name_of(ty),
{
    let p: u64 = ty & PROFILE_MASK;
    if p == 0 {
        "SINGLE"
    } else if p == bg_flag::RAID0 {
        "RAID0"
    } else if p == bg_flag::RAID1 {
        "RAID1"
    } else if p == bg_flag::DUP {
        "DUP"
    } else if p == bg_flag::RAID10 {
        "RAID10"
    } else if p == bg_flag::RAID5 {
        "RAID5"
    } else if p == bg_flag::RAID6 {
        "RAID6"
    } else if p == bg_flag::RAID1C3 {
        "RAID1C3"
    } else if p == bg_flag::RAID1C4 {
        "RAID1C4"
    } else {
        "UNKNOWN"
    }
}

/// At `pos` stands a CHUNK_ITEM key followed by a whole chunk item.
pub open spec fn sys_chunk_at(buf: Seq<u8>, pos: int) -> bool {
    &&& pos + 17 + 48 <= buf.len()
    &&& key::key_at(buf, pos).ty == key_type::CHUNK_ITEM
    &&& pos + 17 + 48 + util::le16(buf, pos + 17 + 44) * 32 <= buf.len()
}

/// Where the entry after the one at `pos` starts.
pub open spec fn sys_chunk_next(buf: Seq<u8>, pos: int) -> int {
    pos + 17 + 48 + util::le16(buf, pos + 17 + 44) * 32
}

/// `out` are the entries of the system chunk array from `pos` on.
pub open spec fn sys_chunks_from(out: Seq<ChunkRecord>, buf: Seq<u8>, pos: int) -> bool
    decreases buf.len() - pos,
{
    if sys_chunk_at(buf, pos) {
        &&& out.len() > 0
        &&& out[0].logical == key::key_at(buf, pos).offset
        &&& chunk_item_of(
            out[0].chunk,
            buf.subrange(pos + 17, sys_chunk_next(buf, pos)),
        )
        &&& sys_chunks_from(out.skip(1), buf, sys_chunk_next(buf, pos))
    } else {
        out.len() == 0
    }
}

/// Extending a parsed prefix by one entry.
proof fn lemma_sys_chunks_step(
    done: Seq<ChunkRecord>,
    rest: Seq<ChunkRecord>,
    buf: Seq<u8>,
    starts: Seq<int>,
)
    requires
        starts.len() == done.len() + 1,
        forall|i: int|
            0 <= i < done.len() ==> {
                &&& #[trigger] sys_chunk_at(buf, starts[i])
                &&& done[i].logical == key::key_at(buf, starts[i]).offset
                &&& chunk_item_of(
                    done[i].chunk,
                    buf.subrange(starts[i] + 17, sys_chunk_next(buf, starts[i])),
                )
                &&& starts[i + 1] == sys_chunk_next(buf, starts[i])
            },
        sys_chunks_from(rest, buf, starts.last()),
    ensures
        sys_chunks_from(done + rest, buf, starts[0]),
    decreases done.len(),
{
    if done.len() > 0 {
        let d = done.skip(1);
        let s = starts.skip(1);
        assert(sys_chunk_at(buf, starts[0]));
        assert forall|i: int| 0 <= i < d.len() implies {
            &&& #[trigger] sys_chunk_at(buf, s[i])
            &&& d[i].logical == key::key_at(buf, s[i]).offset
            &&& chunk_item_of(
                d[i].chunk,
                buf.subrange(s[i] + 17, sys_chunk_next(buf, s[i])),
            )
            &&& s[i + 1] == sys_chunk_next(buf, s[i])
        } by {
            assert(sys_chunk_at(buf, starts[i + 1]));
        }
        lemma_sys_chunks_step(d, rest, buf, s);
        assert((done + rest).skip(1) =~= d + rest);
    } else {
        assert(done + rest =~= rest);
    }
}

/// Parses the superblock's system chunk array: alternating 17-byte keys and
/// chunk items, ending at the first entry that is not a whole CHUNK_ITEM.
pub fn parse_sys_chunks(buf: &[u8]) -> (r: Vec<ChunkRecord>)
    requires
        buf@.len() + 0x20_0100 <= usize::MAX,
    ensures
        sys_chunks_from(r@, buf@, 0),
{
    let mut out: Vec<ChunkRecord> = Vec::new();
    let mut pos: usize = 0;
    let n: usize = buf.len();
    let ghost mut starts: Seq<int> = seq![0int];
    while pos + 17 + 48 <= n
        invariant_except_break
            pos <= n,
        invariant
            n == buf@.len(),
            n + 0x20_0100 <= usize::MAX,
            starts.len() == out@.len() + 1,
            starts[0] == 0,
            starts.last() == pos,
            forall|i: int|
                0 <= i < out@.len() ==> {
                    &&& #[trigger] sys_chunk_at(buf@, starts[i])
                    &&& out@[i].logical == key::key_at(buf@, starts[i]).offset
                    &&& chunk_item_of(
                        out@[i].chunk,
                        buf@.subrange(starts[i] + 17, sys_chunk_next(buf@, starts[i])),
                    )
                    &&& starts[i + 1] == sys_chunk_next(buf@, starts[i])
                },
        ensures
            !sys_chunk_at(buf@, pos as int),
        decreases n - pos,
    {
        let k = Key::parse(buf, pos);
        if k.ty != key_type::CHUNK_ITEM {
            break;
        }
        let num_stripes: usize = util::le_u16(buf, pos + 17 + 44) as usize;
        let end: usize = pos + 17 + 48 + num_stripes * 32;
        if end > n {
            break;
        }
        let item = slice_subrange(buf, pos + 17, end);
        assert(util::le16(item@, 44) == util::le16(buf@, pos + 17 + 44));
        let chunk = ChunkItem::parse(item);
        out.push(ChunkRecord { logical: k.offset, chunk });
        proof {
            let before = starts;
            starts = starts.push(end as int);
            assert forall|i: int| 0 <= i < out@.len() implies {
                &&& #[trigger] sys_chunk_at(buf@, starts[i])
                &&& out@[i].logical == key::key_at(buf@, starts[i]).offset
                &&& chunk_item_of(
                    out@[i].chunk,
                    buf@.subrange(starts[i] + 17, sys_chunk_next(buf@, starts[i])),
                )
                &&& starts[i + 1] == sys_chunk_next(buf@, starts[i])
            } by {
                if i < out@.len() - 1 {
                    assert(sys_chunk_at(buf@, before[i]));
                }
            }
        }
        pos = end;
    }
    proof {
        lemma_sys_chunks_step(out@, Seq::empty(), buf@, starts);
        assert(out@ + Seq::<ChunkRecord>::empty() =~= out@);
    }
    out
}

/// One mapped chunk: its logical range, type and stripes.
#[derive(Debug, Clone)]
pub struct MapEntry {
    pub begin: u64,
    pub end: u64,
    pub ty: u64,
    pub stripes: Vec<Stripe>,
}

impl MapEntry {
    /// The logical address lies in this chunk.
    pub open spec fn covers(&self, logical: u64) -> bool {
        self.begin <= logical < self.end
    }

    /// The chunk's logical range does not end before it begins.
    pub open spec fn in_range(&self) -> bool {
        self.begin <= self.end
    }

    /// `(devid, physical offset)` of `logical` on every stripe.
    pub open spec fn copies(&self, logical: u64) -> Seq<(u64, int)> {
        Seq::new(
            self.stripes@.len(),
            |i: int| (self.stripes@[i].devid, self.stripes@[i].offset + (logical - self.begin)),
        )
    }
}

/// The entry stands for the record: its range, type and stripes.
pub open spec fn entry_for(e: MapEntry, rec: ChunkRecord) -> bool {
    &&& e.begin == rec.logical
    &&& e.end == rec.logical + rec.chunk.length
    &&& e.ty == rec.chunk.ty
    &&& e.stripes@ == rec.chunk.stripes@
}

/// `after` is `before` with one more entry, which stands for the record. It goes
/// after those that start no later.
pub open spec fn inserted(before: Seq<MapEntry>, rec: ChunkRecord, after: Seq<MapEntry>) -> bool {
    exists|at: int, e: MapEntry|
        {
            &&& 0 <= at <= before.len()
            &&& after == #[trigger] before.insert(at, e)
            &&& entry_for(e, rec)
            &&& forall|j: int|
                0 <= j < before.len() ==> (j < at <==> (#[trigger] before[j]).begin <= rec.logical)
        }
}

/// `after` is `before` with the records inserted one after the other.
pub open spec fn all_inserted(
    before: Seq<MapEntry>,
    recs: Seq<ChunkRecord>,
    after: Seq<MapEntry>,
) -> bool
    decreases recs.len(),
{
    if recs.len() == 0 {
        after == before
    } else {
        exists|mid: Seq<MapEntry>|
            all_inserted(before, recs.drop_last(), mid) && #[trigger] inserted(
                mid,
                recs.last(),
                after,
            )
    }
}

/// `at` is this copy.
pub open spec fn is_copy(at: (u64, u64), copy: (u64, int)) -> bool {
    at.0 == copy.0 && at.1 == copy.1
}

/// Sorted chunk ranges for logical-to-physical address translation.
#[derive(Debug, Clone)]
pub struct ChunkMap {
    entries: Vec<MapEntry>,
}

/// Length and profile flags of the chunk containing a given offset.
#[derive(Debug, Clone, Copy, PartialEq, Eq, Structural)]
pub struct ChunkInfo {
    pub length: u64,
    pub flags: u64,
}

/// A data chunk with a profile that cannot be mapped linearly.
#[derive(Debug, Clone, Copy, PartialEq, Eq, Structural)]
pub struct ProfileError {
    pub logical: u64,
    pub profile: u64,
}

impl ProfileError {
    /// The sentence that reports the chunk.
    pub fn message(&self) -> (s: String)
        ensures
            s@ == "data chunk at logical "@ + ("0x"@ + text::hexadecimal(self.logical as nat))
                + " uses profile "@ + profile_name_of(self.profile)
                + " \u{2014} only SINGLE and DUP data chunks are supported (striped RAID profiles cannot be mapped linearly by this tool)"@,
    {
        let mut s = String::from_str("data chunk at logical ");
        text::push_hex(&mut s, self.logical);
        s.append(" uses profile ");
        s.append(profile_name(self.profile));
        s.append(
            " \u{2014} only SINGLE and DUP data chunks are supported (striped RAID profiles cannot be mapped linearly by this tool)",
        );
        assert(s@ =~= "data chunk at logical "@ + ("0x"@ + text::hexadecimal(self.logical as nat))
            + " uses profile "@ + profile_name_of(self.profile)
            + " \u{2014} only SINGLE and DUP data chunks are supported (striped RAID profiles cannot be mapped linearly by this tool)"@);
        s
    }
}

/// The entry belongs to data under a profile other than SINGLE and DUP.
pub open spec fn bad_data_profile(e: MapEntry) -> bool {
    let profile = e.ty & PROFILE_MASK;
    e.ty & bg_flag::DATA != 0 && profile != 0 && profile != bg_flag::DUP
}

/// The entries are sorted by logical start.
pub open spec fn sorted_entries(s: Seq<MapEntry>) -> bool {
    forall|i: int, j: int| 0 <= i <= j < s.len() ==> (#[trigger] s[i]).begin <= (#[trigger]
    s[j]).begin
}

impl View for ChunkMap {
    type V = Seq<MapEntry>;

    closed spec fn view(&self) -> Seq<MapEntry> {
        self.entries@
    }
}

impl Default for ChunkMap {
    fn default() -> (r: Self)
        ensures
            r@.len() == 0,
            r.wf(),
    {
        ChunkMap { entries: Vec::new() }
    }
}

impl ChunkMap {
    /// Entries are sorted by logical start, and none ends before it begins.
    pub open spec fn wf(&self) -> bool {
        &&& sorted_entries(self@)
        &&& forall|i: int| 0 <= i < self@.len() ==> (#[trigger] self@[i]).in_range()
    }

    /// Entry `i` is the one that answers for `logical`: the last in order that
    /// covers it.
    pub open spec fn found(&self, logical: u64, i: int) -> bool {
        &&& 0 <= i < self@.len()
        &&& self@[i].covers(logical)
        &&& forall|j: int| i < j < self@.len() ==> !(#[trigger] self@[j]).covers(logical)
    }

    /// No entry covers `logical`.
    pub open spec fn unmapped(&self, logical: u64) -> bool {
        forall|j: int| 0 <= j < self@.len() ==> !(#[trigger] self@[j]).covers(logical)
    }

    /// Every copy of `logical` has a physical address.
    pub open spec fn copies_fit(&self, logical: u64) -> bool {
        forall|i: int, k: int|
            #![trigger self@[i].copies(logical)[k]]
            self.found(logical, i) && 0 <= k < self@[i].stripes@.len() ==> self@[i].copies(
                logical,
            )[k].1 <= u64::MAX
    }

    /// Adds a chunk, keeping entries sorted by logical start; it goes after
    /// those with the same start.
    pub fn insert(&mut self, rec: &ChunkRecord)
        requires
            old(self).wf(),
            rec.in_range(),
        ensures
            final(self).wf(),
            inserted(old(self)@, *rec, final(self)@),
    {
        let n: usize = self.entries.len();
        let mut at: usize = n;
        while at > 0 && self.entries[at - 1].begin > rec.logical
            invariant
                at <= n,
                n == self.entries@.len(),
                self.entries@ == old(self).entries@,
                old(self).wf(),
                forall|j: int|
                    at <= j < n ==> (#[trigger] self.entries@[j]).begin > rec.logical,
            decreases at,
        {
            at = at - 1;
        }
        let mut stripes: Vec<Stripe> = Vec::new();
        let m: usize = rec.chunk.stripes.len();
        let mut i: usize = 0;
        while i < m
            invariant
                i <= m,
                m == rec.chunk.stripes@.len(),
                stripes@ == rec.chunk.stripes@.take(i as int),
            decreases m - i,
        {
            stripes.push(rec.chunk.stripes[i]);
            i = i + 1;
            assert(stripes@ =~= rec.chunk.stripes@.take(i as int));
        }
        assert(rec.chunk.stripes@.take(m as int) =~= rec.chunk.stripes@);
        let e = MapEntry {
            begin: rec.logical,
            end: rec.logical + rec.chunk.length,
            ty: rec.chunk.ty,
            stripes,
        };
        let ghost added = e;
        let ghost position = at as int;
        proof {
            assert forall|j: int| 0 <= j < old(self)@.len() implies (j < position <==> (
            #[trigger] old(self)@[j]).begin <= rec.logical) by {
                if j < position {
                    assert(old(self)@[j].begin <= old(self)@[position - 1].begin);
                }
            }
        }
        self.entries.insert(at, e);
        assert(self@ == old(self)@.insert(position, added));
        assert(entry_for(added, *rec));
        assert forall|a: int, b: int| 0 <= a <= b < self@.len() implies (#[trigger] self@[a]).begin
            <= (#[trigger] self@[b]).begin by {
            let oa = if a < position { a } else { a - 1 };
            let ob = if b < position { b } else { b - 1 };
            if a != position && b != position {
                assert(old(self)@[oa].begin <= old(self)@[ob].begin);
            } else if a != position {
                assert(old(self)@[oa].begin <= rec.logical);
            } else if b != position {
                assert(old(self)@[ob].begin > rec.logical);
            }
        }
        assert forall|j: int| 0 <= j < self@.len() implies (#[trigger] self@[j]).in_range() by {
            if j < position {
                assert(old(self)@[j].in_range());
            } else if j > position {
                assert(old(self)@[j - 1].in_range());
            }
        }
    }

    /// The index of the entry that answers for `logical`.
    fn find(&self, logical: u64) -> (r: Option<usize>)
        requires
            self.wf(),
        ensures
            match r {
                Some(i) => self.found(logical, i as int),
                None => self.unmapped(logical),
            },
    {
        // First entry that starts after `logical`; none from there on covers it.
        let n: usize = self.entries.len();
        let mut lo: usize = 0;
        let mut hi: usize = n;
        while lo < hi
            invariant
                lo <= hi <= n,
                n == self@.len(),
                self@ == self.entries@,
                self.wf(),
                forall|j: int| 0 <= j < lo ==> (#[trigger] self@[j]).begin <= logical,
                forall|j: int| hi <= j < n ==> (#[trigger] self@[j]).begin > logical,
            decreases hi - lo,
        {
            let mid: usize = lo + (hi - lo) / 2;
            if self.entries[mid].begin <= logical {
                lo = mid + 1;
            } else {
                hi = mid;
            }
        }
        let mut i: usize = lo;
        while i > 0
            invariant
                i <= n,
                n == self@.len(),
                self@ == self.entries@,
                forall|j: int| i <= j < n ==> !(#[trigger] self@[j]).covers(logical),
            decreases i,
        {
            i = i - 1;
            if self.entries[i].begin <= logical && logical < self.entries[i].end {
                return Some(i);
            }
        }
        None
    }

    /// Flags and length of the chunk containing `chunk_offset`.
    pub fn info(&self, chunk_offset: u64) -> (r: Option<ChunkInfo>)
        requires
            self.wf(),
        ensures
            match r {
                Some(info) => exists|i: int|
                    {
                        &&& #[trigger] self.found(chunk_offset, i)
                        &&& info.length == self@[i].end - self@[i].begin
                        &&& info.flags == self@[i].ty
                    },
                None => self.unmapped(chunk_offset),
            },
    {
        match self.find(chunk_offset) {
            None => None,
            Some(idx) => {
                assert(self@[idx as int].in_range());
                let e = &self.entries[idx];
                Some(ChunkInfo { length: e.end - e.begin, flags: e.ty })
            },
        }
    }

    /// Maps a logical address to (devid, physical offset) on its first stripe.
    /// Valid for SINGLE/DUP chunks, where every copy sits at the same offset.
    pub fn lookup(&self, logical: u64) -> (r: Option<(u64, u64)>)
        requires
            self.wf(),
            forall|i: int| #[trigger]
                self.found(logical, i) ==> self@[i].stripes@.len() > 0 && self@[i].copies(
                    logical,
                )[0].1 <= u64::MAX,
        ensures
            match r {
                Some(at) => exists|i: int|
                    #[trigger] self.found(logical, i) && is_copy(at, self@[i].copies(logical)[0]),
                None => self.unmapped(logical),
            },
    {
        match self.find(logical) {
            None => None,
            Some(idx) => {
                assert(self.found(logical, idx as int));
                let e = &self.entries[idx];
                let log_offset: u64 = logical - e.begin;
                let s = &e.stripes[0];
                Some((s.devid, s.offset + log_offset))
            },
        }
    }

    /// The chunk containing `logical`.
    pub fn entry(&self, logical: u64) -> (r: Option<&MapEntry>)
        requires
            self.wf(),
        ensures
            match r {
                Some(e) => exists|i: int| #[trigger] self.found(logical, i) && *e == self@[i],
                None => self.unmapped(logical),
            },
    {
        match self.find(logical) {
            None => None,
            Some(idx) => {
                assert(self.found(logical, idx as int));
                Some(&self.entries[idx])
            },
        }
    }

    /// Whether every copy of `logical` has a physical address.
    pub fn copies_in_range(&self, logical: u64) -> (r: bool)
        requires
            self.wf(),
        ensures
            r == self.copies_fit(logical),
    {
        let idx: usize = match self.find(logical) {
            None => {
                proof {
                    assert forall|i: int| !#[trigger] self.found(logical, i) by {
                        if self.found(logical, i) {
                            assert(self@[i].covers(logical));
                        }
                    }
                }
                return true;
            },
            Some(idx) => idx,
        };
        let e = &self.entries[idx];
        let log_offset: u64 = logical - e.begin;
        let n: usize = e.stripes.len();
        let mut k: usize = 0;
        while k < n
            invariant
                k <= n,
                n == e.stripes@.len(),
                *e == self@[idx as int],
                self.found(logical, idx as int),
                log_offset == logical - e.begin,
                forall|j: int| 0 <= j < k ==> (#[trigger] e.copies(logical)[j]).1 <= u64::MAX,
            decreases n - k,
        {
            if e.stripes[k].offset > u64::MAX - log_offset {
                assert(self@[idx as int].copies(logical)[k as int].1 > u64::MAX);
                return false;
            }
            k = k + 1;
        }
        proof {
            assert forall|i: int, j: int|
                #![trigger self@[i].copies(logical)[j]]
                self.found(logical, i) && 0 <= j < self@[i].stripes@.len() implies self@[i].copies(
                logical,
            )[j].1 <= u64::MAX by {
                law_one_entry_answers(*self, logical, i, idx as int);
                assert(e.copies(logical)[j].1 <= u64::MAX);
            }
        }
        true
    }

    /// (devid, physical offset) for every stripe copy of `logical`.
    pub fn lookup_stripes(&self, logical: u64) -> (r: Option<Vec<(u64, u64)>>)
        requires
            self.wf(),
            self.copies_fit(logical),
        ensures
            match r {
                Some(all) => exists|i: int|
                    {
                        &&& #[trigger] self.found(logical, i)
                        &&& all@.len() == self@[i].stripes@.len()
                        &&& forall|k: int|
                            0 <= k < all@.len() ==> is_copy(
                                #[trigger] all@[k],
                                self@[i].copies(logical)[k],
                            )
                    },
                None => self.unmapped(logical),
            },
    {
        match self.find(logical) {
            None => None,
            Some(idx) => {
                assert(self.found(logical, idx as int));
                let e = &self.entries[idx];
                let log_offset: u64 = logical - e.begin;
                let mut out: Vec<(u64, u64)> = Vec::new();
                let n: usize = e.stripes.len();
                let mut k: usize = 0;
                while k < n
                    invariant
                        k <= n,
                        n == e.stripes@.len(),
                        *e == self@[idx as int],
                        self.copies_fit(logical),
                        self.found(logical, idx as int),
                        log_offset == logical - e.begin,
                        out@.len() == k,
                        forall|j: int|
                            0 <= j < k ==> is_copy(#[trigger] out@[j], e.copies(logical)[j]),
                    decreases n - k,
                {
                    let s = &e.stripes[k];
                    assert(self@[idx as int].copies(logical)[k as int].1 <= u64::MAX);
                    out.push((s.devid, s.offset + log_offset));
                    k = k + 1;
                }
                Some(out)
            },
        }
    }

    pub fn len(&self) -> (r: usize)
        ensures
            r == self@.len(),
    {
        self.entries.len()
    }

    pub fn is_empty(&self) -> (r: bool)
        ensures
            r == (self@.len() == 0),
    {
        self.entries.len() == 0
    }

    /// Rejects data chunks with striped RAID profiles: the scrub maps
    /// logical to physical linearly and cannot handle interleaved stripes. The
    /// first such chunk in logical order is reported.
    pub fn validate_data_profiles(&self) -> (r: Result<(), ProfileError>)
        ensures
            match r {
                Ok(_) => forall|i: int|
                    0 <= i < self@.len() ==> !bad_data_profile(#[trigger] self@[i]),
                Err(e) => exists|i: int|
                    {
                        &&& 0 <= i < self@.len()
                        &&& bad_data_profile(#[trigger] self@[i])
                        &&& e.logical == self@[i].begin
                        &&& e.profile == self@[i].ty & PROFILE_MASK
                        &&& forall|j: int| 0 <= j < i ==> !bad_data_profile(#[trigger] self@[j])
                    },
            },
    {
        let n: usize = self.entries.len();
        let mut i: usize = 0;
        while i < n
            invariant
                i <= n,
                n == self@.len(),
                self@ == self.entries@,
                forall|j: int| 0 <= j < i ==> !bad_data_profile(#[trigger] self@[j]),
            decreases n - i,
        {
            let e = &self.entries[i];
            let profile: u64 = e.ty & PROFILE_MASK;
            if e.ty & bg_flag::DATA != 0 && profile != 0 && profile != bg_flag::DUP {
                assert(bad_data_profile(self@[i as int]));
                return Err(ProfileError { logical: e.begin, profile });
            }
            i = i + 1;
        }
        Ok(())
    }
}

/// A chunk that was inserted is found: some entry answers for every address in
/// it.
pub proof fn law_inserted_chunk_is_mapped(
    before: Seq<MapEntry>,
    rec: ChunkRecord,
    after: ChunkMap,
    logical: u64,
)
    requires
        inserted(before, rec, after@),
        rec.logical <= logical < rec.logical + rec.chunk.length,
    ensures
        exists|i: int| #[trigger] after.found(logical, i),
{
    let (at, e) = choose|at: int, e: MapEntry|
        {
            &&& 0 <= at <= before.len()
            &&& after@ == #[trigger] before.insert(at, e)
            &&& entry_for(e, rec)
        };
    assert(after@[at] == e);
    lemma_last_covering(after, logical, after@.len() as int, at);
}

/// The newer of two chunks with one start answers: what was inserted last stands
/// for every address in it that no chunk with a later start covers.
pub proof fn law_newer_chunk_answers(
    before: Seq<MapEntry>,
    rec: ChunkRecord,
    after: ChunkMap,
    logical: u64,
)
    requires
        inserted(before, rec, after@),
        rec.logical <= logical < rec.logical + rec.chunk.length,
        forall|j: int|
            0 <= j < before.len() && (#[trigger] before[j]).begin > rec.logical
                ==> !before[j].covers(logical),
    ensures
        exists|i: int| #[trigger] after.found(logical, i) && entry_for(after@[i], rec),
{
    let (at, e) = choose|at: int, e: MapEntry|
        {
            &&& 0 <= at <= before.len()
            &&& after@ == #[trigger] before.insert(at, e)
            &&& entry_for(e, rec)
            &&& forall|j: int|
                0 <= j < before.len() ==> (j < at <==> (#[trigger] before[j]).begin <= rec.logical)
        };
    assert(after@[at] == e);
    assert forall|j: int| at < j < after@.len() implies !(#[trigger] after@[j]).covers(
        logical,
    ) by {
        assert(after@[j] == before[j - 1]);
    }
    assert(after.found(logical, at));
}

/// A map filled from records holds one entry for each, what it held before, and
/// nothing else: every entry stands for a record or was there.
pub proof fn law_map_holds_its_records(
    before: Seq<MapEntry>,
    recs: Seq<ChunkRecord>,
    after: Seq<MapEntry>,
)
    requires
        all_inserted(before, recs, after),
    ensures
        after.len() == before.len() + recs.len(),
        forall|k: int|
            0 <= k < recs.len() ==> exists|i: int|
                0 <= i < after.len() && entry_for(#[trigger] after[i], #[trigger] recs[k]),
        forall|j: int| 0 <= j < before.len() ==> after.contains(#[trigger] before[j]),
        forall|i: int|
            0 <= i < after.len() ==> before.contains(#[trigger] after[i]) || exists|k: int|
                0 <= k < recs.len() && entry_for(after[i], #[trigger] recs[k]),
    decreases recs.len(),
{
    if recs.len() > 0 {
        let some = recs.drop_last();
        let last = recs.last();
        let mid = choose|mid: Seq<MapEntry>|
            all_inserted(before, some, mid) && #[trigger] inserted(mid, last, after);
        law_map_holds_its_records(before, some, mid);
        let (at, e) = choose|at: int, e: MapEntry|
            {
                &&& 0 <= at <= mid.len()
                &&& after == #[trigger] mid.insert(at, e)
                &&& entry_for(e, last)
            };
        assert(after[at] == e);
        assert forall|k: int| 0 <= k < recs.len() implies exists|i: int|
            0 <= i < after.len() && entry_for(#[trigger] after[i], #[trigger] recs[k]) by {
            if k < some.len() {
                assert(some[k] == recs[k]);
                let i = choose|i: int| 0 <= i < mid.len() && entry_for(#[trigger] mid[i], some[k]);
                let i2 = if i < at { i } else { i + 1 };
                assert(after[i2] == mid[i]);
            } else {
                assert(entry_for(after[at], recs[k]));
            }
        }
        assert forall|j: int| 0 <= j < before.len() implies after.contains(
            #[trigger] before[j],
        ) by {
            assert(mid.contains(before[j]));
            let i = choose|i: int| 0 <= i < mid.len() && mid[i] == before[j];
            let i2 = if i < at { i } else { i + 1 };
            assert(after[i2] == mid[i]);
        }
        assert forall|i: int| 0 <= i < after.len() implies before.contains(#[trigger] after[i])
            || exists|k: int| 0 <= k < recs.len() && entry_for(after[i], #[trigger] recs[k]) by {
            if i == at {
                assert(entry_for(after[i], recs[recs.len() - 1]));
            } else {
                let m = if i < at { i } else { i - 1 };
                assert(mid[m] == after[i]);
                if !before.contains(mid[m]) {
                    let k = choose|k: int|
                        0 <= k < some.len() && entry_for(mid[m], #[trigger] some[k]);
                    assert(recs[k] == some[k]);
                }
            }
        }
    } else {
        assert forall|j: int| 0 <= j < before.len() implies after.contains(
            #[trigger] before[j],
        ) by {
            assert(after[j] == before[j]);
        }
        assert forall|i: int| 0 <= i < after.len() implies before.contains(#[trigger] after[i]) by {
            assert(before[i] == after[i]);
        }
    }
}

/// Among the first `n` entries, one of which covers `logical`, and none after
/// which does, the last covering one answers.
proof fn lemma_last_covering(map: ChunkMap, logical: u64, n: int, at: int)
    requires
        0 <= at < n <= map@.len(),
        map@[at].covers(logical),
        forall|j: int| n <= j < map@.len() ==> !(#[trigger] map@[j]).covers(logical),
    ensures
        exists|i: int| #[trigger] map.found(logical, i),
    decreases n,
{
    if map@[n - 1].covers(logical) {
        assert(map.found(logical, n - 1));
    } else {
        lemma_last_covering(map, logical, n - 1, at);
    }
}

/// The answer for an address does not depend on who asks: at most one entry
/// answers.
pub proof fn law_one_entry_answers(map: ChunkMap, logical: u64, i: int, j: int)
    requires
        map.found(logical, i),
        map.found(logical, j),
    ensures
        i == j,
{
}

} // verus!
