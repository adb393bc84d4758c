//! Node reads: logical and physical addressing, mirror handling and header
//! checks. The caller supplies the raw reads: this module says where to read and
//! judges what came back.

use vstd::prelude::*;

use crate::btrfs::chunk::{ChunkMap, MapEntry};
use crate::btrfs::csum_strategy;
use crate::btrfs::csum_strategy::CsumStrategy;
use crate::btrfs::node;
use crate::btrfs::node::{Header, Node};
use crate::bytes;

verus! {

/// Sentinel for `expected_generation`: skip the generation check.
pub const GEN_DONT_CHECK: u64 = u64::MAX;

/// Most bytes hinted ahead of a physical read.
pub const READAHEAD_CAP: u64 = 0x400_0000;

/// Outcome of one node read across all its mirror copies.
pub struct ReadNodeResult {
    /// The node, when at least one copy had a valid header checksum.
    pub node: Option<Node>,
    pub all_mirrors_failed: bool,
    /// No copy passed full header validation, but at least one passed the header
    /// checksum (stale node).
    pub generation_mismatch: bool,
    /// Multiple mirror copies exist and only some passed the header checksum.
    pub mirror_mismatch: bool,
}

/// Why a read has no position or no node.
#[derive(Debug, Clone, Copy, PartialEq, Eq, Structural)]
pub enum ReadError {
    /// No chunk maps the logical address.
    NotMapped { logical: u64 },
    /// No copy of the node could be read.
    NoCopy { logical: u64 },
    /// The read is for a device other than the opened one.
    WrongDevice { devid: u64, expected: u64 },
    /// The position lies outside the address space.
    PositionOverflow,
    /// The node announces more items than it has room for.
    Malformed { logical: u64 },
}

/// What one mirror copy of a node turned out to be.
#[derive(Debug, Clone, Copy, PartialEq, Eq, Structural)]
pub enum CopyKind {
    /// The copy could not be read.
    Unread,
    /// The header checksum does not match.
    Corrupt,
    /// The header checksum matches but the header is not the expected one.
    Stale,
    /// The expected node.
    Good,
}

/// How a filesystem on one backing store is read.
#[derive(Debug, Clone, Copy)]
pub struct FsReader {
    pub node_size: usize,
    /// Offset of the filesystem partition within the backing store.
    pub base_offset: u64,
    /// Expected device id; physical reads of other devids are rejected.
    pub devid: Option<u64>,
    /// Checksum strategy for header verification; None skips verification.
    pub strategy: Option<CsumStrategy>,
    /// Expected fsid, checked against node headers when set.
    pub fsid: Option<[u8; 16]>,
}

/// Number of copies whose header checksum matches.
pub open spec fn valid_copies(kinds: Seq<CopyKind>) -> nat
    decreases kinds.len(),
{
    if kinds.len() == 0 {
        0
    } else {
        valid_copies(kinds.drop_last()) + if kinds.last() == CopyKind::Good || kinds.last()
            == CopyKind::Stale {
            1nat
        } else {
            0
        }
    }
}

/// Copy `i` is the first of kind `k`.
pub open spec fn first_of(kinds: Seq<CopyKind>, k: CopyKind, i: int) -> bool {
    &&& 0 <= i < kinds.len()
    &&& kinds[i] == k
    &&& forall|j: int| 0 <= j < i ==> #[trigger] kinds[j] != k
}

/// No copy is of kind `k`.
pub open spec fn none_of(kinds: Seq<CopyKind>, k: CopyKind) -> bool {
    forall|j: int| 0 <= j < kinds.len() ==> #[trigger] kinds[j] != k
}

/// Copy `i` is the one whose bytes are used: the first good one, else the first
/// stale one.
pub open spec fn chosen(kinds: Seq<CopyKind>, i: int) -> bool {
    ||| first_of(kinds, CopyKind::Good, i)
    ||| none_of(kinds, CopyKind::Good) && first_of(kinds, CopyKind::Stale, i)
}

/// Some copies but not all have a matching header checksum.
pub open spec fn copies_disagree(kinds: Seq<CopyKind>) -> bool {
    kinds.len() > 1 && 0 < valid_copies(kinds) < kinds.len()
}

proof fn lemma_valid_copies(kinds: Seq<CopyKind>)
    ensures
        valid_copies(kinds) <= kinds.len(),
        valid_copies(kinds) == 0 <==> none_of(kinds, CopyKind::Good) && none_of(
            kinds,
            CopyKind::Stale,
        ),
    decreases kinds.len(),
{
    if kinds.len() > 0 {
        let k = kinds.drop_last();
        lemma_valid_copies(k);
        if valid_copies(kinds) == 0 {
            assert forall|j: int| 0 <= j < kinds.len() implies #[trigger] kinds[j]
                != CopyKind::Good && kinds[j] != CopyKind::Stale by {
                if j < k.len() {
                    assert(k[j] == kinds[j]);
                }
            }
        } else {
            if kinds.last() == CopyKind::Good || kinds.last() == CopyKind::Stale {
                assert(kinds[kinds.len() - 1] == kinds.last());
            } else {
                if none_of(kinds, CopyKind::Good) && none_of(kinds, CopyKind::Stale) {
                    assert forall|j: int| 0 <= j < k.len() implies #[trigger] k[j]
                        != CopyKind::Good && k[j] != CopyKind::Stale by {
                        assert(k[j] == kinds[j]);
                    }
                }
            }
        }
    }
}

/// Blocks of `n` bytes can be read anywhere, and a read that succeeds gives all
/// of them.
pub open spec fn store_ready<P: Fn(u64, usize) -> Option<Vec<u8>>>(pread: P, n: usize) -> bool {
    &&& forall|pos: u64| #[trigger] call_requires(pread, (pos, n))
    &&& forall|pos: u64, got: Option<Vec<u8>>| #[trigger]
        call_ensures(pread, (pos, n), got) ==> match got {
            Some(b) => b@.len() == n,
            None => true,
        }
}

/// `copies` are what reads of `n` bytes at `positions` gave.
pub open spec fn copies_read<P: Fn(u64, usize) -> Option<Vec<u8>>>(
    pread: P,
    n: usize,
    positions: Seq<u64>,
    copies: Seq<Option<Vec<u8>>>,
) -> bool {
    &&& copies.len() == positions.len()
    &&& forall|k: int|
        0 <= k < copies.len() ==> call_ensures(pread, (positions[k], n), #[trigger] copies[k])
}

impl FsReader {
    /// Verified nodes are large enough to hold a header, and the strategy is an
    /// implemented one.
    pub open spec fn wf(&self) -> bool {
        self.strategy matches Some(s) ==> s.wf() && self.node_size >= 101
    }

    pub fn new(node_size: usize, base_offset: u64, strategy: Option<CsumStrategy>) -> (r: Self)
        ensures
            r.node_size == node_size,
            r.base_offset == base_offset,
            r.strategy == strategy,
            r.devid is None,
            r.fsid is None,
    {
        FsReader { node_size, base_offset, strategy, devid: None, fsid: None }
    }

    /// Sets the expected device id.
    pub fn with_devid(self, devid: u64) -> (r: Self)
        ensures
            r == (FsReader { devid: Some(devid), ..self }),
    {
        FsReader {
            node_size: self.node_size,
            base_offset: self.base_offset,
            devid: Some(devid),
            strategy: self.strategy,
            fsid: self.fsid,
        }
    }

    /// Sets the expected filesystem id.
    pub fn with_fsid(self, fsid: [u8; 16]) -> (r: Self)
        ensures
            r == (FsReader { fsid: Some(fsid), ..self }),
    {
        FsReader {
            node_size: self.node_size,
            base_offset: self.base_offset,
            devid: self.devid,
            strategy: self.strategy,
            fsid: Some(fsid),
        }
    }

    pub fn base_offset(&self) -> (r: u64)
        ensures
            r == self.base_offset,
    {
        self.base_offset
    }

    pub fn node_size(&self) -> (r: usize)
        ensures
            r == self.node_size,
    {
        self.node_size
    }

    pub fn strategy(&self) -> (r: Option<&CsumStrategy>)
        ensures
            r is Some <==> self.strategy is Some,
            r matches Some(s) ==> *s == self.strategy.unwrap(),
    {
        self.strategy.as_ref()
    }

    /// Where in the backing store a copy of a logical address is read; `None`
    /// outside the address space.
    fn position_in(&self, e: &MapEntry, k: usize, logical: u64) -> (r: Option<u64>)
        requires
            e.covers(logical),
            k < e.stripes@.len(),
        ensures
            match r {
                Some(pos) => pos == self.base_offset + e.copies(logical)[k as int].1,
                None => self.base_offset + e.copies(logical)[k as int].1 > u64::MAX,
            },
    {
        match e.stripes[k].offset.checked_add(logical - e.begin) {
            None => None,
            Some(phys) => self.base_offset.checked_add(phys),
        }
    }

    /// Where in the backing store a logical address is read: on its first
    /// stripe, from the partition's offset on.
    pub fn read_logical(&self, chunk_map: &ChunkMap, logical: u64) -> (r: Result<u64, ReadError>)
        requires
            chunk_map.wf(),
            forall|i: int|
                #[trigger] chunk_map.found(logical, i) ==> chunk_map@[i].stripes@.len() > 0,
        ensures
            match r {
                Ok(pos) => exists|i: int|
                    #[trigger] chunk_map.found(logical, i) && pos == self.base_offset
                        + chunk_map@[i].copies(logical)[0].1,
                Err(ReadError::NotMapped { logical: l }) => l == logical && chunk_map.unmapped(
                    logical,
                ),
                Err(e) => e == ReadError::PositionOverflow && exists|i: int|
                    #[trigger] chunk_map.found(logical, i) && self.base_offset
                        + chunk_map@[i].copies(logical)[0].1 > u64::MAX,
            },
    {
        match chunk_map.entry(logical) {
            None => Err(ReadError::NotMapped { logical }),
            Some(e) => match self.position_in(e, 0, logical) {
                Some(pos) => Ok(pos),
                None => Err(ReadError::PositionOverflow),
            },
        }
    }

    /// Where in the backing store a physical offset is read, rejecting reads for
    /// other devices, and the range to hint ahead of the current position.
    pub fn read_physical(&self, devid: u64, phys: u64, n: usize) -> (r: Result<
        PhysicalRead,
        ReadError,
    >)
        ensures
            match r {
                Ok(p) => {
                    &&& self.devid matches Some(expected) ==> devid == expected
                    &&& p.position == self.base_offset + phys
                    &&& p.ahead_position == self.base_offset + phys + n
                    &&& p.ahead_len == (if n < READAHEAD_CAP { n as int } else {
                        READAHEAD_CAP as int
                    })
                },
                Err(ReadError::WrongDevice { devid: d, expected }) => d == devid && self.devid
                    == Some(expected) && devid != expected,
                Err(e) => {
                    &&& e == ReadError::PositionOverflow
                    &&& self.devid matches Some(expected) ==> devid == expected
                    &&& self.base_offset + phys + n > u64::MAX
                },
            },
    {
        if let Some(expected) = self.devid {
            if devid != expected {
                return Err(ReadError::WrongDevice { devid, expected });
            }
        }
        match self.base_offset.checked_add(phys) {
            None => Err(ReadError::PositionOverflow),
            Some(position) => match position.checked_add(n as u64) {
                None => Err(ReadError::PositionOverflow),
                Some(ahead_position) => {
                    let ahead_len: u64 = if (n as u64) < READAHEAD_CAP {
                        n as u64
                    } else {
                        READAHEAD_CAP
                    };
                    Ok(PhysicalRead { position, ahead_position, ahead_len })
                },
            },
        }
    }

    /// Where to hint the kernel to read ahead: every mirror copy of `logical`.
    pub fn prefetch_logical(&self, chunk_map: &ChunkMap, logical: u64) -> (r: Vec<u64>)
        requires
            chunk_map.wf(),
        ensures
            chunk_map.unmapped(logical) ==> r@.len() == 0,
            forall|i: int| #[trigger]
                chunk_map.found(logical, i) ==> r@ == Seq::new(
                    chunk_map@[i].stripes@.len(),
                    |k: int|
                        saturate(self.base_offset + chunk_map@[i].copies(logical)[k].1),
                ),
    {
        match chunk_map.entry(logical) {
            None => {
                proof {
                    assert forall|i: int| !#[trigger] chunk_map.found(logical, i) by {
                        if chunk_map.found(logical, i) {
                            assert(chunk_map@[i].covers(logical));
                        }
                    }
                }
                Vec::new()
            },
            Some(e) => {
                let mut out: Vec<u64> = Vec::new();
                let n: usize = e.stripes.len();
                let mut k: usize = 0;
                while k < n
                    invariant
                        k <= n,
                        n == e.stripes@.len(),
                        e.covers(logical),
                        out@ =~= Seq::new(
                            k as nat,
                            |j: int| saturate(self.base_offset + e.copies(logical)[j].1),
                        ),
                    decreases n - k,
                {
                    out.push(
                        match self.position_in(e, k, logical) {
                            Some(pos) => pos,
                            None => u64::MAX,
                        },
                    );
                    k = k + 1;
                }
                proof {
                    let at = choose|i: int| #[trigger]
                        chunk_map.found(logical, i) && *e == chunk_map@[i];
                    assert(chunk_map@[at].covers(logical));
                    assert forall|i: int| #[trigger] chunk_map.found(logical, i) implies i
                        == at by {
                        crate::btrfs::chunk::law_one_entry_answers(*chunk_map, logical, i, at);
                    }
                }
                out
            },
        }
    }

    /// The physical offsets of a node's mirror copies: every stripe of its
    /// chunk. An unmapped address falls back to offset 0, so that the read fails
    /// verification and the node is reported unverifiable.
    pub open spec fn copy_offsets(&self, chunk_map: ChunkMap, logical: u64, out: Seq<u64>) -> bool {
        &&& chunk_map.unmapped(logical) ==> out == seq![self.base_offset]
        &&& forall|i: int| #[trigger]
            chunk_map.found(logical, i) ==> {
                &&& out.len() == chunk_map@[i].stripes@.len()
                &&& forall|k: int|
                    0 <= k < out.len() ==> #[trigger] out[k] == self.base_offset
                        + chunk_map@[i].copies(logical)[k].1
            }
    }

    /// Where in the backing store the mirror copies of a node are read.
    pub fn node_positions(&self, chunk_map: &ChunkMap, logical: u64) -> (r: Result<
        Vec<u64>,
        ReadError,
    >)
        requires
            chunk_map.wf(),
        ensures
            match r {
                Ok(out) => self.copy_offsets(*chunk_map, logical, out@),
                Err(e) => e == ReadError::PositionOverflow && exists|i: int, k: int|
                    chunk_map.found(logical, i) && 0 <= k < chunk_map@[i].stripes@.len()
                        && self.base_offset + #[trigger] chunk_map@[i].copies(logical)[k].1
                        > u64::MAX,
            },
    {
        match chunk_map.entry(logical) {
            None => {
                let mut out: Vec<u64> = Vec::new();
                out.push(self.base_offset);
                proof {
                    assert(out@ =~= seq![self.base_offset]);
                    assert forall|i: int| !#[trigger] chunk_map.found(logical, i) by {
                        if chunk_map.found(logical, i) {
                            assert(chunk_map@[i].covers(logical));
                        }
                    }
                }
                Ok(out)
            },
            Some(e) => {
                let mut out: Vec<u64> = Vec::new();
                let n: usize = e.stripes.len();
                let ghost at = choose|i: int| #[trigger]
                    chunk_map.found(logical, i) && *e == chunk_map@[i];
                let mut k: usize = 0;
                while k < n
                    invariant
                        k <= n,
                        n == e.stripes@.len(),
                        out@.len() == k,
                        chunk_map.found(logical, at),
                        *e == chunk_map@[at],
                        forall|j: int|
                            0 <= j < k ==> #[trigger] out@[j] == self.base_offset + e.copies(
                                logical,
                            )[j].1,
                    decreases n - k,
                {
                    match self.position_in(e, k, logical) {
                        Some(pos) => {
                            out.push(pos);
                        },
                        None => {
                            assert(self.base_offset + chunk_map@[at].copies(logical)[k as int].1
                                > u64::MAX);
                            return Err(ReadError::PositionOverflow);
                        },
                    }
                    k = k + 1;
                }
                proof {
                    assert(chunk_map@[at].covers(logical));
                    assert forall|i: int| #[trigger] chunk_map.found(logical, i) implies i
                        == at by {
                        crate::btrfs::chunk::law_one_entry_answers(*chunk_map, logical, i, at);
                    }
                }
                Ok(out)
            },
        }
    }

    /// The header is the one that was expected: it names the address it was read
    /// from and the filesystem, and has the level, owner and generation that its
    /// parent gave, where there is an expectation.
    pub open spec fn header_expected(
        &self,
        hdr: Header,
        logical: u64,
        expected_generation: u64,
        expected_level: Option<u8>,
        expected_owner: Option<u64>,
    ) -> bool {
        &&& hdr.bytenr == logical
        &&& self.fsid matches Some(fsid) ==> hdr.fsid@ == fsid@
        &&& expected_level matches Some(lvl) ==> hdr.level == lvl
        &&& expected_owner matches Some(owner) ==> hdr.owner == owner
        &&& expected_generation != GEN_DONT_CHECK ==> hdr.generation == expected_generation
    }

    /// Checks a node header against the expected logical address, fsid, level,
    /// owner, and generation (checks skipped when no expectation is given).
    pub fn validate_header(
        &self,
        hdr: &Header,
        logical: u64,
        expected_generation: u64,
        expected_level: Option<u8>,
        expected_owner: Option<u64>,
    ) -> (r: bool)
        ensures
            r == self.header_expected(
                *hdr,
                logical,
                expected_generation,
                expected_level,
                expected_owner,
            ),
    {
        if hdr.bytenr != logical {
            return false;
        }
        if let Some(fsid) = self.fsid {
            if !bytes::bytes_equal(hdr.fsid.as_slice(), fsid.as_slice()) {
                return false;
            }
        }
        if let Some(lvl) = expected_level {
            if hdr.level != lvl {
                return false;
            }
        }
        if let Some(owner) = expected_owner {
            if hdr.owner != owner {
                return false;
            }
        }
        if expected_generation != GEN_DONT_CHECK && hdr.generation != expected_generation {
            return false;
        }
        true
    }

    /// What a mirror copy is, given its bytes.
    pub open spec fn copy_kind(
        &self,
        copy: Option<Vec<u8>>,
        logical: u64,
        expected_generation: u64,
        expected_level: Option<u8>,
        expected_owner: Option<u64>,
    ) -> CopyKind {
        match copy {
            None => CopyKind::Unread,
            Some(buf) => if !csum_strategy::header_verifies(
                self.strategy.unwrap().csum_type,
                buf@,
            ) {
                CopyKind::Corrupt
            } else if !header_bytes_expected(
                *self,
                buf@,
                logical,
                expected_generation,
                expected_level,
                expected_owner,
            ) {
                CopyKind::Stale
            } else {
                CopyKind::Good
            },
        }
    }

    /// What each mirror copy is.
    pub open spec fn copy_kinds(
        &self,
        copies: Seq<Option<Vec<u8>>>,
        logical: u64,
        expected_generation: u64,
        expected_level: Option<u8>,
        expected_owner: Option<u64>,
    ) -> Seq<CopyKind> {
        Seq::new(
            copies.len(),
            |i: int|
                self.copy_kind(
                    copies[i],
                    logical,
                    expected_generation,
                    expected_level,
                    expected_owner,
                ),
        )
    }

    fn classify(
        &self,
        copy: &Option<Vec<u8>>,
        logical: u64,
        expected_generation: u64,
        expected_level: Option<u8>,
        expected_owner: Option<u64>,
    ) -> (r: CopyKind)
        requires
            self.wf(),
            self.strategy is Some,
            copy matches Some(b) ==> b@.len() == self.node_size,
        ensures
            r == self.copy_kind(
                *copy,
                logical,
                expected_generation,
                expected_level,
                expected_owner,
            ),
    {
        match copy {
            None => CopyKind::Unread,
            Some(buf) => {
                let verified = match self.strategy {
                    Some(s) => s.verify_node_header(buf.as_slice()),
                    None => false,
                };
                if !verified {
                    return CopyKind::Corrupt;
                }
                let hdr = Header::parse(buf.as_slice());
                if self.validate_header(
                    &hdr,
                    logical,
                    expected_generation,
                    expected_level,
                    expected_owner,
                ) {
                    CopyKind::Good
                } else {
                    CopyKind::Stale
                }
            },
        }
    }

    /// `r` is the verdict on the mirror copies of a node. A node comes from the
    /// chosen copy; without one, a copy with a bad header checksum makes the
    /// node unverifiable, and where none could be read there is no node.
    pub open spec fn judged(
        &self,
        copies: Seq<Option<Vec<u8>>>,
        logical: u64,
        expected_generation: u64,
        expected_level: Option<u8>,
        expected_owner: Option<u64>,
        r: Result<ReadNodeResult, ReadError>,
    ) -> bool {
        let kinds = self.copy_kinds(
            copies,
            logical,
            expected_generation,
            expected_level,
            expected_owner,
        );
        match r {
            Ok(res) => {
                &&& res.mirror_mismatch == copies_disagree(kinds)
                &&& res.generation_mismatch == (none_of(kinds, CopyKind::Good) && !none_of(
                    kinds,
                    CopyKind::Stale,
                ))
                &&& res.all_mirrors_failed == (none_of(kinds, CopyKind::Good) && none_of(
                    kinds,
                    CopyKind::Stale,
                ))
                &&& if res.all_mirrors_failed {
                    res.node is None && !none_of(kinds, CopyKind::Corrupt)
                } else {
                    res.node is Some && exists|i: int|
                        {
                            &&& #[trigger] chosen(kinds, i)
                            &&& node::node_in_bounds(copies[i].unwrap()@)
                            &&& node::node_of(res.node.unwrap(), copies[i].unwrap()@)
                        }
                }
            },
            Err(ReadError::NoCopy { logical: l }) => {
                &&& l == logical
                &&& forall|i: int|
                    0 <= i < kinds.len() ==> #[trigger] kinds[i] == CopyKind::Unread
            },
            Err(e) => {
                &&& e == (ReadError::Malformed { logical })
                &&& exists|i: int| #[trigger]
                    chosen(kinds, i) && !node::node_in_bounds(copies[i].unwrap()@)
            },
        }
    }

    /// Judges the mirror copies of a node, in stripe order: the first good copy
    /// is used, else the first stale one; without either, a copy with a bad
    /// header checksum makes the node unverifiable metadata.
    pub fn read_node(
        &self,
        copies: Vec<Option<Vec<u8>>>,
        logical: u64,
        expected_generation: u64,
        expected_level: Option<u8>,
        expected_owner: Option<u64>,
    ) -> (r: Result<ReadNodeResult, ReadError>)
        requires
            self.wf(),
            self.strategy is Some,
            forall|i: int|
                0 <= i < copies@.len() ==> ((#[trigger] copies@[i]) matches Some(b) ==> b@.len()
                    == self.node_size),
        ensures
            self.judged(
                copies@,
                logical,
                expected_generation,
                expected_level,
                expected_owner,
                r,
            ),
    {
        let ghost kinds = self.copy_kinds(
            copies@,
            logical,
            expected_generation,
            expected_level,
            expected_owner,
        );
        let ghost all = copies@;
        let n: usize = copies.len();
        let mut good: Option<usize> = None;
        let mut stale: Option<usize> = None;
        let mut corrupt: bool = false;
        let mut valid_count: usize = 0;
        let mut k: usize = 0;
        while k < n
            invariant
                k <= n,
                n == copies@.len(),
                copies@ == all,
                self.wf(),
                self.strategy is Some,
                kinds == self.copy_kinds(
                    all,
                    logical,
                    expected_generation,
                    expected_level,
                    expected_owner,
                ),
                forall|i: int|
                    0 <= i < copies@.len() ==> ((#[trigger] copies@[i]) matches Some(b) ==> b@.len()
                        == self.node_size),
                valid_count == valid_copies(kinds.take(k as int)),
                valid_count <= k,
                match good {
                    Some(i) => i < k && first_of(kinds, CopyKind::Good, i as int),
                    None => forall|j: int| 0 <= j < k ==> #[trigger] kinds[j] != CopyKind::Good,
                },
                match stale {
                    Some(i) => i < k && first_of(kinds, CopyKind::Stale, i as int),
                    None => forall|j: int| 0 <= j < k ==> #[trigger] kinds[j] != CopyKind::Stale,
                },
                corrupt ==> exists|j: int| 0 <= j < k && #[trigger] kinds[j] == CopyKind::Corrupt,
                !corrupt ==> forall|j: int|
                    0 <= j < k ==> #[trigger] kinds[j] != CopyKind::Corrupt,
            decreases n - k,
        {
            proof {
                assert(kinds.take(k + 1).drop_last() =~= kinds.take(k as int));
                assert(kinds.take(k + 1).last() == kinds[k as int]);
            }
            let kind = self.classify(
                &copies[k],
                logical,
                expected_generation,
                expected_level,
                expected_owner,
            );
            assert(kind == kinds[k as int]);
            match kind {
                CopyKind::Unread => {},
                CopyKind::Corrupt => {
                    corrupt = true;
                },
                CopyKind::Stale => {
                    valid_count = valid_count + 1;
                    if stale.is_none() {
                        stale = Some(k);
                    }
                },
                CopyKind::Good => {
                    valid_count = valid_count + 1;
                    if good.is_none() {
                        good = Some(k);
                    }
                },
            }
            k = k + 1;
        }
        proof {
            assert(kinds.take(n as int) =~= kinds);
            lemma_valid_copies(kinds);
        }
        let generation_mismatch = good.is_none() && stale.is_some();
        let mirror_mismatch = n > 1 && valid_count > 0 && valid_count < n;
        let pick: Option<usize> = match good {
            Some(i) => Some(i),
            None => stale,
        };
        match pick {
            Some(i) => {
                assert(chosen(kinds, i as int));
                let mut copies = copies;
                let buf: Vec<u8> = match copies.swap_remove(i) {
                    Some(b) => b,
                    None => Vec::new(),
                };
                assert(all[i as int] is Some);
                assert(buf@ == all[i as int].unwrap()@);
                if !node::node_fits(buf.as_slice()) {
                    return Err(ReadError::Malformed { logical });
                }
                Ok(
                    ReadNodeResult {
                        node: Some(Node::parse(buf)),
                        all_mirrors_failed: false,
                        generation_mismatch,
                        mirror_mismatch,
                    },
                )
            },
            None => {
                if !corrupt {
                    assert forall|i: int| 0 <= i < kinds.len() implies #[trigger] kinds[i]
                        == CopyKind::Unread by {
                        assert(kinds[i] != CopyKind::Good);
                    }
                    return Err(ReadError::NoCopy { logical });
                }
                Ok(
                    ReadNodeResult {
                        node: None,
                        all_mirrors_failed: true,
                        generation_mismatch,
                        mirror_mismatch,
                    },
                )
            },
        }
    }

    /// Some mirror copy of the node lies outside the address space.
    pub open spec fn copy_out_of_range(&self, chunk_map: ChunkMap, logical: u64) -> bool {
        exists|i: int, k: int|
            chunk_map.found(logical, i) && 0 <= k < chunk_map@[i].stripes@.len()
                && self.base_offset + #[trigger] chunk_map@[i].copies(logical)[k].1 > u64::MAX
    }

    /// `r` is what reading a node off the backing store gives: every mirror copy
    /// is read where it lies, and the copies are judged together.
    pub open spec fn node_read<P: Fn(u64, usize) -> Option<Vec<u8>>>(
        &self,
        chunk_map: ChunkMap,
        pread: P,
        logical: u64,
        expected_generation: u64,
        expected_level: Option<u8>,
        expected_owner: Option<u64>,
        r: Result<ReadNodeResult, ReadError>,
    ) -> bool {
        ||| r == Err::<ReadNodeResult, ReadError>(ReadError::PositionOverflow)
            && self.copy_out_of_range(chunk_map, logical)
        ||| exists|positions: Seq<u64>, copies: Seq<Option<Vec<u8>>>|
            {
                &&& #[trigger] copies_read(pread, self.node_size, positions, copies)
                &&& self.copy_offsets(chunk_map, logical, positions)
                &&& self.judged(
                    copies,
                    logical,
                    expected_generation,
                    expected_level,
                    expected_owner,
                    r,
                )
            }
    }

    /// Reads a node off the backing store. Returns also how many mirror copies
    /// were read.
    pub fn fetch_node<P: Fn(u64, usize) -> Option<Vec<u8>>>(
        &self,
        chunk_map: &ChunkMap,
        pread: &P,
        logical: u64,
        expected_generation: u64,
        expected_level: Option<u8>,
        expected_owner: Option<u64>,
    ) -> (r: (Result<ReadNodeResult, ReadError>, usize))
        requires
            self.wf(),
            self.strategy is Some,
            chunk_map.wf(),
            store_ready(*pread, self.node_size),
        ensures
            self.node_read(
                *chunk_map,
                *pread,
                logical,
                expected_generation,
                expected_level,
                expected_owner,
                r.0,
            ),
            forall|i: int| #[trigger]
                chunk_map.found(logical, i) && r.0 != Err::<ReadNodeResult, ReadError>(
                    ReadError::PositionOverflow,
                ) ==> r.1 == chunk_map@[i].stripes@.len(),
            chunk_map.unmapped(logical) ==> r.1 == 1,
    {
        let positions = match self.node_positions(chunk_map, logical) {
            Ok(p) => p,
            Err(e) => {
                return (Err(e), 0);
            },
        };
        let n: usize = positions.len();
        let mut copies: Vec<Option<Vec<u8>>> = Vec::new();
        let mut k: usize = 0;
        while k < n
            invariant
                k <= n,
                n == positions@.len(),
                copies@.len() == k,
                store_ready(*pread, self.node_size),
                forall|j: int|
                    0 <= j < k ==> call_ensures(
                        *pread,
                        (positions@[j], self.node_size),
                        #[trigger] copies@[j],
                    ),
            decreases n - k,
        {
            let copy = pread(positions[k], self.node_size);
            copies.push(copy);
            k = k + 1;
        }
        assert(copies_read(*pread, self.node_size, positions@, copies@));
        let r = self.read_node(
            copies,
            logical,
            expected_generation,
            expected_level,
            expected_owner,
        );
        (r, n)
    }

    /// Takes an unverified node as read off its first stripe; for readers
    /// without a checksum strategy.
    pub fn read_node_unverified(&self, buf: Vec<u8>, logical: u64) -> (r: Result<
        ReadNodeResult,
        ReadError,
    >)
        requires
            self.strategy is None,
        ensures
            r is Ok <==> node::node_in_bounds(buf@),
            r matches Ok(res) ==> {
                &&& res.node is Some
                &&& node::node_of(res.node.unwrap(), buf@)
                &&& !res.all_mirrors_failed
                &&& !res.generation_mismatch
                &&& !res.mirror_mismatch
            },
            r matches Err(e) ==> e == (ReadError::Malformed { logical }),
    {
        if !node::node_fits(buf.as_slice()) {
            return Err(ReadError::Malformed { logical });
        }
        Ok(
            ReadNodeResult {
                node: Some(Node::parse(buf)),
                all_mirrors_failed: false,
                generation_mismatch: false,
                mirror_mismatch: false,
            },
        )
    }
}

/// The header stored in `buf` is the expected one.
pub open spec fn header_bytes_expected(
    reader: FsReader,
    buf: Seq<u8>,
    logical: u64,
    expected_generation: u64,
    expected_level: Option<u8>,
    expected_owner: Option<u64>,
) -> bool {
    &&& crate::btrfs::util::le64(buf, 48) == logical
    &&& reader.fsid matches Some(fsid) ==> buf.subrange(32, 48) == fsid@
    &&& expected_level matches Some(lvl) ==> buf[100] == lvl
    &&& expected_owner matches Some(owner) ==> crate::btrfs::util::le64(buf, 88) == owner
    &&& expected_generation != GEN_DONT_CHECK ==> crate::btrfs::util::le64(buf, 80)
        == expected_generation
}

/// A physical read: its position, and the range to hint ahead of it.
#[derive(Debug, Clone, Copy, PartialEq, Eq, Structural)]
pub struct PhysicalRead {
    pub position: u64,
    pub ahead_position: u64,
    pub ahead_len: u64,
}

/// The value, or the largest representable one.
pub open spec fn saturate(v: int) -> u64 {
    if v > u64::MAX { u64::MAX } else { v as u64 }
}

/// A node that is handed out is the expected one, whatever the copies hold: its
/// header names the address, filesystem, level, owner and generation asked for,
/// unless the result says that only stale copies were left.
pub proof fn law_node_is_the_expected_one(
    reader: FsReader,
    copies: Seq<Option<Vec<u8>>>,
    logical: u64,
    expected_generation: u64,
    expected_level: Option<u8>,
    expected_owner: Option<u64>,
    i: int,
)
    requires
        reader.strategy is Some,
        chosen(
            reader.copy_kinds(
                copies,
                logical,
                expected_generation,
                expected_level,
                expected_owner,
            ),
            i,
        ),
        !none_of(
            reader.copy_kinds(
                copies,
                logical,
                expected_generation,
                expected_level,
                expected_owner,
            ),
            CopyKind::Good,
        ),
    ensures
        csum_strategy::header_verifies(reader.strategy.unwrap().csum_type, copies[i].unwrap()@),
        header_bytes_expected(
            reader,
            copies[i].unwrap()@,
            logical,
            expected_generation,
            expected_level,
            expected_owner,
        ),
{
}

} // verus!
