//! The btrfs side of a scrub run: the opened filesystem with its extents and
//! checksum walker, the log line and recovery event of each finding, and the
//! rollup at the end.

use vstd::prelude::*;
use vstd::slice::slice_to_vec;

use crate::btrfs::chunk::ChunkMap;
use crate::btrfs::csum::LazyCsumProvider;
use crate::btrfs::csum_strategy::CsumStrategy;
use crate::btrfs::dev_extent;
use crate::btrfs::dev_extent::{DevExtent, DevExtentError};
use crate::btrfs::extent;
use crate::btrfs::open;
use crate::btrfs::open::{BtrfsContext, LiveRead, OpenError};
use crate::btrfs::reader;
use crate::btrfs::reader::FsReader;
use crate::btrfs::scrub;
use crate::btrfs::scrub::SectorResult;
use crate::btrfs::superblock;
use crate::btrfs::superblock::Superblock;
use crate::btrfs::tree::WalkCounts;
use crate::btrfs::util;
use crate::btrfs::walk;
use crate::btrfs::walk::WalkTell;
use crate::fs::{Reconfirm, ReconfirmRequest, ScrubEvent, ScrubStats, SectorVerifier};
use crate::status::{MetadataKind, StatusCounters};
use crate::text;

verus! {

/// A single-device btrfs scrub over one backing file.
pub struct BtrfsScrub {
    pub reader: FsReader,
    pub chunk_map: ChunkMap,
    /// Lazy CSUM_TREE walker feeding per-extent checksum streams.
    pub csum_provider: LazyCsumProvider,
    /// This device's physical extents, from the DEV_TREE.
    pub dev_extents: Vec<DevExtent>,
    pub strategy: CsumStrategy,
    pub superblock: Superblock,
    /// Open-time metadata failures; the csum walker adds its own at run time.
    pub counts: WalkCounts,
    /// Root of the DEV_TREE; `None` where it could not be resolved.
    pub dev_tree_root: Option<u64>,
    pub dev: String,
}

/// Fits in a counter.
pub open spec fn fits(v: int) -> bool {
    0 <= v <= u64::MAX
}

impl BtrfsScrub {
    /// The scrub is that of the opened filesystem, with nothing walked yet.
    pub open spec fn of_context(&self, ctx: BtrfsContext, dev: Seq<char>) -> bool {
        &&& self.reader == ctx.reader
        &&& self.chunk_map == ctx.chunk_map
        &&& self.strategy == ctx.strategy
        &&& self.superblock == ctx.superblock
        &&& self.dev@ == dev
        &&& self.dev_tree_root == ctx.roots.dev_tree_root
        &&& self.csum_provider.strategy() == ctx.strategy
        &&& self.csum_provider.node_size() == ctx.superblock.node_size as usize
        &&& self.csum_provider.csum_root() == ctx.roots.csum_root
        &&& self.csum_provider.header_nodes() == Set::<u64>::empty()
        &&& self.csum_provider.mirror_nodes() == Set::<u64>::empty()
        &&& self.csum_provider.read_nodes() == Set::<u64>::empty()
        &&& self.csum_provider.stale_nodes() == Set::<u64>::empty()
    }

    /// What preparing the scrub comes to. The device's extents are those that
    /// the walk of its DEV_TREE gives. Without that tree's root there is nothing
    /// to scrub, which counts as a header error.
    pub open spec fn prepared<P: Fn(u64, usize) -> Option<Vec<u8>>, T: Fn(WalkTell)>(
        ctx: BtrfsContext,
        dev: Seq<char>,
        pread: P,
        tell: T,
        r: Result<BtrfsScrub, DevExtentError>,
    ) -> bool {
        match ctx.roots.dev_tree_root {
            None => match r {
                Ok(scrub) => {
                    &&& scrub.of_context(ctx, dev)
                    &&& scrub.dev_extents@.len() == 0
                    &&& ctx.metadata_header_errors < u64::MAX
                    &&& scrub.counts == (WalkCounts {
                        header_errors: (ctx.metadata_header_errors + 1) as u64,
                        ..ctx.counts()
                    })
                },
                Err(e) => e == DevExtentError::TooManyFailures && ctx.metadata_header_errors
                    == u64::MAX,
            },
            Some(root) => exists|counts: WalkCounts, walked: Result<Vec<DevExtent>, DevExtentError>|
                {
                    &&& #[trigger] dev_extent::extents_read(
                        ctx.reader,
                        ctx.chunk_map,
                        pread,
                        tell,
                        root,
                        ctx.superblock.devid,
                        ctx.counts(),
                        counts,
                        walked,
                    )
                    &&& match walked {
                        Ok(extents) => r matches Ok(scrub) && scrub.of_context(ctx, dev)
                            && scrub.dev_extents == extents && scrub.counts == counts,
                        Err(e) => r == Err::<BtrfsScrub, DevExtentError>(e),
                    }
                },
        }
    }

    /// Prepares the scrub of an opened filesystem: walks the DEV_TREE over the
    /// store for this device's extents. Without its root the run reports a
    /// metadata failure instead of silently skipping.
    pub fn open<P: Fn(u64, usize) -> Option<Vec<u8>>, T: Fn(WalkTell)>(
        ctx: BtrfsContext,
        dev: String,
        pread: &P,
        tell: &T,
    ) -> (r: Result<Self, DevExtentError>)
        requires
            ctx.wf(),
            reader::store_ready(*pread, ctx.reader.node_size),
            walk::tells(*tell),
        ensures
            Self::prepared(ctx, dev@, *pread, *tell, r),
    {
        let csum_provider = LazyCsumProvider::new(
            ctx.superblock.node_size as usize,
            ctx.strategy,
            ctx.roots.csum_root,
        );
        let mut counts = WalkCounts {
            header_errors: ctx.metadata_header_errors,
            mirror_mismatches: ctx.metadata_mirror_mismatches,
            read_errors: ctx.metadata_read_errors,
        };
        let dev_extents: Vec<DevExtent> = match ctx.roots.dev_tree_root {
            Some(root) => {
                let walked = dev_extent::build_dev_extents(
                    &ctx.reader,
                    &ctx.chunk_map,
                    pread,
                    tell,
                    root,
                    ctx.superblock.devid,
                    &mut counts,
                );
                assert(dev_extent::extents_read(
                    ctx.reader,
                    ctx.chunk_map,
                    *pread,
                    *tell,
                    root,
                    ctx.superblock.devid,
                    ctx.counts(),
                    counts,
                    walked,
                ));
                match walked {
                    Ok(extents) => extents,
                    Err(e) => {
                        return Err(e);
                    },
                }
            },
            None => {
                if counts.header_errors == u64::MAX {
                    return Err(DevExtentError::TooManyFailures);
                }
                counts.header_errors = counts.header_errors + 1;
                Vec::new()
            },
        };
        Ok(
            BtrfsScrub {
                reader: ctx.reader,
                chunk_map: ctx.chunk_map,
                csum_provider,
                dev_extents,
                strategy: ctx.strategy,
                superblock: ctx.superblock,
                counts,
                dev_tree_root: ctx.roots.dev_tree_root,
                dev,
            },
        )
    }

    /// The metadata failures of opening and scrubbing together fit in counters.
    pub open spec fn totals_fit(&self) -> bool {
        &&& fits(self.counts.header_errors + self.csum_provider.header_nodes().len())
        &&& fits(self.counts.mirror_mismatches + self.csum_provider.mirror_nodes().len())
        &&& fits(self.counts.read_errors + self.csum_provider.read_nodes().len())
    }

    /// Whether the metadata failures of opening and scrubbing together fit in
    /// counters.
    pub fn has_totals(&self) -> (r: bool)
        ensures
            r == self.totals_fit(),
    {
        u64::MAX - self.counts.header_errors >= self.csum_provider.metadata_errors() && u64::MAX
            - self.counts.mirror_mismatches >= self.csum_provider.mirror_mismatches() && u64::MAX
            - self.counts.read_errors >= self.csum_provider.metadata_read_errors()
    }

    /// Whether the bytes to be scrubbed, too, fit in a counter.
    pub fn has_status(&self) -> (r: bool)
        requires
            self.chunk_map.wf(),
        ensures
            r == (self.totals_fit() && fits(
                scrub::data_bytes(self.chunk_map, self.dev_extents@),
            )),
    {
        proof {
            scrub::lemma_data_bytes_grow(self.chunk_map, self.dev_extents@, 0);
            assert(self.dev_extents@.take(0) =~= Seq::empty());
        }
        self.has_totals() && scrub::checked_progress_total(
            &self.chunk_map,
            &self.dev_extents,
        ).is_some()
    }

    /// Seeds the progress and metadata totals of the status page.
    pub fn set_status(&self, counters: &mut StatusCounters)
        requires
            self.chunk_map.wf(),
            fits(scrub::data_bytes(self.chunk_map, self.dev_extents@)),
            fits(self.counts.header_errors + self.csum_provider.header_nodes().len()),
            fits(self.counts.read_errors + self.csum_provider.read_nodes().len()),
        ensures
            *final(counters) == (StatusCounters {
                progress_total: scrub::data_bytes(self.chunk_map, self.dev_extents@) as u64,
                metadata_header_errors: (self.counts.header_errors
                    + self.csum_provider.header_nodes().len()) as u64,
                metadata_mirror_mismatches: self.counts.mirror_mismatches,
                metadata_read_errors: (self.counts.read_errors
                    + self.csum_provider.read_nodes().len()) as u64,
                ..*old(counters)
            }),
    {
        counters.progress_total = scrub::progress_total(&self.chunk_map, &self.dev_extents);
        counters.metadata_header_errors = self.counts.header_errors
            + self.csum_provider.metadata_errors();
        counters.metadata_mirror_mismatches = self.counts.mirror_mismatches;
        counters.metadata_read_errors = self.counts.read_errors
            + self.csum_provider.metadata_read_errors();
    }

    /// The summary of a run: its sector counts, and all metadata failures of
    /// opening and scrubbing together.
    pub fn rollup(&self, local: &scrub::ScrubStats) -> (r: ScrubStats)
        requires
            self.totals_fit(),
        ensures
            r == (ScrubStats {
                sectors_checked: local.sectors_checked,
                sectors_ok: local.sectors_ok,
                sectors_mismatch: local.sectors_mismatch,
                sectors_no_csum: local.sectors_no_csum,
                sectors_read_error: local.sectors_read_error,
                sectors_stale: local.sectors_stale,
                stale_csum_branches: self.csum_provider.stale_nodes().len() as u64,
                isolation_truncated: local.isolation_truncated,
                bytes_checked: local.bytes_checked,
                metadata_header_errors: (self.counts.header_errors
                    + self.csum_provider.header_nodes().len()) as u64,
                metadata_mirror_mismatches: (self.counts.mirror_mismatches
                    + self.csum_provider.mirror_nodes().len()) as u64,
                metadata_read_errors: (self.counts.read_errors
                    + self.csum_provider.read_nodes().len()) as u64,
            }),
    {
        ScrubStats {
            sectors_checked: local.sectors_checked,
            sectors_ok: local.sectors_ok,
            sectors_mismatch: local.sectors_mismatch,
            sectors_no_csum: local.sectors_no_csum,
            sectors_read_error: local.sectors_read_error,
            sectors_stale: local.sectors_stale,
            stale_csum_branches: self.csum_provider.stale_branches(),
            isolation_truncated: local.isolation_truncated,
            bytes_checked: local.bytes_checked,
            metadata_header_errors: self.counts.header_errors
                + self.csum_provider.metadata_errors(),
            metadata_mirror_mismatches: self.counts.mirror_mismatches
                + self.csum_provider.mirror_mismatches(),
            metadata_read_errors: self.counts.read_errors
                + self.csum_provider.metadata_read_errors(),
        }
    }

    /// Sectors that the device's extents hold together.
    pub open spec fn csum_sectors_upto(&self, k: int) -> int
        decreases k,
    {
        if k <= 0 {
            0
        } else {
            self.csum_sectors_upto(k - 1) + self.dev_extents@[k - 1].length as int
                / self.strategy.sector_size as int
        }
    }

    /// Sectors that the device's extents hold together, for the description.
    pub fn csum_sectors(&self) -> (r: Option<u64>)
        requires
            self.strategy.wf(),
        ensures
            r is Some ==> r.unwrap() == self.csum_sectors_upto(self.dev_extents@.len() as int),
            r is None ==> self.csum_sectors_upto(self.dev_extents@.len() as int) > u64::MAX,
    {
        let n: usize = self.dev_extents.len();
        let mut total: u64 = 0;
        let mut i: usize = 0;
        while i < n
            invariant
                i <= n,
                n == self.dev_extents@.len(),
                self.strategy.wf(),
                total == self.csum_sectors_upto(i as int),
            decreases n - i,
        {
            let add: u64 = self.dev_extents[i].length / self.strategy.sector_size;
            match total.checked_add(add) {
                Some(t) => {
                    total = t;
                },
                None => {
                    proof {
                        self.lemma_csum_sectors_grow(n as int, i + 1);
                    }
                    return None;
                },
            }
            i = i + 1;
        }
        Some(total)
    }

    /// The lines that describe the filesystem and what is to be scrubbed.
    pub open spec fn description(&self) -> Seq<Seq<char>> {
        let sb = self.superblock;
        let base = self.reader.base_offset as nat;
        let sectors = self.csum_sectors_upto(self.dev_extents@.len() as int);
        seq![
            "device        : "@ + self.dev@,
            "base offset   : 0x"@ + text::hexadecimal(base) + " ("@ + text::decimal(base) + ")"@,
            "magic         : ["@ + listed(sb.magic@, 8) + "]"@,
            "fsid          : "@ + util::hex_of(sb.fsid@),
            "bytenr        : 0x"@ + text::hexadecimal(sb.bytenr as nat),
            "generation   : "@ + text::decimal(sb.generation as nat),
            "root          : 0x"@ + text::hexadecimal(sb.root as nat),
            "chunk_root    : 0x"@ + text::hexadecimal(sb.chunk_root as nat),
            "total_bytes   : "@ + text::decimal(sb.total_bytes as nat),
            "bytes_used    : "@ + text::decimal(sb.bytes_used as nat),
            "num_devices   : "@ + text::decimal(sb.num_devices as nat),
            "sector_size   : "@ + text::decimal(sb.sector_size as nat),
            "node_size     : "@ + text::decimal(sb.node_size as nat),
            "stripesize    : "@ + text::decimal(sb.stripesize as nat),
            "csum_type     : "@ + text::decimal(sb.csum_type as nat) + " ("@ + self.strategy.name@
                + ")"@,
            "csum sectors  : "@ + text::decimal(sectors as nat) + " ("@ + text::decimal(
                (sectors * self.strategy.sector_size) as nat,
            ) + " bytes)"@,
            "dev extents   : "@ + text::decimal(self.dev_extents@.len()),
        ]
    }

    /// Describes the filesystem and what is to be scrubbed, one line each.
    /// `None` where the bytes of all sectors do not fit in a counter.
    pub fn describe(&self) -> (r: Option<Vec<String>>)
        requires
            self.strategy.wf(),
        ensures
            r is Some <==> fits(
                self.csum_sectors_upto(self.dev_extents@.len() as int) * self.strategy.sector_size,
            ),
            r matches Some(lines) ==> {
                &&& lines@.len() == self.description().len()
                &&& forall|i: int|
                    0 <= i < lines@.len() ==> (#[trigger] lines@[i])@ == self.description()[i]
            },
    {
        let size: u64 = self.strategy.sector_size;
        proof {
            let n = self.dev_extents@.len() as int;
            self.lemma_csum_sectors_grow(n, 0);
            let k = self.csum_sectors_upto(n);
            assert(k > u64::MAX ==> k * size > u64::MAX) by (nonlinear_arith)
                requires
                    size > 0,
            ;
            assert(k * size >= 0) by (nonlinear_arith)
                requires
                    k >= 0,
                    size > 0,
            ;
        }
        let sectors: u64 = match self.csum_sectors() {
            Some(v) => v,
            None => {
                return None;
            },
        };
        let total: u64 = match sectors.checked_mul(size) {
            Some(v) => v,
            None => {
                return None;
            },
        };
        let sb = &self.superblock;
        let base: u64 = self.reader.base_offset;
        let mut device = String::from_str("device        : ");
        device.append(self.dev.as_str());
        let mut base_line = hex_line("base offset   : 0x", base);
        base_line.append(" (");
        text::push_decimal(&mut base_line, base);
        base_line.append(")");
        let mut magic = String::from_str("magic         : [");
        push_list(&mut magic, sb.magic.as_slice());
        magic.append("]");
        let mut fsid = String::from_str("fsid          : ");
        fsid.append(util::hex(sb.fsid.as_slice()).as_str());
        let mut csum_type = decimal_line("csum_type     : ", sb.csum_type as u64);
        csum_type.append(" (");
        csum_type.append(self.strategy.name);
        csum_type.append(")");
        let mut csum_sectors = decimal_line("csum sectors  : ", sectors);
        csum_sectors.append(" (");
        text::push_decimal(&mut csum_sectors, total);
        csum_sectors.append(" bytes)");
        let mut lines: Vec<String> = Vec::new();
        lines.push(device);
        lines.push(base_line);
        lines.push(magic);
        lines.push(fsid);
        lines.push(hex_line("bytenr        : 0x", sb.bytenr));
        lines.push(decimal_line("generation   : ", sb.generation));
        lines.push(hex_line("root          : 0x", sb.root));
        lines.push(hex_line("chunk_root    : 0x", sb.chunk_root));
        lines.push(decimal_line("total_bytes   : ", sb.total_bytes));
        lines.push(decimal_line("bytes_used    : ", sb.bytes_used));
        lines.push(decimal_line("num_devices   : ", sb.num_devices));
        lines.push(decimal_line("sector_size   : ", sb.sector_size as u64));
        lines.push(decimal_line("node_size     : ", sb.node_size as u64));
        lines.push(decimal_line("stripesize    : ", sb.stripesize as u64));
        lines.push(csum_type);
        lines.push(csum_sectors);
        lines.push(decimal_line("dev extents   : ", self.dev_extents.len() as u64));
        Some(lines)
    }

    proof fn lemma_csum_sectors_grow(&self, n: int, k: int)
        requires
            self.strategy.wf(),
            0 <= k <= n <= self.dev_extents@.len(),
        ensures
            self.csum_sectors_upto(k) <= self.csum_sectors_upto(n),
        decreases n,
    {
        if k < n {
            self.lemma_csum_sectors_grow(n - 1, k);
            let len = self.dev_extents@[n - 1].length as int;
            let sz = self.strategy.sector_size as int;
            assert(len / sz >= 0) by (nonlinear_arith)
                requires
                    len >= 0,
                    sz > 0,
            ;
        }
    }

    /// Byte offset of the primary superblock within the partition (for the
    /// parity canary).
    pub fn superblock_offset(&self) -> (r: u64)
        ensures
            r == superblock::SUPERBLOCK_OFFSET,
    {
        superblock::SUPERBLOCK_OFFSET
    }

    /// Whether a raw block carries the btrfs magic (canary recognition).
    pub fn block_has_magic(&self, block: &[u8]) -> (r: bool)
        ensures
            r == (block@.len() >= 72 && superblock::magic_ok(block@)),
    {
        superblock::has_magic_at(block, superblock::OFF_MAGIC)
    }
}

/// The first `k` bytes in decimal, separated by commas.
pub open spec fn listed(bytes: Seq<u8>, k: int) -> Seq<char>
    decreases k,
{
    if k <= 0 {
        Seq::empty()
    } else if k == 1 {
        text::decimal(bytes[0] as nat)
    } else {
        listed(bytes, k - 1) + ", "@ + text::decimal(bytes[k - 1] as nat)
    }
}

/// Appends the bytes in decimal, separated by commas.
fn push_list(s: &mut String, bytes: &[u8])
    ensures
        final(s)@ == old(s)@ + listed(bytes@, bytes@.len() as int),
{
    let n: usize = bytes.len();
    let mut i: usize = 0;
    assert(s@ =~= old(s)@ + listed(bytes@, 0));
    while i < n
        invariant
            i <= n,
            n == bytes@.len(),
            s@ == old(s)@ + listed(bytes@, i as int),
        decreases n - i,
    {
        if i > 0 {
            s.append(", ");
        }
        text::push_decimal(s, bytes[i] as u64);
        assert(s@ =~= old(s)@ + listed(bytes@, i + 1));
        i = i + 1;
    }
}

/// A label and a number.
fn decimal_line(label: &str, v: u64) -> (s: String)
    ensures
        s@ == label@ + text::decimal(v as nat),
{
    let mut s = String::from_str(label);
    text::push_decimal(&mut s, v);
    s
}

/// A label and a number in hexadecimal.
fn hex_line(label: &str, v: u64) -> (s: String)
    ensures
        s@ == label@ + text::hexadecimal(v as nat),
{
    let mut s = String::from_str(label);
    text::push_digits(&mut s, v, 16);
    s
}

/// The text of a finding's checksums.
pub open spec fn csum_tag(r: SectorResult) -> Seq<char> {
    match r.stored_csum {
        None => "actual=0x"@ + util::hex_of(r.actual_csum@) + " (no stored csum)"@,
        Some(stored) => "stored=0x"@ + util::hex_of(stored@) + " actual=0x"@ + util::hex_of(
            r.actual_csum@,
        ),
    }
}

/// The log line of a finding.
pub open spec fn mismatch_text(r: SectorResult) -> Seq<char> {
    "  MISMATCH logical=0x"@ + text::hexadecimal(r.logical as nat) + " devid="@ + text::decimal(
        r.devid as nat,
    ) + " array_phys=0x"@ + text::hexadecimal(r.array_phys as nat) + " ino="@ + text::decimal(
        r.inode as nat,
    ) + " off=0x"@ + text::hexadecimal(r.file_offset as nat) + " "@ + csum_tag(r)
}

/// The log line of a finding.
pub fn mismatch_line(r: &SectorResult) -> (s: String)
    ensures
        s@ == mismatch_text(*r),
{
    let mut s = String::from_str("  MISMATCH logical=0x");
    text::push_digits(&mut s, r.logical, 16);
    s.append(" devid=");
    text::push_decimal(&mut s, r.devid);
    s.append(" array_phys=0x");
    text::push_digits(&mut s, r.array_phys, 16);
    s.append(" ino=");
    text::push_decimal(&mut s, r.inode);
    s.append(" off=0x");
    text::push_digits(&mut s, r.file_offset, 16);
    s.append(" ");
    let mut tag = String::new();
    match &r.stored_csum {
        None => {
            tag.append("actual=0x");
            tag.append(util::hex(r.actual_csum.as_slice()).as_str());
            tag.append(" (no stored csum)");
            assert(tag@ =~= csum_tag(*r));
        },
        Some(stored) => {
            tag.append("stored=0x");
            tag.append(util::hex(stored.as_slice()).as_str());
            tag.append(" actual=0x");
            tag.append(util::hex(r.actual_csum.as_slice()).as_str());
            assert(tag@ =~= csum_tag(*r));
        },
    }
    s.append(tag.as_str());
    s
}

/// The recovery event of a finding. Without a stored checksum there is nothing
/// to verify or re-confirm.
pub fn event_of(r: &SectorResult, strategy: &CsumStrategy) -> (ev: ScrubEvent)
    requires
        strategy.sector_size <= usize::MAX,
    ensures
        ev.array_phys == r.array_phys,
        ev.block_size == strategy.sector_size,
        ev.unreadable == r.unreadable,
        ev.verify is Some <==> r.stored_csum is Some,
        ev.reconfirm is Some <==> r.stored_csum is Some,
        ev.verify matches Some(v) ==> v.strategy == *strategy && v.stored@
            == r.stored_csum.unwrap()@,
        ev.reconfirm matches Some(q) ==> q.token == r.logical && q.stored_csum@
            == r.stored_csum.unwrap()@,
{
    let (verify, reconfirm) = match &r.stored_csum {
        None => (None, None),
        Some(stored) => (
            Some(SectorVerifier { strategy: *strategy, stored: slice_to_vec(stored.as_slice()) }),
            Some(
                ReconfirmRequest {
                    token: r.logical,
                    stored_csum: slice_to_vec(stored.as_slice()),
                },
            ),
        ),
    };
    ScrubEvent {
        array_phys: r.array_phys,
        block_size: strategy.sector_size as usize,
        verify,
        reconfirm,
        unreadable: r.unreadable,
    }
}

/// Re-confirms mismatched sectors against live metadata at write time.
#[derive(Debug)]
pub struct BtrfsReconfirmer {
    pub strategy: CsumStrategy,
    /// (superblock generation, extent root, csum root); reused while the
    /// generation still matches.
    pub cached_roots: Option<(u64, u64, u64)>,
}

impl BtrfsReconfirmer {
    pub fn new(strategy: CsumStrategy) -> (r: Self)
        ensures
            r.strategy == strategy,
            r.cached_roots is None,
    {
        BtrfsReconfirmer { strategy, cached_roots: None }
    }

    /// The roots known for a superblock generation; `None` where they must be
    /// resolved again.
    pub fn roots_at(&self, generation: u64) -> (r: Option<(u64, u64)>)
        ensures
            r == roots_cached(self.cached_roots, generation),
    {
        cached_roots_at(self.cached_roots, generation)
    }

    /// Remembers the roots that were resolved for a generation.
    pub fn remember(&mut self, generation: u64, roots: (u64, u64))
        ensures
            final(self).strategy == old(self).strategy,
            final(self).cached_roots == Some((generation, roots.0, roots.1)),
    {
        self.cached_roots = Some((generation, roots.0, roots.1));
    }

    /// `r` is the verdict on one sector under the live roots, or the error for
    /// metadata that contradicts itself.
    pub open spec fn verdict_under<P: Fn(u64, usize) -> Option<Vec<u8>>>(
        &self,
        reader: FsReader,
        chunk_map: ChunkMap,
        pread: P,
        roots: (u64, u64),
        req: ReconfirmRequest,
        counted: Seq<MetadataKind>,
        r: Result<LiveVerdict, LiveError>,
    ) -> bool {
        exists|verdict: Option<Reconfirm>|
            {
                &&& #[trigger] extent::rechecked(
                    reader,
                    chunk_map,
                    pread,
                    roots.0,
                    roots.1,
                    req.token,
                    req.stored_csum@,
                    self.strategy.hash_len,
                    self.strategy.sector_size,
                    verdict,
                )
                &&& match verdict {
                    Some(v) => r matches Ok(live) && live.verdict == v && live.counted@ == counted,
                    None => r == Err::<LiveVerdict, LiveError>(LiveError::Contradiction),
                }
            }
    }

    /// What re-checking one sector comes to. Without a live superblock or live
    /// roots it cannot be verified. The roots are looked up again only when the
    /// superblock's generation has moved on.
    pub open spec fn reconfirmed<P: Fn(u64, usize) -> Option<Vec<u8>>, T: Fn(WalkTell)>(
        &self,
        reader: FsReader,
        chunk_map: ChunkMap,
        pread: P,
        tell: T,
        superblock: Option<&Superblock>,
        req: ReconfirmRequest,
        after: BtrfsReconfirmer,
        r: Result<LiveVerdict, LiveError>,
    ) -> bool {
        match superblock {
            None => {
                &&& after == *self
                &&& r matches Ok(live) && live.verdict == Reconfirm::Unverifiable && live.counted@
                    == seq![MetadataKind::ReadError]
            },
            Some(sb) => match roots_cached(self.cached_roots, sb.generation) {
                Some(roots) => {
                    &&& after == *self
                    &&& self.verdict_under(
                        reader,
                        chunk_map,
                        pread,
                        roots,
                        req,
                        Seq::empty(),
                        r,
                    )
                },
                None => exists|found: Result<LiveRead, OpenError>|
                    {
                        &&& #[trigger] open::live_resolved(
                            reader,
                            chunk_map,
                            pread,
                            tell,
                            sb.root,
                            found,
                        )
                        &&& match found {
                            Err(e) => after == *self && r == Err::<LiveVerdict, LiveError>(
                                LiveError::Roots(e),
                            ),
                            Ok(read) => match read.roots {
                                None => {
                                    &&& after == *self
                                    &&& r matches Ok(live) && live.verdict
                                        == Reconfirm::Unverifiable && live.counted == read.counted
                                },
                                Some(roots) => {
                                    &&& after.strategy == self.strategy
                                    &&& after.cached_roots == Some(
                                        (sb.generation, roots.0, roots.1),
                                    )
                                    &&& self.verdict_under(
                                        reader,
                                        chunk_map,
                                        pread,
                                        roots,
                                        req,
                                        read.counted@,
                                        r,
                                    )
                                },
                            },
                        }
                    },
            },
        }
    }

    /// Re-checks one sector against live metadata: resolves the live roots under
    /// the live superblock, and compares the live checksum with the stored one.
    pub fn reconfirm<P: Fn(u64, usize) -> Option<Vec<u8>>, T: Fn(WalkTell)>(
        &mut self,
        reader: &FsReader,
        chunk_map: &ChunkMap,
        pread: &P,
        tell: &T,
        superblock: Option<&Superblock>,
        req: &ReconfirmRequest,
    ) -> (r: Result<LiveVerdict, LiveError>)
        requires
            old(self).strategy.wf(),
            walk::store_set(*reader, *chunk_map, *pread),
            walk::tells(*tell),
        ensures
            old(self).reconfirmed(
                *reader,
                *chunk_map,
                *pread,
                *tell,
                superblock,
                *req,
                *final(self),
                r,
            ),
    {
        let mut counted: Vec<MetadataKind> = Vec::new();
        let sb = match superblock {
            Some(sb) => sb,
            None => {
                counted.push(MetadataKind::ReadError);
                assert(counted@ =~= seq![MetadataKind::ReadError]);
                return Ok(LiveVerdict { verdict: Reconfirm::Unverifiable, counted });
            },
        };
        let roots: (u64, u64) = match self.roots_at(sb.generation) {
            Some(roots) => roots,
            None => {
                let found = open::resolve_live_tree_roots(
                    reader,
                    chunk_map,
                    pread,
                    tell,
                    sb.root,
                );
                assert(open::live_resolved(*reader, *chunk_map, *pread, *tell, sb.root, found));
                match found {
                    Err(e) => {
                        return Err(LiveError::Roots(e));
                    },
                    Ok(read) => {
                        counted = read.counted;
                        match read.roots {
                            Some(roots) => {
                                self.remember(sb.generation, roots);
                                roots
                            },
                            None => {
                                return Ok(
                                    LiveVerdict { verdict: Reconfirm::Unverifiable, counted },
                                );
                            },
                        }
                    },
                }
            },
        };
        let verdict = extent::reconfirm_mismatch(
            reader,
            chunk_map,
            pread,
            roots.0,
            roots.1,
            req.token,
            req.stored_csum.as_slice(),
            self.strategy.hash_len,
            self.strategy.sector_size,
        );
        match verdict {
            Some(verdict) => Ok(LiveVerdict { verdict, counted }),
            None => Err(LiveError::Contradiction),
        }
    }
}

/// A verdict from live metadata, and the metadata failures met on the way, in
/// order.
#[derive(Debug)]
pub struct LiveVerdict {
    pub verdict: Reconfirm,
    pub counted: Vec<MetadataKind>,
}

/// Why live metadata gives no verdict.
#[derive(Debug, Clone, Copy, PartialEq, Eq, Structural)]
pub enum LiveError {
    /// The live root tree cannot be used.
    Roots(OpenError),
    /// A node or an item is larger than what holds it.
    Contradiction,
}

/// What live metadata says of a mismatch while the scrub runs: nothing where the
/// live roots are not found. `counted` are the metadata failures met on the way,
/// in order.
#[derive(Debug)]
pub struct LiveCheck {
    pub verdict: Option<Reconfirm>,
    pub counted: Vec<MetadataKind>,
}

/// `r` is what the live metadata under the superblock says of the sector.
pub open spec fn live_checked<P: Fn(u64, usize) -> Option<Vec<u8>>, T: Fn(WalkTell)>(
    reader: FsReader,
    chunk_map: ChunkMap,
    pread: P,
    tell: T,
    superblock: Option<&Superblock>,
    strategy: CsumStrategy,
    logical: u64,
    stored: Seq<u8>,
    r: Result<LiveCheck, LiveError>,
) -> bool {
    exists|found: Result<LiveRead, OpenError>|
        {
            &&& #[trigger] open::live_roots_read(reader, chunk_map, pread, tell, superblock, found)
            &&& match found {
                Err(e) => r == Err::<LiveCheck, LiveError>(LiveError::Roots(e)),
                Ok(read) => match read.roots {
                    None => r matches Ok(check) && check.verdict is None && check.counted
                        == read.counted,
                    Some(roots) => match r {
                        Ok(check) => check.verdict is Some && check.counted == read.counted
                            && extent::rechecked(
                            reader,
                            chunk_map,
                            pread,
                            roots.0,
                            roots.1,
                            logical,
                            stored,
                            strategy.hash_len,
                            strategy.sector_size,
                            check.verdict,
                        ),
                        Err(e) => e == LiveError::Contradiction && extent::rechecked(
                            reader,
                            chunk_map,
                            pread,
                            roots.0,
                            roots.1,
                            logical,
                            stored,
                            strategy.hash_len,
                            strategy.sector_size,
                            None,
                        ),
                    },
                },
            }
        }
}

/// Re-checks a mismatch against live metadata while the scrub runs, with the
/// live roots resolved anew.
pub fn live_check<P: Fn(u64, usize) -> Option<Vec<u8>>, T: Fn(WalkTell)>(
    reader: &FsReader,
    chunk_map: &ChunkMap,
    pread: &P,
    tell: &T,
    superblock: Option<&Superblock>,
    strategy: &CsumStrategy,
    logical: u64,
    stored: &[u8],
) -> (r: Result<LiveCheck, LiveError>)
    requires
        strategy.wf(),
        walk::store_set(*reader, *chunk_map, *pread),
        walk::tells(*tell),
    ensures
        live_checked(
            *reader,
            *chunk_map,
            *pread,
            *tell,
            superblock,
            *strategy,
            logical,
            stored@,
            r,
        ),
{
    let found = open::live_data_tree_roots(reader, chunk_map, pread, tell, superblock);
    assert(open::live_roots_read(*reader, *chunk_map, *pread, *tell, superblock, found));
    let read = match found {
        Ok(read) => read,
        Err(e) => {
            return Err(LiveError::Roots(e));
        },
    };
    let counted = read.counted;
    match read.roots {
        None => Ok(LiveCheck { verdict: None, counted }),
        Some(roots) => {
            let verdict = extent::reconfirm_mismatch(
                reader,
                chunk_map,
                pread,
                roots.0,
                roots.1,
                logical,
                stored,
                strategy.hash_len,
                strategy.sector_size,
            );
            match verdict {
                Some(verdict) => Ok(LiveCheck { verdict: Some(verdict), counted }),
                None => Err(LiveError::Contradiction),
            }
        },
    }
}

/// The cached roots, if they are of this generation.
pub open spec fn roots_cached(cached: Option<(u64, u64, u64)>, generation: u64) -> Option<
    (u64, u64),
> {
    match cached {
        Some((g, extent_root, csum_root)) => if g == generation {
            Some((extent_root, csum_root))
        } else {
            None
        },
        None => None,
    }
}

/// Returns the cached roots only when the generation still matches.
pub fn cached_roots_at(cached: Option<(u64, u64, u64)>, generation: u64) -> (r: Option<(u64, u64)>)
    ensures
        r == roots_cached(cached, generation),
{
    match cached {
        Some((cached_gen, ext, csum)) => if cached_gen == generation {
            Some((ext, csum))
        } else {
            None
        },
        None => None,
    }
}

} // verus!
