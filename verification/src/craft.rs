//! Crafted corruptions for parity-recovery tests: flips a byte in a chosen
//! sector of a file on the array and rewrites P/Q parity per the requested
//! scenario (data-only, baked parity, two-disk corruption).

use vstd::prelude::*;
use vstd::slice::slice_subrange;

use crate::array::config;
use crate::array::config::ArrayConfig;
use crate::array::parity;
use crate::array::stripe;
use crate::btrfs::chunk;
use crate::btrfs::chunk::{ChunkMap, MapEntry};
use crate::btrfs::extent;
use crate::btrfs::extent::FileExtent;
use crate::btrfs::key::key_type;
use crate::btrfs::node::Leaf;
use crate::btrfs::reader::FsReader;
use crate::btrfs::tree;
use crate::btrfs::tree::{NodeRef, WalkStep};
use crate::btrfs::walk;
use crate::btrfs::walk::{Visit, WalkTell};
use crate::bytes;
use crate::hash;
use crate::recovery::engine;
use crate::recovery::laws;
use crate::text;
use crate::text::IntError;

pub mod restore;

verus! {

/// 4 KiB btrfs sector: the corruption and parity granularity.
pub const BLOCK: usize = 4096;

// ---------------------------------------------------------------------------
// Arguments
// ---------------------------------------------------------------------------

/// Corruption scenario: which blocks are corrupted and whether parity is
/// recomputed from the corrupt data ("baked in").
#[derive(Debug, Clone, Copy, PartialEq, Eq, Structural)]
pub enum Targets {
    /// Data block only; P and Q stay consistent with the original.
    Data,
    /// P recomputed from the corrupt data: P-only recovery cannot succeed.
    BakeP,
    /// Q recomputed from the corrupt data: Q-only recovery cannot succeed.
    BakeQ,
    /// Both P and Q recomputed from the corrupt data.
    BakeBoth,
    /// Data and one partner disk corrupted; P and Q left intact (two-disk
    /// solve).
    TwoDisk,
}

/// The scenario that a text names.
pub open spec fn targets_of(s: Seq<char>) -> Option<Targets> {
    if s == "data"@ {
        Some(Targets::Data)
    } else if s == "bake-p"@ {
        Some(Targets::BakeP)
    } else if s == "bake-q"@ {
        Some(Targets::BakeQ)
    } else if s == "bake-both"@ {
        Some(Targets::BakeBoth)
    } else if s == "two-disk"@ {
        Some(Targets::TwoDisk)
    } else {
        None
    }
}

impl Targets {
    /// Reads a scenario's name.
    pub fn parse(s: &str) -> (r: Result<Targets, String>)
        ensures
            match r {
                Ok(t) => targets_of(s@) == Some(t),
                Err(m) => targets_of(s@) is None && m@ == "unknown --targets value: "@ + s@
                    + " (expected: data, bake-p, bake-q, bake-both, two-disk)"@,
            },
    {
        if text::same_text(s, "data") {
            Ok(Targets::Data)
        } else if text::same_text(s, "bake-p") {
            Ok(Targets::BakeP)
        } else if text::same_text(s, "bake-q") {
            Ok(Targets::BakeQ)
        } else if text::same_text(s, "bake-both") {
            Ok(Targets::BakeBoth)
        } else if text::same_text(s, "two-disk") {
            Ok(Targets::TwoDisk)
        } else {
            let mut m = String::from_str("unknown --targets value: ");
            m.append(s);
            m.append(" (expected: data, bake-p, bake-q, bake-both, two-disk)");
            Err(m)
        }
    }
}

/// What to corrupt, and how.
#[derive(Debug)]
pub struct Opts {
    pub sector: u64,
    pub byte_offset: u64,
    pub flip: u8,
    pub targets: Targets,
    /// Explicit partner slot for `TwoDisk` (default: first other data disk).
    pub partner_slot: Option<u64>,
    pub backup: Option<String>,
    /// When set, restore from this backup instead of corrupting.
    pub restore: Option<String>,
}

/// [`Opts`] as values of the model.
pub ghost struct Choice {
    pub sector: nat,
    pub byte_offset: nat,
    pub flip: u8,
    pub targets: Targets,
    pub partner_slot: Option<u64>,
    pub backup: Option<Seq<char>>,
    pub restore: Option<Seq<char>>,
}

impl Opts {
    pub open spec fn choice(&self) -> Choice {
        Choice {
            sector: self.sector as nat,
            byte_offset: self.byte_offset as nat,
            flip: self.flip,
            targets: self.targets,
            partner_slot: self.partner_slot,
            backup: text::opt_view(self.backup),
            restore: text::opt_view(self.restore),
        }
    }
}

impl Choice {
    /// Where nothing is said: byte 100 of the first sector, flipped by 0x5a,
    /// with P baked in.
    pub open spec fn initial() -> Choice {
        Choice {
            sector: 0,
            byte_offset: 100,
            flip: 0x5A,
            targets: Targets::BakeP,
            partner_slot: None,
            backup: None,
            restore: None,
        }
    }
}

impl Default for Opts {
    fn default() -> (r: Self)
        ensures
            r.choice() == Choice::initial(),
    {
        Opts {
            sector: 0,
            byte_offset: 100,
            flip: 0x5A,
            targets: Targets::BakeP,
            partner_slot: None,
            backup: None,
            restore: None,
        }
    }
}

/// The options that take a value.
#[derive(Debug, Clone, Copy, PartialEq, Eq, Structural)]
pub enum CraftFlag {
    Sector,
    Byte,
    Flip,
    Targets,
    Partner,
    Backup,
    Restore,
}

/// The flag that an argument is.
pub open spec fn flag_of(arg: Seq<char>) -> Option<CraftFlag> {
    if arg == "--sector"@ {
        Some(CraftFlag::Sector)
    } else if arg == "--byte"@ {
        Some(CraftFlag::Byte)
    } else if arg == "--flip"@ {
        Some(CraftFlag::Flip)
    } else if arg == "--targets"@ {
        Some(CraftFlag::Targets)
    } else if arg == "--partner"@ {
        Some(CraftFlag::Partner)
    } else if arg == "--backup"@ {
        Some(CraftFlag::Backup)
    } else if arg == "--restore"@ {
        Some(CraftFlag::Restore)
    } else {
        None
    }
}

fn find_flag(arg: &str) -> (r: Option<CraftFlag>)
    ensures
        r == flag_of(arg@),
{
    if text::same_text(arg, "--sector") {
        Some(CraftFlag::Sector)
    } else if text::same_text(arg, "--byte") {
        Some(CraftFlag::Byte)
    } else if text::same_text(arg, "--flip") {
        Some(CraftFlag::Flip)
    } else if text::same_text(arg, "--targets") {
        Some(CraftFlag::Targets)
    } else if text::same_text(arg, "--partner") {
        Some(CraftFlag::Partner)
    } else if text::same_text(arg, "--backup") {
        Some(CraftFlag::Backup)
    } else if text::same_text(arg, "--restore") {
        Some(CraftFlag::Restore)
    } else {
        None
    }
}

/// A text without any leading `0x`.
pub open spec fn strip_0x(s: Seq<char>) -> Seq<char>
    decreases s.len(),
{
    if s.len() >= 2 && s[0] == '0' && s[1] == 'x' { strip_0x(s.skip(2)) } else { s }
}

/// A flip mask: a hexadecimal number, of which the low byte counts.
pub open spec fn flip_of(s: Seq<char>) -> Result<u8, IntError> {
    match text::parsed(strip_0x(s), 16, u64::MAX as nat) {
        Ok(v) => Ok((v % 256) as u8),
        Err(e) => Err(e),
    }
}

/// Reads a flip mask.
pub fn parse_flip(s: &str) -> (r: Result<u8, IntError>)
    ensures
        r == flip_of(s@),
{
    let chars = text::chars_of(s);
    let n: usize = chars.len();
    let mut from: usize = 0;
    assert(chars@.skip(0) =~= chars@);
    while n - from >= 2 && chars[from] == '0' && chars[from + 1] == 'x'
        invariant
            from <= n,
            n == chars@.len(),
            strip_0x(s@) == strip_0x(chars@.skip(from as int)),
        decreases n - from,
    {
        assert(chars@.skip(from as int).skip(2) =~= chars@.skip(from + 2));
        from = from + 2;
    }
    let rest = slice_subrange(chars.as_slice(), from, n);
    assert(rest@ =~= chars@.skip(from as int));
    match text::parse_uint(rest, 16, u64::MAX) {
        Ok(v) => Ok((v % 256) as u8),
        Err(e) => Err(e),
    }
}

/// What the arguments ask for instead of a corruption, or why they were refused.
#[derive(Debug)]
pub enum ArgError {
    Help,
    Unknown(String),
    Missing(CraftFlag),
    Invalid(CraftFlag),
    BadTargets(String),
    /// Not exactly a device and a file.
    Positional,
}

/// What to work on, and how.
#[derive(Debug)]
pub struct Request {
    pub dev: String,
    pub file_path: String,
    pub opts: Opts,
}

/// What one option with its value sets.
pub open spec fn chosen(c: Choice, f: CraftFlag, value: Seq<char>) -> Option<Choice> {
    match f {
        CraftFlag::Sector => match text::parsed(value, 10, usize::MAX as nat) {
            Ok(v) => Some(Choice { sector: v, ..c }),
            Err(_) => None,
        },
        CraftFlag::Byte => match text::parsed(value, 10, usize::MAX as nat) {
            Ok(v) => Some(Choice { byte_offset: v, ..c }),
            Err(_) => None,
        },
        CraftFlag::Flip => match flip_of(value) {
            Ok(v) => Some(Choice { flip: v, ..c }),
            Err(_) => None,
        },
        CraftFlag::Targets => match targets_of(value) {
            Some(t) => Some(Choice { targets: t, ..c }),
            None => None,
        },
        CraftFlag::Partner => match text::parsed(value, 10, u64::MAX as nat) {
            Ok(v) => Some(Choice { partner_slot: Some(v as u64), ..c }),
            Err(_) => None,
        },
        CraftFlag::Backup => Some(Choice { backup: Some(value), ..c }),
        CraftFlag::Restore => Some(Choice { restore: Some(value), ..c }),
    }
}

/// The argument starts an option.
pub open spec fn is_option(arg: Seq<char>) -> bool {
    arg.len() >= 2 && arg.take(2) == "--"@
}

/// `r` is what the arguments from the `i`-th on come to, starting with `c` and
/// the plain arguments `plain`.
pub open spec fn requests(
    args: Seq<String>,
    i: int,
    c: Choice,
    plain: Seq<Seq<char>>,
    r: Result<Request, ArgError>,
) -> bool
    decreases args.len() - i,
{
    if i >= args.len() {
        if plain.len() == 2 {
            r matches Ok(q) && q.opts.choice() == c && q.dev@ == plain[0] && q.file_path@
                == plain[1]
        } else {
            r matches Err(ArgError::Positional)
        }
    } else {
        let arg = args[i]@;
        match flag_of(arg) {
            Some(f) => if i + 1 >= args.len() {
                r matches Err(ArgError::Missing(g)) && g == f
            } else {
                match chosen(c, f, args[i + 1]@) {
                    Some(next) => requests(args, i + 2, next, plain, r),
                    None => if f is Targets {
                        r matches Err(ArgError::BadTargets(m)) && m@
                            == "unknown --targets value: "@ + args[i + 1]@
                            + " (expected: data, bake-p, bake-q, bake-both, two-disk)"@
                    } else {
                        r matches Err(ArgError::Invalid(g)) && g == f
                    },
                }
            },
            None => if arg == "-h"@ || arg == "--help"@ {
                r matches Err(ArgError::Help)
            } else if is_option(arg) {
                r matches Err(ArgError::Unknown(t)) && t@ == arg
            } else {
                requests(args, i + 1, c, plain.push(arg), r)
            },
        }
    }
}

/// Sets one option. `None` where the value is none.
fn set_option(o: &mut Opts, f: CraftFlag, value: &String) -> (ok: bool)
    ensures
        match chosen(old(o).choice(), f, value@) {
            Some(c) => ok && final(o).choice() == c,
            None => !ok && final(o).choice() == old(o).choice(),
        },
{
    let chars = text::chars_of(value.as_str());
    match f {
        CraftFlag::Sector => match text::parse_uint(chars.as_slice(), 10, usize::MAX as u64) {
            Ok(v) => {
                o.sector = v;
                true
            },
            Err(_) => false,
        },
        CraftFlag::Byte => match text::parse_uint(chars.as_slice(), 10, usize::MAX as u64) {
            Ok(v) => {
                o.byte_offset = v;
                true
            },
            Err(_) => false,
        },
        CraftFlag::Flip => match parse_flip(value.as_str()) {
            Ok(v) => {
                o.flip = v;
                true
            },
            Err(_) => false,
        },
        CraftFlag::Targets => match Targets::parse(value.as_str()) {
            Ok(t) => {
                o.targets = t;
                true
            },
            Err(_) => false,
        },
        CraftFlag::Partner => match text::parse_uint(chars.as_slice(), 10, u64::MAX) {
            Ok(v) => {
                o.partner_slot = Some(v);
                true
            },
            Err(_) => false,
        },
        CraftFlag::Backup => {
            o.backup = Some(value.clone());
            true
        },
        CraftFlag::Restore => {
            o.restore = Some(value.clone());
            true
        },
    }
}

/// The texts of strings.
pub open spec fn views(s: Seq<String>) -> Seq<Seq<char>> {
    Seq::new(s.len(), |i: int| s[i]@)
}

/// Reads the arguments.
pub fn parse_args(args: &Vec<String>) -> (r: Result<Request, ArgError>)
    ensures
        requests(args@, 0, Choice::initial(), Seq::empty(), r),
{
    let mut opts = Opts::default();
    let mut plain: Vec<String> = Vec::new();
    let n: usize = args.len();
    let mut i: usize = 0;
    let ghost start = Choice::initial();
    assert(views(plain@) =~= Seq::<Seq<char>>::empty());
    while i < n
        invariant
            i <= n,
            n == args@.len(),
            start == Choice::initial(),
            forall|q: Result<Request, ArgError>| #[trigger]
                requests(args@, i as int, opts.choice(), views(plain@), q) ==> requests(
                    args@,
                    0,
                    start,
                    Seq::empty(),
                    q,
                ),
        decreases n - i,
    {
        let ghost here = opts.choice();
        let ghost before = views(plain@);
        let ghost at = i as int;
        match find_flag(args[i].as_str()) {
            Some(f) => {
                if n - i < 2 {
                    let e: Result<Request, ArgError> = Err(ArgError::Missing(f));
                    assert(requests(args@, at, here, before, e));
                    return e;
                }
                let value = &args[i + 1];
                if !set_option(&mut opts, f, value) {
                    let e: Result<Request, ArgError> = match f {
                        CraftFlag::Targets => match Targets::parse(value.as_str()) {
                            Err(m) => Err(ArgError::BadTargets(m)),
                            Ok(_) => Err(ArgError::Invalid(f)),
                        },
                        _ => Err(ArgError::Invalid(f)),
                    };
                    assert(requests(args@, at, here, before, e));
                    return e;
                }
                i = i + 2;
            },
            None => {
                let arg = args[i].as_str();
                if text::same_text(arg, "-h") || text::same_text(arg, "--help") {
                    let e: Result<Request, ArgError> = Err(ArgError::Help);
                    assert(requests(args@, at, here, before, e));
                    return e;
                }
                proof {
                    reveal_strlit("--");
                }
                let chars = text::chars_of(arg);
                if text::starts_with(chars.as_slice(), "--") {
                    let e: Result<Request, ArgError> = Err(ArgError::Unknown(args[i].clone()));
                    assert(requests(args@, at, here, before, e));
                    return e;
                }
                plain.push(args[i].clone());
                assert(views(plain@) =~= before.push(args@[at]@));
                i = i + 1;
            },
        }
        proof {
            assert forall|q: Result<Request, ArgError>| #[trigger]
                requests(args@, i as int, opts.choice(), views(plain@), q) implies requests(
                args@,
                0,
                start,
                Seq::empty(),
                q,
            ) by {
                assert(requests(args@, at, here, before, q));
            }
        }
    }
    let done: Result<Request, ArgError> = if plain.len() == 2 {
        Ok(Request { dev: plain[0].clone(), file_path: plain[1].clone(), opts })
    } else {
        Err(ArgError::Positional)
    };
    assert(requests(args@, i as int, opts.choice(), views(plain@), done));
    done
}

// ---------------------------------------------------------------------------
// The sector to corrupt
// ---------------------------------------------------------------------------

/// Item `i` of the leaf is a file extent with data on disk.
pub open spec fn is_data_extent(leaf: Leaf, i: int) -> bool {
    leaf.slots@[i].key.ty == key_type::EXTENT_DATA && extent::is_disk_extent(leaf.item(i))
}

/// The data extents among the first `k` items.
pub open spec fn data_extents(leaf: Leaf, k: int) -> Seq<FileExtent>
    decreases k,
{
    if k <= 0 {
        Seq::empty()
    } else if is_data_extent(leaf, k - 1) {
        data_extents(leaf, k - 1).push(
            extent::file_extent_at(
                leaf.item(k - 1),
                leaf.slots@[k - 1].key.objectid,
                leaf.slots@[k - 1].key.offset,
            ),
        )
    } else {
        data_extents(leaf, k - 1)
    }
}

/// Every EXTENT_DATA item lies inside the leaf.
pub open spec fn extents_in_bounds(leaf: Leaf) -> bool {
    forall|i: int|
        0 <= i < leaf.slots@.len() && (#[trigger] leaf.slots@[i]).key.ty == key_type::EXTENT_DATA
            ==> leaf.item_in_bounds(i)
}

/// Adds the data extents of one leaf of the FS tree. `false` where an item runs
/// past its leaf.
pub fn collect_extents(leaf: &Leaf, out: &mut Vec<FileExtent>) -> (ok: bool)
    ensures
        ok <==> extents_in_bounds(*leaf),
        ok ==> final(out)@ == old(out)@ + data_extents(*leaf, leaf.slots@.len() as int),
{
    let n: usize = leaf.slots.len();
    let mut i: usize = 0;
    assert(out@ =~= old(out)@ + data_extents(*leaf, 0));
    while i < n
        invariant
            i <= n,
            n == leaf.slots@.len(),
            forall|j: int|
                0 <= j < i && (#[trigger] leaf.slots@[j]).key.ty == key_type::EXTENT_DATA
                    ==> leaf.item_in_bounds(j),
            out@ == old(out)@ + data_extents(*leaf, i as int),
        decreases n - i,
    {
        let slot = leaf.slots[i];
        if slot.key.ty == key_type::EXTENT_DATA {
            let data = match leaf.checked_item(i) {
                Some(d) => d,
                None => {
                    assert(leaf.slots@[i as int].key.ty == key_type::EXTENT_DATA);
                    return false;
                },
            };
            if let Some(ext) = FileExtent::parse(data, slot.key.objectid, slot.key.offset) {
                out.push(ext);
            }
        }
        i = i + 1;
        assert(out@ =~= old(out)@ + data_extents(*leaf, i as int));
    }
    true
}

/// The data extents of the leaves visited, in order.
pub open spec fn visit_data_extents(visits: Seq<Visit>) -> Seq<FileExtent>
    decreases visits.len(),
{
    if visits.len() == 0 {
        Seq::empty()
    } else {
        let before = visit_data_extents(visits.drop_last());
        match visits.last().step {
            WalkStep::Leaf { leaf, .. } => before + data_extents(leaf, leaf.slots@.len() as int),
            _ => before,
        }
    }
}

/// The node visited has room for what it announces, and the EXTENT_DATA items of
/// a leaf lie inside it.
pub open spec fn file_visit_ok(visit: Visit) -> bool {
    match visit.step {
        WalkStep::Malformed => false,
        WalkStep::Leaf { leaf, .. } => extents_in_bounds(leaf),
        _ => true,
    }
}

/// What walking the FS tree comes to: the data extents of every leaf, or nothing
/// where the walk meets a node that cannot be used.
pub open spec fn files_walked(
    visits: Seq<Visit>,
    left: Seq<NodeRef>,
    r: Option<Vec<FileExtent>>,
) -> bool {
    match r {
        Some(extents) => {
            &&& left.len() == 0
            &&& forall|k: int| 0 <= k < visits.len() ==> file_visit_ok(#[trigger] visits[k])
            &&& extents@ == visit_data_extents(visits)
        },
        None => {
            &&& visits.len() > 0
            &&& !file_visit_ok(visits.last())
            &&& forall|k: int|
                0 <= k < visits.len() - 1 ==> file_visit_ok(#[trigger] visits[k])
        },
    }
}

/// Walks the FS tree over the store and collects its data extents. Metadata
/// failures are of no interest here. `None` where a node or an item is larger
/// than what holds it.
pub fn file_extents<P: Fn(u64, usize) -> Option<Vec<u8>>, T: Fn(WalkTell)>(
    reader: &FsReader,
    chunk_map: &ChunkMap,
    pread: &P,
    tell: &T,
    root: u64,
) -> (r: Option<Vec<FileExtent>>)
    requires
        walk::store_set(*reader, *chunk_map, *pread),
        walk::tells(*tell),
    ensures
        exists|visits: Seq<Visit>, left: Seq<NodeRef>|
            {
                &&& #[trigger] walk::walked_so_far(
                    *reader,
                    *chunk_map,
                    *pread,
                    root,
                    None,
                    visits,
                    left,
                )
                &&& walk::visits_told(*reader, *chunk_map, *tell, visits)
                &&& files_walked(visits, left, r)
            },
{
    let mut extents: Vec<FileExtent> = Vec::new();
    let mut walk = tree::walk_leaves(root);
    let ghost mut visits = Seq::<Visit>::empty();
    proof {
        walk::lemma_walk_starts(*reader, *chunk_map, *pread, root, None);
    }
    loop
        invariant
            walk::store_set(*reader, *chunk_map, *pread),
            walk::tells(*tell),
            walk.bounds() is None,
            walk::walked_so_far(*reader, *chunk_map, *pread, root, None, visits, walk.queue()),
            walk::visits_told(*reader, *chunk_map, *tell, visits),
            forall|k: int| 0 <= k < visits.len() ==> file_visit_ok(#[trigger] visits[k]),
            extents@ == visit_data_extents(visits),
        decreases walk::work(walk.queue(), reader.node_size as nat),
    {
        let ghost left = walk.queue();
        let visit = match walk::advance(&mut walk, reader, chunk_map, pread, tell) {
            Some(v) => v,
            None => {
                return Some(extents);
            },
        };
        let ghost earlier = visits;
        proof {
            walk::lemma_walk_goes_on(
                *reader,
                *chunk_map,
                *pread,
                root,
                None,
                visits,
                left,
                visit,
                walk.queue(),
            );
            walk::lemma_told_on(*reader, *chunk_map, *tell, visits, visit);
            visits = visits.push(visit);
            assert(visits.drop_last() =~= earlier);
            assert(visits.last() == visit);
            assert forall|k: int| 0 <= k < visits.len() - 1 implies file_visit_ok(
                #[trigger] visits[k],
            ) by {
                assert(visits[k] == earlier[k]);
            }
        }
        match &visit.step {
            WalkStep::Malformed => {
                return None;
            },
            WalkStep::Leaf { leaf, .. } => {
                if !collect_extents(leaf, &mut extents) {
                    return None;
                }
            },
            _ => {},
        }
    }
}

/// Whole sectors in the first `k` extents.
pub open spec fn sectors_before(extents: Seq<FileExtent>, k: int) -> int
    decreases k,
{
    if k <= 0 {
        0
    } else {
        sectors_before(extents, k - 1) + extents[k - 1].num_bytes as int / 4096
    }
}

/// The sector lies in extent `k`.
pub open spec fn sector_in(extents: Seq<FileExtent>, sector: u64, k: int) -> bool {
    &&& 0 <= k < extents.len()
    &&& sectors_before(extents, k) <= sector < sectors_before(extents, k + 1)
}

/// Where the sector's data begins, in extent `k`.
pub open spec fn sector_start(extents: Seq<FileExtent>, sector: u64, k: int) -> int {
    extents[k].disk_bytenr + extents[k].offset + (sector - sectors_before(extents, k)) * 4096
}

/// A file sector's place.
#[derive(Debug, Clone, Copy, PartialEq, Eq, Structural)]
pub struct FileSector {
    pub devid: u64,
    pub array_phys: u64,
    pub logical: u64,
    pub inode: u64,
}

/// Why a file sector was not found.
#[derive(Debug, Clone, Copy, PartialEq, Eq, Structural)]
pub enum FindError {
    /// No data extents in the FS tree.
    NoExtents,
    /// The sector is past the end of all extents.
    PastEnd { sector: u64 },
    /// No chunk mapping for the logical address.
    Unmapped { logical: u64 },
    /// The extent's address or that of its first copy lies outside the address
    /// space, or its chunk has no copy.
    Malformed,
}

/// The chunk has no copy, or its first copy of the address lies outside the
/// address space.
pub open spec fn no_copy_at(e: MapEntry, logical: u64) -> bool {
    e.copies(logical).len() == 0 || e.copies(logical)[0].1 > u64::MAX
}

/// `f` is the sector's place: it lies in extent `k`, and entry `i` of the chunk
/// map answers for it.
pub open spec fn sector_at(
    extents: Seq<FileExtent>,
    sector: u64,
    chunk_map: ChunkMap,
    f: FileSector,
    k: int,
    i: int,
) -> bool {
    &&& sector_in(extents, sector, k)
    &&& f.logical == sector_start(extents, sector, k)
    &&& f.inode == extents[k].inode
    &&& chunk_map.found(f.logical, i)
    &&& chunk_map@[i].copies(f.logical).len() > 0
    &&& chunk::is_copy((f.devid, f.array_phys), chunk_map@[i].copies(f.logical)[0])
}

proof fn lemma_sectors_monotonic(extents: Seq<FileExtent>, j: int, k: int)
    requires
        0 <= j <= k,
    ensures
        sectors_before(extents, j) <= sectors_before(extents, k),
    decreases k - j,
{
    if j < k {
        lemma_sectors_monotonic(extents, j, k - 1);
    }
}

/// Picks the extent that holds sector `sector` and maps it through the chunk map.
pub fn find_file_sector(extents: &Vec<FileExtent>, sector: u64, chunk_map: &ChunkMap) -> (r: Result<
    FileSector,
    FindError,
>)
    requires
        chunk_map.wf(),
    ensures
        match r {
            Ok(f) => !chunk_map.unmapped(f.logical) && exists|k: int, i: int| #[trigger]
                sector_at(extents@, sector, *chunk_map, f, k, i),
            Err(FindError::NoExtents) => extents@.len() == 0,
            Err(FindError::PastEnd { sector: s }) => {
                &&& s == sector
                &&& extents@.len() > 0
                &&& sectors_before(extents@, extents@.len() as int) <= sector
            },
            Err(FindError::Unmapped { logical }) => exists|k: int|
                {
                    &&& #[trigger] sector_in(extents@, sector, k)
                    &&& logical == sector_start(extents@, sector, k)
                    &&& chunk_map.unmapped(logical)
                },
            Err(FindError::Malformed) => exists|k: int|
                {
                    &&& #[trigger] sector_in(extents@, sector, k)
                    &&& sector_start(extents@, sector, k) > u64::MAX || exists|i: int|
                        #[trigger] chunk_map.found(
                            sector_start(extents@, sector, k) as u64,
                            i,
                        ) && no_copy_at(chunk_map@[i], sector_start(extents@, sector, k) as u64)
                },
        },
{
    let n: usize = extents.len();
    if n == 0 {
        return Err(FindError::NoExtents);
    }
    let mut remaining: u64 = sector;
    let mut k: usize = 0;
    while k < n && extents[k].num_bytes / 4096 <= remaining
        invariant
            k <= n,
            n == extents@.len(),
            remaining == sector - sectors_before(extents@, k as int),
        decreases n - k,
    {
        remaining = remaining - extents[k].num_bytes / 4096;
        k = k + 1;
    }
    if k == n {
        return Err(FindError::PastEnd { sector });
    }
    assert(sector_in(extents@, sector, k as int));
    let ext = &extents[k];
    let start: u128 = ext.disk_bytenr as u128 + ext.offset as u128 + remaining as u128 * 4096;
    assert(start == sector_start(extents@, sector, k as int));
    if start > u64::MAX as u128 {
        return Err(FindError::Malformed);
    }
    let logical: u64 = start as u64;
    match chunk_map.entry(logical) {
        None => Err(FindError::Unmapped { logical }),
        Some(e) => {
            let ghost i = choose|i: int| #[trigger]
                chunk_map.found(logical, i) && *e == chunk_map@[i];
            assert(chunk_map.found(logical, i));
            assert(chunk_map@[i].covers(logical));
            if e.stripes.len() == 0 {
                assert(no_copy_at(chunk_map@[i], logical));
                return Err(FindError::Malformed);
            }
            let array_phys: u64 = match e.stripes[0].offset.checked_add(logical - e.begin) {
                Some(phys) => phys,
                None => {
                    assert(no_copy_at(chunk_map@[i], logical));
                    return Err(FindError::Malformed);
                },
            };
            let f = FileSector {
                devid: e.stripes[0].devid,
                array_phys,
                logical,
                inode: ext.inode,
            };
            assert(sector_at(extents@, sector, *chunk_map, f, k as int, i));
            Ok(f)
        },
    }
}

/// A sector lies in one extent only.
pub proof fn law_sector_place_is_unique(
    extents: Seq<FileExtent>,
    sector: u64,
    j: int,
    k: int,
)
    requires
        sector_in(extents, sector, j),
        sector_in(extents, sector, k),
    ensures
        j == k,
{
    if j < k {
        lemma_sectors_monotonic(extents, j + 1, k);
    } else if k < j {
        lemma_sectors_monotonic(extents, k + 1, j);
    }
}

// ---------------------------------------------------------------------------
// The corruption
// ---------------------------------------------------------------------------

/// A second disk that is corrupted at the same offset.
#[derive(Debug)]
pub struct Partner {
    pub slot: u64,
    pub path: String,
    pub orig: Vec<u8>,
    pub corrupt: Vec<u8>,
}

/// Everything a corruption needs, read and computed before anything is touched.
#[derive(Debug)]
pub struct Plan {
    pub dev_path: String,
    pub orig: Vec<u8>,
    pub corrupt: Vec<u8>,
    pub orig_csum: u32,
    pub corrupt_csum: u32,
    pub p_path: String,
    pub q_path: String,
    pub p_before: Vec<u8>,
    pub q_before: Vec<u8>,
    /// The parity that the data disks call for: live parity that disagrees makes
    /// the test meaningless.
    pub p_expected: Vec<u8>,
    pub q_expected: Vec<u8>,
    pub new_p: Vec<u8>,
    pub new_q: Vec<u8>,
    pub partner: Option<Partner>,
}

/// Why nothing was corrupted.
#[derive(Debug)]
pub enum CraftError<E> {
    /// A disk could not be read.
    Read(E),
    /// The slot is not in the array config.
    NotInArray,
    /// No P disk.
    NoP,
    /// No Q disk.
    NoQ,
    /// The flip leaves the checksum as it is: the scrub would not notice.
    SameChecksum,
    /// There is no other data disk.
    NoPartner,
    /// The partner slot is not in the array config.
    PartnerNotInArray { slot: u64 },
    /// The partner's flip leaves its checksum as it is.
    PartnerSameChecksum,
}

/// A block with one byte flipped.
pub open spec fn flipped(block: Seq<u8>, at: int, mask: u8) -> Seq<u8> {
    block.update(at, block[at] ^ mask)
}

/// P is recomputed from the corrupt data.
pub open spec fn bakes_p(t: Targets) -> bool {
    t is BakeP || t is BakeBoth
}

/// Q is recomputed from the corrupt data.
pub open spec fn bakes_q(t: Targets) -> bool {
    t is BakeQ || t is BakeBoth
}

/// The partner: the slot that was asked for, else the first other data disk.
pub open spec fn is_partner_slot(cfg: ArrayConfig, opts: Opts, slot: u64, partner: u64) -> bool {
    match opts.partner_slot {
        Some(s) => partner == s,
        None => exists|k: int| #[trigger] first_other(cfg, slot, k) && partner
            == cfg.disks()[k].0,
    }
}

/// Data disk `k` is the first that is not in `slot`.
pub open spec fn first_other(cfg: ArrayConfig, slot: u64, k: int) -> bool {
    &&& 0 <= k < cfg.disks().len()
    &&& cfg.disks()[k].0 != slot
    &&& forall|j: int| 0 <= j < k ==> (#[trigger] cfg.disks()[j]).0 == slot
}

/// `p` is P of the stripe, with another block in place of one disk's where `over`
/// says so.
pub open spec fn p_of_stripe<
    E,
    S: Fn(&String) -> Result<u64, E>,
    R: Fn(&String, u64, usize) -> Result<Vec<u8>, E>,
>(
    cfg: ArrayConfig,
    over: Option<(u64, Seq<u8>)>,
    array_phys: u64,
    size: S,
    read: R,
    p: Seq<u8>,
) -> bool {
    p.len() == BLOCK && exists|blocks: Seq<(u64, Vec<u8>)>| #[trigger]
        parity::stripe_data::<E, S, R>(cfg, over, array_phys, BLOCK, size, read, blocks)
            && laws::is_p_of(p, blocks)
}

/// `q` is Q of the stripe, with another block in place of one disk's where `over`
/// says so.
pub open spec fn q_of_stripe<
    E,
    S: Fn(&String) -> Result<u64, E>,
    R: Fn(&String, u64, usize) -> Result<Vec<u8>, E>,
>(
    cfg: ArrayConfig,
    over: Option<(u64, Seq<u8>)>,
    array_phys: u64,
    size: S,
    read: R,
    q: Seq<u8>,
) -> bool {
    q.len() == BLOCK && exists|blocks: Seq<(u64, Vec<u8>)>| #[trigger]
        parity::stripe_data::<E, S, R>(cfg, over, array_phys, BLOCK, size, read, blocks)
            && laws::is_q_of(q, blocks)
}

/// The partner's part of a plan.
pub open spec fn partner_planned<
    E,
    S: Fn(&String) -> Result<u64, E>,
    R: Fn(&String, u64, usize) -> Result<Vec<u8>, E>,
>(
    cfg: ArrayConfig,
    slot: u64,
    array_phys: u64,
    opts: Opts,
    size: S,
    read: R,
    pt: Partner,
) -> bool {
    &&& is_partner_slot(cfg, opts, slot, pt.slot)
    &&& cfg.dev(pt.slot) == Some(pt.path@)
    &&& stripe::block_read(cfg, &pt.path, array_phys, BLOCK, size, read, Ok::<Vec<u8>, E>(pt.orig))
    &&& pt.orig@.len() == BLOCK
    // A different byte and mask keep the partner's corruption distinct.
    &&& pt.corrupt@ == flipped(pt.orig@, (opts.byte_offset + 1) % 4096, opts.flip ^ 1)
    &&& hash::crc32c_of(pt.orig@) != hash::crc32c_of(pt.corrupt@)
}

/// `plan` corrupts the block of `slot` at `array_phys` as asked.
pub open spec fn planned<
    E,
    S: Fn(&String) -> Result<u64, E>,
    R: Fn(&String, u64, usize) -> Result<Vec<u8>, E>,
>(
    cfg: ArrayConfig,
    slot: u64,
    array_phys: u64,
    opts: Opts,
    size: S,
    read: R,
    plan: Plan,
) -> bool {
    &&& cfg.dev(slot) == Some(plan.dev_path@)
    &&& stripe::block_read(
        cfg,
        &plan.dev_path,
        array_phys,
        BLOCK,
        size,
        read,
        Ok::<Vec<u8>, E>(plan.orig),
    )
    &&& plan.orig@.len() == BLOCK
    &&& plan.corrupt@ == flipped(plan.orig@, opts.byte_offset as int, opts.flip)
    &&& plan.orig_csum == hash::crc32c_of(plan.orig@)
    &&& plan.corrupt_csum == hash::crc32c_of(plan.corrupt@)
    &&& plan.orig_csum != plan.corrupt_csum
    &&& cfg.parity_p matches Some(p) && p@ == plan.p_path@
    &&& cfg.parity_q matches Some(q) && q@ == plan.q_path@
    &&& stripe::block_read(
        cfg,
        &plan.p_path,
        array_phys,
        BLOCK,
        size,
        read,
        Ok::<Vec<u8>, E>(plan.p_before),
    )
    &&& stripe::block_read(
        cfg,
        &plan.q_path,
        array_phys,
        BLOCK,
        size,
        read,
        Ok::<Vec<u8>, E>(plan.q_before),
    )
    &&& p_of_stripe::<E, S, R>(cfg, None, array_phys, size, read, plan.p_expected@)
    &&& q_of_stripe::<E, S, R>(cfg, None, array_phys, size, read, plan.q_expected@)
    &&& if bakes_p(opts.targets) {
        p_of_stripe::<E, S, R>(
            cfg,
            Some((slot, plan.corrupt@)),
            array_phys,
            size,
            read,
            plan.new_p@,
        )
    } else {
        plan.new_p@ == plan.p_before@
    }
    &&& if bakes_q(opts.targets) {
        q_of_stripe::<E, S, R>(
            cfg,
            Some((slot, plan.corrupt@)),
            array_phys,
            size,
            read,
            plan.new_q@,
        )
    } else {
        plan.new_q@ == plan.q_before@
    }
    &&& plan.partner is Some <==> opts.targets is TwoDisk
    &&& plan.partner matches Some(pt) ==> partner_planned::<E, S, R>(
        cfg,
        slot,
        array_phys,
        opts,
        size,
        read,
        pt,
    )
}

/// The block with one byte flipped.
fn flip_byte(block: &Vec<u8>, at: usize, mask: u8) -> (r: Vec<u8>)
    requires
        at < block@.len(),
    ensures
        r@ == flipped(block@, at as int, mask),
{
    let mut out = bytes::copy_range(block.as_slice(), 0, block.len());
    assert(out@ =~= block@);
    let b: u8 = out[at] ^ mask;
    out.set(at, b);
    out
}

/// The partner slot, if there is one.
fn choose_partner(cfg: &ArrayConfig, slot: u64, opts: &Opts) -> (r: Option<u64>)
    ensures
        match r {
            Some(p) => is_partner_slot(*cfg, *opts, slot, p),
            None => opts.partner_slot is None && forall|k: int|
                0 <= k < cfg.disks().len() ==> (#[trigger] cfg.disks()[k]).0 == slot,
        },
{
    if let Some(s) = opts.partner_slot {
        return Some(s);
    }
    let disks = cfg.disk_list();
    let n: usize = disks.len();
    let mut k: usize = 0;
    while k < n
        invariant
            disks@ == cfg.disks(),
            k <= n,
            n == cfg.disks().len(),
            opts.partner_slot is None,
            forall|j: int| 0 <= j < k ==> (#[trigger] cfg.disks()[j]).0 == slot,
        decreases n - k,
    {
        if disks[k].0 != slot {
            assert(first_other(*cfg, slot, k as int));
            return Some(disks[k].0);
        }
        k = k + 1;
    }
    None
}

/// Plans the partner's corruption.
fn plan_partner<
    E,
    S: Fn(&String) -> Result<u64, E>,
    R: Fn(&String, u64, usize) -> Result<Vec<u8>, E>,
>(
    cfg: &ArrayConfig,
    slot: u64,
    array_phys: u64,
    opts: &Opts,
    size: &S,
    read: &R,
) -> (r: Result<Partner, CraftError<E>>)
    requires
        stripe::devices_answer(*size, *read),
        stripe::offset_fits(*cfg, array_phys),
        opts.byte_offset < BLOCK,
    ensures
        match r {
            Ok(pt) => partner_planned::<E, S, R>(
                *cfg,
                slot,
                array_phys,
                *opts,
                *size,
                *read,
                pt,
            ),
            Err(e) => partner_refused::<E, S, R>(
                *cfg,
                slot,
                array_phys,
                *opts,
                *size,
                *read,
                e,
            ),
        },
{
    let chosen_slot: u64 = match choose_partner(cfg, slot, opts) {
        Some(s) => s,
        None => {
            return Err(CraftError::NoPartner);
        },
    };
    let path = match cfg.data_dev(chosen_slot) {
        Some(p) => p.to_owned(),
        None => {
            return Err(CraftError::PartnerNotInArray { slot: chosen_slot });
        },
    };
    proof {
        config::law_listed_disk_is_in_its_slot(*cfg, chosen_slot);
    }
    let orig = match stripe::read_block_or_zeros(cfg, &path, array_phys, BLOCK, size, read) {
        Ok(b) => b,
        Err(e) => {
            assert(disk_gave::<E, S, R>(
                *cfg,
                array_phys,
                *size,
                *read,
                path@,
                Err::<Vec<u8>, E>(e),
            ));
            return Err(CraftError::Read(e));
        },
    };
    let at: usize = (opts.byte_offset as usize + 1) % BLOCK;
    let corrupt = flip_byte(&orig, at, opts.flip ^ 1);
    let same = hash::crc32c_hash(corrupt.as_slice()) == hash::crc32c_hash(orig.as_slice());
    if same {
        assert(same_checksum::<E, S, R>(
            *cfg,
            chosen_slot,
            array_phys,
            *size,
            *read,
            at as int,
            opts.flip ^ 1,
            path,
            orig,
        ));
        return Err(CraftError::PartnerSameChecksum);
    }
    Ok(Partner { slot: chosen_slot, path, orig, corrupt })
}

/// The path is that of a disk of the array.
pub open spec fn in_array(cfg: ArrayConfig, path: Seq<char>) -> bool {
    ||| exists|k: int| 0 <= k < cfg.disks().len() && (#[trigger] cfg.disks()[k]).1@ == path
    ||| cfg.parity_p matches Some(p) && p@ == path
    ||| cfg.parity_q matches Some(q) && q@ == path
}

/// What was read of the slot's disk keeps its checksum under the flip.
pub open spec fn same_checksum<
    E,
    S: Fn(&String) -> Result<u64, E>,
    R: Fn(&String, u64, usize) -> Result<Vec<u8>, E>,
>(
    cfg: ArrayConfig,
    slot: u64,
    array_phys: u64,
    size: S,
    read: R,
    at: int,
    mask: u8,
    path: String,
    block: Vec<u8>,
) -> bool {
    &&& cfg.dev(slot) == Some(path@)
    &&& stripe::block_read(cfg, &path, array_phys, BLOCK, size, read, Ok::<Vec<u8>, E>(block))
    &&& hash::crc32c_of(block@) == hash::crc32c_of(flipped(block@, at, mask))
}

/// Reading the disk at this path gave `out`.
pub open spec fn disk_gave<
    E,
    S: Fn(&String) -> Result<u64, E>,
    R: Fn(&String, u64, usize) -> Result<Vec<u8>, E>,
>(
    cfg: ArrayConfig,
    array_phys: u64,
    size: S,
    read: R,
    path: Seq<char>,
    out: Result<Vec<u8>, E>,
) -> bool {
    exists|p: String|
        p@ == path && #[trigger] stripe::block_read(cfg, &p, array_phys, BLOCK, size, read, out)
}

/// The disk at this path was read.
pub open spec fn disk_read<
    E,
    S: Fn(&String) -> Result<u64, E>,
    R: Fn(&String, u64, usize) -> Result<Vec<u8>, E>,
>(cfg: ArrayConfig, array_phys: u64, size: S, read: R, path: Seq<char>) -> bool {
    exists|b: Vec<u8>| #[trigger]
        disk_gave::<E, S, R>(cfg, array_phys, size, read, path, Ok::<Vec<u8>, E>(b))
}

/// How far planning came, the steps in order: the data block was read, there are
/// P and Q, both were read, P and Q were computed, and the flip changes the
/// checksum.
pub ghost enum Reached {
    Data,
    Parity,
    P,
    Q,
    ExpectedP,
    ExpectedQ,
    Flip,
}

/// Planning came as far as this.
pub open spec fn reached<
    E,
    S: Fn(&String) -> Result<u64, E>,
    R: Fn(&String, u64, usize) -> Result<Vec<u8>, E>,
>(
    cfg: ArrayConfig,
    slot: u64,
    array_phys: u64,
    opts: Opts,
    size: S,
    read: R,
    step: Reached,
) -> bool
    decreases step_number(step),
{
    match step {
        Reached::Data => cfg.dev(slot) matches Some(path) && disk_read::<E, S, R>(
            cfg,
            array_phys,
            size,
            read,
            path,
        ),
        Reached::Parity => {
            &&& reached::<E, S, R>(cfg, slot, array_phys, opts, size, read, Reached::Data)
            &&& cfg.parity_p is Some
            &&& cfg.parity_q is Some
        },
        Reached::P => {
            &&& reached::<E, S, R>(cfg, slot, array_phys, opts, size, read, Reached::Parity)
            &&& disk_read::<E, S, R>(cfg, array_phys, size, read, cfg.parity_p.unwrap()@)
        },
        Reached::Q => {
            &&& reached::<E, S, R>(cfg, slot, array_phys, opts, size, read, Reached::P)
            &&& disk_read::<E, S, R>(cfg, array_phys, size, read, cfg.parity_q.unwrap()@)
        },
        Reached::ExpectedP => {
            &&& reached::<E, S, R>(cfg, slot, array_phys, opts, size, read, Reached::Q)
            &&& exists|p: Seq<u8>| #[trigger]
                p_of_stripe::<E, S, R>(cfg, None, array_phys, size, read, p)
        },
        Reached::ExpectedQ => {
            &&& reached::<E, S, R>(cfg, slot, array_phys, opts, size, read, Reached::ExpectedP)
            &&& exists|q: Seq<u8>| #[trigger]
                q_of_stripe::<E, S, R>(cfg, None, array_phys, size, read, q)
        },
        Reached::Flip => {
            &&& reached::<E, S, R>(cfg, slot, array_phys, opts, size, read, Reached::ExpectedQ)
            &&& exists|corrupt: Seq<u8>| #[trigger]
                corrupted::<E, S, R>(cfg, slot, array_phys, opts, size, read, corrupt)
        },
    }
}

/// The place of a step among the others.
pub open spec fn step_number(step: Reached) -> int {
    match step {
        Reached::Data => 0,
        Reached::Parity => 1,
        Reached::P => 2,
        Reached::Q => 3,
        Reached::ExpectedP => 4,
        Reached::ExpectedQ => 5,
        Reached::Flip => 6,
    }
}

/// `corrupt` is what was read of the slot's disk with the byte flipped, and has
/// another checksum.
pub open spec fn corrupted<
    E,
    S: Fn(&String) -> Result<u64, E>,
    R: Fn(&String, u64, usize) -> Result<Vec<u8>, E>,
>(
    cfg: ArrayConfig,
    slot: u64,
    array_phys: u64,
    opts: Opts,
    size: S,
    read: R,
    corrupt: Seq<u8>,
) -> bool {
    cfg.dev(slot) matches Some(path) && exists|b: Vec<u8>|
        {
            &&& #[trigger] disk_gave::<E, S, R>(
                cfg,
                array_phys,
                size,
                read,
                path,
                Ok::<Vec<u8>, E>(b),
            )
            &&& corrupt == flipped(b@, opts.byte_offset as int, opts.flip)
            &&& hash::crc32c_of(b@) != hash::crc32c_of(corrupt)
        }
}

/// Why the partner's corruption was not planned.
pub open spec fn partner_refused<
    E,
    S: Fn(&String) -> Result<u64, E>,
    R: Fn(&String, u64, usize) -> Result<Vec<u8>, E>,
>(
    cfg: ArrayConfig,
    slot: u64,
    array_phys: u64,
    opts: Opts,
    size: S,
    read: R,
    e: CraftError<E>,
) -> bool {
    match e {
        CraftError::NoPartner => opts.partner_slot is None && forall|k: int|
            0 <= k < cfg.disks().len() ==> (#[trigger] cfg.disks()[k]).0 == slot,
        CraftError::PartnerNotInArray { slot: s } => is_partner_slot(cfg, opts, slot, s)
            && cfg.dev(s) is None,
        CraftError::Read(e) => exists|s: u64|
            {
                &&& #[trigger] is_partner_slot(cfg, opts, slot, s)
                &&& cfg.dev(s) matches Some(path) && disk_gave::<E, S, R>(
                    cfg,
                    array_phys,
                    size,
                    read,
                    path,
                    Err::<Vec<u8>, E>(e),
                )
            },
        CraftError::PartnerSameChecksum => exists|s: u64, path: String, b: Vec<u8>|
            is_partner_slot(cfg, opts, slot, s) && #[trigger] same_checksum::<E, S, R>(
                cfg,
                s,
                array_phys,
                size,
                read,
                (opts.byte_offset + 1) % 4096,
                opts.flip ^ 1,
                path,
                b,
            ),
        _ => false,
    }
}

/// `e` is the read that stopped planning: of the data block, of P, of Q, of the
/// stripe for the parity it calls for, of the partner, or of the stripe for the
/// parity to bake, each with the steps before it done.
pub open spec fn read_stopped<
    E,
    S: Fn(&String) -> Result<u64, E>,
    R: Fn(&String, u64, usize) -> Result<Vec<u8>, E>,
>(
    cfg: ArrayConfig,
    slot: u64,
    array_phys: u64,
    opts: Opts,
    size: S,
    read: R,
    e: E,
) -> bool {
    let failed = Err::<Vec<u8>, E>(e);
    let after = |step: Reached|
        reached::<E, S, R>(cfg, slot, array_phys, opts, size, read, step);
    ||| cfg.dev(slot) matches Some(path) && disk_gave::<E, S, R>(
        cfg,
        array_phys,
        size,
        read,
        path,
        failed,
    )
    ||| after(Reached::Parity) && disk_gave::<E, S, R>(
        cfg,
        array_phys,
        size,
        read,
        cfg.parity_p.unwrap()@,
        failed,
    )
    ||| after(Reached::P) && disk_gave::<E, S, R>(
        cfg,
        array_phys,
        size,
        read,
        cfg.parity_q.unwrap()@,
        failed,
    )
    ||| (after(Reached::Q) || after(Reached::ExpectedP)) && parity::stripe_error::<E, S, R>(
        cfg,
        None,
        array_phys,
        BLOCK,
        size,
        read,
        e,
    )
    ||| after(Reached::Flip) && opts.targets is TwoDisk && partner_refused::<E, S, R>(
        cfg,
        slot,
        array_phys,
        opts,
        size,
        read,
        CraftError::Read(e),
    )
    ||| {
        &&& after(Reached::ExpectedQ)
        &&& bakes_p(opts.targets) || bakes_q(opts.targets)
        &&& exists|corrupt: Seq<u8>|
            {
                &&& #[trigger] corrupted::<E, S, R>(
                    cfg,
                    slot,
                    array_phys,
                    opts,
                    size,
                    read,
                    corrupt,
                )
                &&& parity::stripe_error::<E, S, R>(
                    cfg,
                    Some((slot, corrupt)),
                    array_phys,
                    BLOCK,
                    size,
                    read,
                    e,
                )
            }
    }
}

/// Why a corruption was not planned. The reasons come in the order of the steps:
/// each is given only where the steps before it were done.
pub open spec fn refused<
    E,
    S: Fn(&String) -> Result<u64, E>,
    R: Fn(&String, u64, usize) -> Result<Vec<u8>, E>,
>(
    cfg: ArrayConfig,
    slot: u64,
    array_phys: u64,
    opts: Opts,
    size: S,
    read: R,
    e: CraftError<E>,
) -> bool {
    let after = |step: Reached|
        reached::<E, S, R>(cfg, slot, array_phys, opts, size, read, step);
    match e {
        CraftError::NotInArray => cfg.dev(slot) is None,
        CraftError::NoP => after(Reached::Data) && cfg.parity_p is None,
        CraftError::NoQ => after(Reached::Data) && cfg.parity_p is Some && cfg.parity_q is None,
        CraftError::Read(e) => read_stopped::<E, S, R>(
            cfg,
            slot,
            array_phys,
            opts,
            size,
            read,
            e,
        ),
        CraftError::SameChecksum => after(Reached::ExpectedQ) && exists|path: String, b: Vec<u8>|
            #[trigger] same_checksum::<E, S, R>(
                cfg,
                slot,
                array_phys,
                size,
                read,
                opts.byte_offset as int,
                opts.flip,
                path,
                b,
            ),
        _ => after(Reached::Flip) && opts.targets is TwoDisk && partner_refused::<E, S, R>(
            cfg,
            slot,
            array_phys,
            opts,
            size,
            read,
            e,
        ),
    }
}

/// Reads a block of a disk of the array.
fn read_disk<
    E,
    S: Fn(&String) -> Result<u64, E>,
    R: Fn(&String, u64, usize) -> Result<Vec<u8>, E>,
>(cfg: &ArrayConfig, path: &String, array_phys: u64, size: &S, read: &R) -> (r: Result<Vec<u8>, E>)
    requires
        stripe::devices_answer(*size, *read),
        in_array(*cfg, path@),
        stripe::offset_fits(*cfg, array_phys),
    ensures
        stripe::block_read(*cfg, path, array_phys, BLOCK, *size, *read, r),
        disk_gave::<E, S, R>(*cfg, array_phys, *size, *read, path@, r),
        match r {
            Ok(b) => b@.len() == BLOCK && disk_read::<E, S, R>(
                *cfg,
                array_phys,
                *size,
                *read,
                path@,
            ),
            Err(_) => true,
        },
{
    let r = stripe::read_block_or_zeros(cfg, path, array_phys, BLOCK, size, read);
    assert(disk_gave::<E, S, R>(*cfg, array_phys, *size, *read, path@, r));
    r
}

/// Plans a corruption: snapshots the data block and both parity blocks, flips
/// the chosen byte, and computes the parity that the scenario calls for. Nothing
/// is touched.
pub fn plan_corruption<
    E,
    S: Fn(&String) -> Result<u64, E>,
    R: Fn(&String, u64, usize) -> Result<Vec<u8>, E>,
>(
    cfg: &ArrayConfig,
    slot: u64,
    array_phys: u64,
    opts: &Opts,
    size: &S,
    read: &R,
) -> (r: Result<Plan, CraftError<E>>)
    requires
        stripe::devices_answer(*size, *read),
        stripe::offset_fits(*cfg, array_phys),
        parity::slots_have_columns(*cfg),
        opts.byte_offset < BLOCK,
    ensures
        match r {
            Ok(plan) => planned::<E, S, R>(*cfg, slot, array_phys, *opts, *size, *read, plan),
            Err(e) => refused::<E, S, R>(*cfg, slot, array_phys, *opts, *size, *read, e),
        },
{
    let dev_path = match cfg.data_dev(slot) {
        Some(p) => p.to_owned(),
        None => {
            return Err(CraftError::NotInArray);
        },
    };
    proof {
        config::law_listed_disk_is_in_its_slot(*cfg, slot);
    }
    let orig = match read_disk(cfg, &dev_path, array_phys, size, read) {
        Ok(b) => b,
        Err(e) => {
            return Err(CraftError::Read(e));
        },
    };
    assert(reached::<E, S, R>(
        *cfg,
        slot,
        array_phys,
        *opts,
        *size,
        *read,
        Reached::Data,
    ));
    let orig_csum: u32 = hash::crc32c_hash(orig.as_slice());
    let p_path = match &cfg.parity_p {
        Some(p) => p.clone(),
        None => {
            return Err(CraftError::NoP);
        },
    };
    let q_path = match &cfg.parity_q {
        Some(q) => q.clone(),
        None => {
            return Err(CraftError::NoQ);
        },
    };
    assert(reached::<E, S, R>(
        *cfg,
        slot,
        array_phys,
        *opts,
        *size,
        *read,
        Reached::Parity,
    ));
    let p_before = match read_disk(cfg, &p_path, array_phys, size, read) {
        Ok(b) => b,
        Err(e) => {
            return Err(CraftError::Read(e));
        },
    };
    assert(reached::<E, S, R>(
        *cfg,
        slot,
        array_phys,
        *opts,
        *size,
        *read,
        Reached::P,
    ));
    let q_before = match read_disk(cfg, &q_path, array_phys, size, read) {
        Ok(b) => b,
        Err(e) => {
            return Err(CraftError::Read(e));
        },
    };
    assert(reached::<E, S, R>(
        *cfg,
        slot,
        array_phys,
        *opts,
        *size,
        *read,
        Reached::Q,
    ));
    let p_expected = match parity::compute_p(cfg, array_phys, BLOCK, size, read) {
        Ok(p) => p,
        Err(e) => {
            return Err(CraftError::Read(e));
        },
    };
    assert(p_of_stripe::<E, S, R>(*cfg, None, array_phys, *size, *read, p_expected@));
    assert(reached::<E, S, R>(
        *cfg,
        slot,
        array_phys,
        *opts,
        *size,
        *read,
        Reached::ExpectedP,
    ));
    let q_expected = match parity::compute_q(cfg, array_phys, BLOCK, size, read) {
        Ok(q) => q,
        Err(e) => {
            return Err(CraftError::Read(e));
        },
    };
    assert(q_of_stripe::<E, S, R>(*cfg, None, array_phys, *size, *read, q_expected@));
    assert(reached::<E, S, R>(
        *cfg,
        slot,
        array_phys,
        *opts,
        *size,
        *read,
        Reached::ExpectedQ,
    ));
    let corrupt = flip_byte(&orig, opts.byte_offset as usize, opts.flip);
    let corrupt_csum: u32 = hash::crc32c_hash(corrupt.as_slice());
    if corrupt_csum == orig_csum {
        assert(same_checksum::<E, S, R>(
            *cfg,
            slot,
            array_phys,
            *size,
            *read,
            opts.byte_offset as int,
            opts.flip,
            dev_path,
            orig,
        ));
        return Err(CraftError::SameChecksum);
    }
    assert(corrupted::<E, S, R>(*cfg, slot, array_phys, *opts, *size, *read, corrupt@));
    assert(reached::<E, S, R>(
        *cfg,
        slot,
        array_phys,
        *opts,
        *size,
        *read,
        Reached::Flip,
    ));
    let partner: Option<Partner> = match opts.targets {
        Targets::TwoDisk => match plan_partner(cfg, slot, array_phys, opts, size, read) {
            Ok(pt) => Some(pt),
            Err(e) => {
                return Err(e);
            },
        },
        _ => None,
    };
    let bake_p = match opts.targets {
        Targets::BakeP | Targets::BakeBoth => true,
        _ => false,
    };
    let bake_q = match opts.targets {
        Targets::BakeQ | Targets::BakeBoth => true,
        _ => false,
    };
    let new_p = if bake_p {
        match parity::compute_p_with_override(
            cfg,
            slot,
            corrupt.as_slice(),
            array_phys,
            BLOCK,
            size,
            read,
        ) {
            Ok(p) => p,
            Err(e) => {
                return Err(CraftError::Read(e));
            },
        }
    } else {
        bytes::copy_range(p_before.as_slice(), 0, p_before.len())
    };
    assert(parity::fitted(corrupt@, BLOCK as nat) =~= corrupt@);
    let new_q = if bake_q {
        match parity::compute_q_with_override(
            cfg,
            slot,
            corrupt.as_slice(),
            array_phys,
            BLOCK,
            size,
            read,
        ) {
            Ok(q) => q,
            Err(e) => {
                return Err(CraftError::Read(e));
            },
        }
    } else {
        bytes::copy_range(q_before.as_slice(), 0, q_before.len())
    };
    assert(!bake_p ==> new_p@ =~= p_before@);
    assert(!bake_q ==> new_q@ =~= q_before@);
    Ok(
        Plan {
            dev_path,
            orig,
            corrupt,
            orig_csum,
            corrupt_csum,
            p_path,
            q_path,
            p_before,
            q_before,
            p_expected,
            q_expected,
            new_p,
            new_q,
            partner,
        },
    )
}

/// A write of a block to a disk.
#[derive(Debug)]
pub struct BlockWrite {
    pub path: String,
    pub block: Vec<u8>,
}

/// The write, as values of the model.
pub open spec fn write_view(w: BlockWrite) -> (Seq<char>, Seq<u8>) {
    (w.path@, w.block@)
}

/// What the plan writes, in order: the corrupt data, the parity that changed,
/// the corrupt partner.
pub open spec fn plan_writes(plan: Plan) -> Seq<(Seq<char>, Seq<u8>)> {
    let data = seq![(plan.dev_path@, plan.corrupt@)];
    let p = if plan.new_p@ != plan.p_before@ {
        seq![(plan.p_path@, plan.new_p@)]
    } else {
        Seq::empty()
    };
    let q = if plan.new_q@ != plan.q_before@ {
        seq![(plan.q_path@, plan.new_q@)]
    } else {
        Seq::empty()
    };
    let partner = match plan.partner {
        Some(pt) => seq![(pt.path@, pt.corrupt@)],
        None => Seq::empty(),
    };
    data + p + q + partner
}

fn block_write(path: &String, block: &Vec<u8>) -> (r: BlockWrite)
    ensures
        write_view(r) == (path@, block@),
{
    let copy = bytes::copy_range(block.as_slice(), 0, block.len());
    assert(copy@ =~= block@);
    BlockWrite { path: path.clone(), block: copy }
}

/// Lists what the plan writes: only the parity that changed is rewritten.
pub fn writes(plan: &Plan) -> (r: Vec<BlockWrite>)
    ensures
        r@.len() == plan_writes(*plan).len(),
        forall|i: int|
            0 <= i < r@.len() ==> write_view(#[trigger] r@[i]) == plan_writes(*plan)[i],
{
    let mut out: Vec<BlockWrite> = Vec::new();
    out.push(block_write(&plan.dev_path, &plan.corrupt));
    if !bytes::bytes_equal(plan.new_p.as_slice(), plan.p_before.as_slice()) {
        out.push(block_write(&plan.p_path, &plan.new_p));
    }
    if !bytes::bytes_equal(plan.new_q.as_slice(), plan.q_before.as_slice()) {
        out.push(block_write(&plan.q_path, &plan.new_q));
    }
    if let Some(pt) = &plan.partner {
        out.push(block_write(&pt.path, &pt.corrupt));
    }
    out
}

/// P that was recomputed from the corrupt data reproduces the corruption: P-only
/// recovery cannot succeed.
pub proof fn law_baked_p_reproduces_the_corruption<
    E,
    S: Fn(&String) -> Result<u64, E>,
    R: Fn(&String, u64, usize) -> Result<Vec<u8>, E>,
>(
    cfg: ArrayConfig,
    slot: u64,
    corrupt: Seq<u8>,
    array_phys: u64,
    size: S,
    read: R,
    blocks: Seq<(u64, Vec<u8>)>,
    k: int,
    p: Seq<u8>,
)
    requires
        parity::stripe_data::<E, S, R>(
            cfg,
            Some((slot, corrupt)),
            array_phys,
            BLOCK,
            size,
            read,
            blocks,
        ),
        laws::is_p_of(p, blocks),
        p.len() == corrupt.len(),
        0 <= k < cfg.disks().len(),
        cfg.disks()[k].0 == slot,
    ensures
        engine::p_candidate(blocks.remove(k), p) == corrupt,
{
    assert(parity::disk_block::<E, S, R>(
        cfg,
        Some((slot, corrupt)),
        array_phys,
        BLOCK,
        size,
        read,
        k,
        blocks[k],
    ));
    laws::law_p_recovers(blocks, k, p);
}

/// Q that was recomputed from the corrupt data reproduces the corruption: Q-only
/// recovery cannot succeed.
pub proof fn law_baked_q_reproduces_the_corruption<
    E,
    S: Fn(&String) -> Result<u64, E>,
    R: Fn(&String, u64, usize) -> Result<Vec<u8>, E>,
>(
    cfg: ArrayConfig,
    slot: u64,
    corrupt: Seq<u8>,
    array_phys: u64,
    size: S,
    read: R,
    blocks: Seq<(u64, Vec<u8>)>,
    k: int,
    q: Seq<u8>,
)
    requires
        parity::stripe_data::<E, S, R>(
            cfg,
            Some((slot, corrupt)),
            array_phys,
            BLOCK,
            size,
            read,
            blocks,
        ),
        laws::is_q_of(q, blocks),
        q.len() == corrupt.len(),
        0 <= k < cfg.disks().len(),
        cfg.disks()[k].0 == slot,
    ensures
        engine::q_candidate(blocks.remove(k), q, slot) == corrupt,
{
    assert(parity::disk_block::<E, S, R>(
        cfg,
        Some((slot, corrupt)),
        array_phys,
        BLOCK,
        size,
        read,
        k,
        blocks[k],
    ));
    laws::law_q_recovers(blocks, k, q);
}

} // verus!
