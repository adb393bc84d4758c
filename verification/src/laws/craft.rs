//! Crafted corruptions: which sector is hit, what changes on the disks, and what
//! restoring writes back.

use vstd::prelude::*;

use crate::array::config::ArrayConfig;
use crate::array::parity;
use crate::array::stripe;
use crate::btrfs::chunk::ChunkMap;
use crate::btrfs::extent::FileExtent;
use crate::craft;
use crate::craft::restore;
use crate::craft::restore::RestoreError;
use crate::craft::{
    ArgError, Choice, CraftError, CraftFlag, FileSector, Opts, Plan, Request, Targets,
};
use crate::hash;
use crate::laws::arguments;
use crate::laws::recovery;
use crate::laws::sector;
use crate::laws::text as number_text;
use crate::recovery::laws;

verus! {

// ---------------------------------------------------------------------------
// The sector
// ---------------------------------------------------------------------------

/// The whole sectors of 4096 bytes that an extent covers.
pub open spec fn whole_sectors(e: FileExtent) -> int {
    (e.num_bytes - e.num_bytes % 4096) / 4096
}

/// The whole sectors of the extents before extent `k`.
pub open spec fn sectors_ahead(extents: Seq<FileExtent>, k: int) -> int
    decreases k,
{
    if k <= 0 {
        0
    } else {
        whole_sectors(extents[k - 1]) + sectors_ahead(extents, k - 1)
    }
}

proof fn lemma_sectors_ahead(extents: Seq<FileExtent>, k: int)
    ensures
        craft::sectors_before(extents, k) == sectors_ahead(extents, k),
    decreases k,
{
    if k > 0 {
        lemma_sectors_ahead(extents, k - 1);
    }
}

/// A file's sectors are counted through its extents: sector `j` of an extent lies
/// `j` times 4096 bytes behind where the extent's data begins, and on the disk of
/// the chunk's first stripe, as far behind its start as behind the chunk's.
pub proof fn law_sector_lies_in_its_extent(
    extents: Seq<FileExtent>,
    sector: u64,
    chunk_map: ChunkMap,
    f: FileSector,
    held: int,
    i: int,
    k: int,
    j: int,
)
    requires
        craft::sector_at(extents, sector, chunk_map, f, held, i),
        0 <= k < extents.len(),
        0 <= j,
        4096 * j + 4096 <= extents[k].num_bytes,
        sector == sectors_ahead(extents, k) + j,
    ensures
        f.logical == extents[k].disk_bytenr + extents[k].offset + 4096 * j,
        f.inode == extents[k].inode,
        0 <= i < chunk_map@.len(),
        chunk_map@[i].begin <= f.logical < chunk_map@[i].end,
        f.devid == chunk_map@[i].stripes@[0].devid,
        f.array_phys == chunk_map@[i].stripes@[0].offset + (f.logical - chunk_map@[i].begin),
{
    lemma_sectors_ahead(extents, k);
    lemma_sectors_ahead(extents, k + 1);
    assert(sectors_ahead(extents, k + 1) == whole_sectors(extents[k]) + sectors_ahead(extents, k));
    assert(craft::sector_in(extents, sector, k));
    craft::law_sector_place_is_unique(extents, sector, held, k);
}

// ---------------------------------------------------------------------------
// Arguments
// ---------------------------------------------------------------------------

proof fn lemma_craft_flags_differ()
    ensures
        craft::flag_of("--sector"@) == Some(CraftFlag::Sector),
        craft::flag_of("--byte"@) == Some(CraftFlag::Byte),
        craft::flag_of("--flip"@) == Some(CraftFlag::Flip),
        craft::flag_of("--targets"@) == Some(CraftFlag::Targets),
        craft::flag_of("--partner"@) == Some(CraftFlag::Partner),
        craft::flag_of("--backup"@) == Some(CraftFlag::Backup),
        craft::flag_of("--restore"@) == Some(CraftFlag::Restore),
{
    reveal_strlit("--sector");
    reveal_strlit("--byte");
    reveal_strlit("--flip");
    reveal_strlit("--targets");
    reveal_strlit("--partner");
    reveal_strlit("--backup");
    reveal_strlit("--restore");
    assert("--sector"@[2] == 's');
    assert("--byte"@[2] == 'b' && "--byte"@[3] == 'y');
    assert("--flip"@[2] == 'f');
    assert("--targets"@[2] == 't');
    assert("--partner"@[2] == 'p');
    assert("--backup"@[2] == 'b' && "--backup"@[3] == 'a');
    assert("--restore"@[2] == 'r');
}

/// The name of a scenario.
pub open spec fn scenario(t: Targets) -> Seq<char> {
    match t {
        Targets::Data => "data"@,
        Targets::BakeP => "bake-p"@,
        Targets::BakeQ => "bake-q"@,
        Targets::BakeBoth => "bake-both"@,
        Targets::TwoDisk => "two-disk"@,
    }
}

/// Every scenario is read by its name, and no other text is one.
pub proof fn law_scenario_has_its_name(t: Targets, s: Seq<char>)
    ensures
        craft::targets_of(scenario(t)) == Some(t),
        craft::targets_of(s) is None <==> forall|u: Targets| s != #[trigger] scenario(u),
{
    reveal_strlit("data");
    reveal_strlit("bake-p");
    reveal_strlit("bake-q");
    reveal_strlit("bake-both");
    reveal_strlit("two-disk");
    assert("data"@.len() == 4);
    assert("bake-p"@.len() == 6 && "bake-p"@[5] == 'p');
    assert("bake-q"@.len() == 6 && "bake-q"@[5] == 'q');
    assert("bake-both"@.len() == 9);
    assert("two-disk"@.len() == 8);
    assert(s != scenario(Targets::Data) && s != scenario(Targets::BakeP) && s != scenario(
        Targets::BakeQ,
    ) && s != scenario(Targets::BakeBoth) && s != scenario(Targets::TwoDisk)
        ==> craft::targets_of(s) is None);
}

/// A flip mask is its hexadecimal number's low byte, with `0x` before it or
/// without.
pub proof fn law_flip_is_its_hexadecimal_number(t: Seq<char>, v: u64)
    requires
        arguments::digits_of(t, 16, v as int),
    ensures
        t.len() < 2 || t[1] != 'x' ==> craft::flip_of(t) == Ok::<u8, crate::text::IntError>(
            (v % 256) as u8,
        ),
        t.len() < 2 || t[1] != 'x' ==> craft::flip_of("0x"@ + t) == Ok::<
            u8,
            crate::text::IntError,
        >((v % 256) as u8),
{
    reveal_strlit("0x");
    number_text::law_text_is_read_as_its_number(t, 16, u64::MAX as nat);
    let s = "0x"@ + t;
    assert(s.skip(2) =~= t);
    assert(craft::strip_0x(s) == craft::strip_0x(t));
}

/// Each option sets what it names, to what its value says, and nothing else.
pub proof fn law_craft_option_sets_what_it_names(
    args: Seq<String>,
    i: int,
    c: Choice,
    plain: Seq<Seq<char>>,
    r: Result<Request, ArgError>,
    v: u64,
    t: Targets,
)
    requires
        0 <= i < args.len() - 1,
        craft::requests(args, i, c, plain, r),
    ensures
        ({
            let value = args[i + 1]@;
            let number = arguments::digits_of(value, 10, v as int);
            &&& args[i]@ == "--sector"@ && number && v <= usize::MAX ==> craft::requests(
                args,
                i + 2,
                Choice { sector: v as nat, ..c },
                plain,
                r,
            )
            &&& args[i]@ == "--byte"@ && number && v <= usize::MAX ==> craft::requests(
                args,
                i + 2,
                Choice { byte_offset: v as nat, ..c },
                plain,
                r,
            )
            &&& args[i]@ == "--partner"@ && number ==> craft::requests(
                args,
                i + 2,
                Choice { partner_slot: Some(v), ..c },
                plain,
                r,
            )
            &&& args[i]@ == "--targets"@ && value == scenario(t) ==> craft::requests(
                args,
                i + 2,
                Choice { targets: t, ..c },
                plain,
                r,
            )
            &&& args[i]@ == "--flip"@ && craft::flip_of(value) == Ok::<
                u8,
                crate::text::IntError,
            >((v % 256) as u8) ==> craft::requests(
                args,
                i + 2,
                Choice { flip: (v % 256) as u8, ..c },
                plain,
                r,
            )
            &&& args[i]@ == "--backup"@ ==> craft::requests(
                args,
                i + 2,
                Choice { backup: Some(value), ..c },
                plain,
                r,
            )
            &&& args[i]@ == "--restore"@ ==> craft::requests(
                args,
                i + 2,
                Choice { restore: Some(value), ..c },
                plain,
                r,
            )
        }),
{
    lemma_craft_flags_differ();
    law_scenario_has_its_name(t, args[i + 1]@);
    number_text::law_text_is_read_as_its_number(args[i + 1]@, 10, usize::MAX as nat);
    number_text::law_text_is_read_as_its_number(args[i + 1]@, 10, u64::MAX as nat);
}

/// Where only a device and a file are named, byte 100 of the file's first sector
/// is flipped by 0x5a and P is baked in; the two are taken in that order.
pub proof fn law_two_arguments_are_device_and_file(
    args: Seq<String>,
    r: Result<Request, ArgError>,
)
    requires
        args.len() == 2,
        forall|i: int|
            0 <= i < 2 ==> (#[trigger] args[i])@.len() == 0 || args[i]@[0] != '-',
        craft::requests(args, 0, Choice::initial(), Seq::empty(), r),
    ensures
        r matches Ok(q) && {
            &&& q.dev@ == args[0]@
            &&& q.file_path@ == args[1]@
            &&& q.opts.sector == 0
            &&& q.opts.byte_offset == 100
            &&& q.opts.flip == 0x5a
            &&& q.opts.targets is BakeP
            &&& q.opts.partner_slot is None
            &&& q.opts.backup is None
            &&& q.opts.restore is None
        },
{
    reveal_strlit("--sector");
    reveal_strlit("--byte");
    reveal_strlit("--flip");
    reveal_strlit("--targets");
    reveal_strlit("--partner");
    reveal_strlit("--backup");
    reveal_strlit("--restore");
    reveal_strlit("-h");
    reveal_strlit("--help");
    reveal_strlit("--");
    assert("--sector"@[0] == '-' && "--byte"@[0] == '-' && "--flip"@[0] == '-' && "--targets"@[0]
        == '-' && "--partner"@[0] == '-' && "--backup"@[0] == '-' && "--restore"@[0] == '-'
        && "-h"@[0] == '-' && "--help"@[0] == '-' && "--"@[0] == '-');
    let none = Seq::<Seq<char>>::empty();
    let c = Choice::initial();
    assert forall|i: int| 0 <= i < 2 implies craft::flag_of((#[trigger] args[i])@) is None
        && args[i]@ != "-h"@ && args[i]@ != "--help"@ && !craft::is_option(args[i]@) by {
        if craft::is_option(args[i]@) {
            assert(args[i]@.take(2)[0] == args[i]@[0]);
        }
    }
    assert(craft::flag_of(args[0]@) is None);
    assert(craft::requests(args, 1, c, none.push(args[0]@), r));
    assert(craft::flag_of(args[1]@) is None);
    assert(craft::requests(args, 2, c, none.push(args[0]@).push(args[1]@), r));
}

// ---------------------------------------------------------------------------
// The corruption
// ---------------------------------------------------------------------------

/// `b` is `a` but for one byte, which is flipped by the mask.
pub open spec fn one_byte_flipped(a: Seq<u8>, b: Seq<u8>, at: int, mask: u8) -> bool {
    &&& a.len() == b.len()
    &&& 0 <= at < a.len()
    &&& b[at] == a[at] ^ mask
    &&& forall|i: int| 0 <= i < a.len() && i != at ==> b[i] == #[trigger] a[i]
}

/// The data disks of a stripe hold these blocks, and its parity disks these.
pub open spec fn array_holds<
    E,
    S: Fn(&String) -> Result<u64, E>,
    R: Fn(&String, u64, usize) -> Result<Vec<u8>, E>,
>(
    cfg: ArrayConfig,
    array_phys: u64,
    size: S,
    read: R,
    blocks: Seq<Seq<u8>>,
) -> bool {
    &&& blocks.len() == cfg.disks().len()
    &&& forall|k: int|
        0 <= k < cfg.disks().len() ==> (#[trigger] cfg.disks()[k]).0 <= 0x7fff_ffff
            && recovery::disk_holds(
            cfg,
            &cfg.disks()[k].1,
            array_phys,
            4096,
            size,
            read,
            blocks[k],
        )
}

proof fn lemma_stripe_parity<
    E,
    S: Fn(&String) -> Result<u64, E>,
    R: Fn(&String, u64, usize) -> Result<Vec<u8>, E>,
>(
    cfg: ArrayConfig,
    over: Option<(u64, Seq<u8>)>,
    array_phys: u64,
    size: S,
    read: R,
    blocks: Seq<Seq<u8>>,
    f: int,
    p: Seq<u8>,
    q: Seq<u8>,
)
    requires
        array_holds(cfg, array_phys, size, read, blocks),
        over is Some ==> 0 <= f < cfg.disks().len() && cfg.disks()[f].0 == over.unwrap().0
            && forall|k: int|
            0 <= k < cfg.disks().len() && k != f ==> (#[trigger] cfg.disks()[k]).0
                != over.unwrap().0,
    ensures
        ({
            let now = if over is Some {
                blocks.update(f, over.unwrap().1)
            } else {
                blocks
            };
            &&& craft::p_of_stripe::<E, S, R>(cfg, over, array_phys, size, read, p)
                ==> recovery::p_equation(now, p)
            &&& craft::q_of_stripe::<E, S, R>(cfg, over, array_phys, size, read, q)
                ==> recovery::q_equation(recovery::slots_of(cfg), now, q)
        }),
{
    let now = if over is Some {
        blocks.update(f, over.unwrap().1)
    } else {
        blocks
    };
    if craft::p_of_stripe::<E, S, R>(cfg, over, array_phys, size, read, p) {
        let data = choose|data: Seq<(u64, Vec<u8>)>| #[trigger]
            parity::stripe_data::<E, S, R>(cfg, over, array_phys, 4096, size, read, data)
                && laws::is_p_of(p, data);
        sector::law_computed_parity_satisfies_the_equation(
            cfg,
            over,
            array_phys,
            4096,
            size,
            read,
            now,
            data,
            p,
            q,
        );
    }
    if craft::q_of_stripe::<E, S, R>(cfg, over, array_phys, size, read, q) {
        let data = choose|data: Seq<(u64, Vec<u8>)>| #[trigger]
            parity::stripe_data::<E, S, R>(cfg, over, array_phys, 4096, size, read, data)
                && laws::is_q_of(q, data);
        sector::law_computed_parity_satisfies_the_equation(
            cfg,
            over,
            array_phys,
            4096,
            size,
            read,
            now,
            data,
            p,
            q,
        );
    }
}

/// A plan changes one byte of what the slot's disk holds. Parity that is baked in
/// satisfies its equation with the corrupt block in place of the disk's; parity
/// that is not stays what it is on its disk. The parity that is expected satisfies
/// the equation with what the disks hold.
#[verifier::rlimit(40)]
pub proof fn law_plan_corrupts_one_byte<
    E,
    S: Fn(&String) -> Result<u64, E>,
    R: Fn(&String, u64, usize) -> Result<Vec<u8>, E>,
>(
    cfg: ArrayConfig,
    slot: u64,
    array_phys: u64,
    opts: Opts,
    size: S,
    read: R,
    plan: Plan,
    blocks: Seq<Seq<u8>>,
    f: int,
    p: Seq<u8>,
    q: Seq<u8>,
)
    requires
        craft::planned::<E, S, R>(cfg, slot, array_phys, opts, size, read, plan),
        opts.byte_offset < 4096,
        array_holds(cfg, array_phys, size, read, blocks),
        0 <= f < cfg.disks().len(),
        cfg.disks()[f].0 == slot,
        cfg.disks()[f].1@ == plan.dev_path@,
        forall|k: int|
            0 <= k < cfg.disks().len() && k != f ==> (#[trigger] cfg.disks()[k]).0 != slot,
        recovery::disk_holds(cfg, &plan.dev_path, array_phys, 4096, size, read, blocks[f]),
        recovery::disk_holds(cfg, &plan.p_path, array_phys, 4096, size, read, p),
        recovery::disk_holds(cfg, &plan.q_path, array_phys, 4096, size, read, q),
    ensures
        plan.orig@ == blocks[f],
        one_byte_flipped(blocks[f], plan.corrupt@, opts.byte_offset as int, opts.flip),
        recovery::p_equation(blocks, plan.p_expected@),
        recovery::q_equation(recovery::slots_of(cfg), blocks, plan.q_expected@),
        opts.targets is BakeP || opts.targets is BakeBoth ==> recovery::p_equation(
            blocks.update(f, plan.corrupt@),
            plan.new_p@,
        ),
        opts.targets is Data || opts.targets is BakeQ || opts.targets is TwoDisk ==> plan.new_p@
            == p,
        opts.targets is BakeQ || opts.targets is BakeBoth ==> recovery::q_equation(
            recovery::slots_of(cfg),
            blocks.update(f, plan.corrupt@),
            plan.new_q@,
        ),
        opts.targets is Data || opts.targets is BakeP || opts.targets is TwoDisk ==> plan.new_q@
            == q,
{
    recovery::lemma_disk_holds(
        cfg,
        &plan.dev_path,
        array_phys,
        4096,
        size,
        read,
        blocks[f],
        Ok::<Vec<u8>, E>(plan.orig),
    );
    recovery::lemma_disk_holds(
        cfg,
        &plan.p_path,
        array_phys,
        4096,
        size,
        read,
        p,
        Ok::<Vec<u8>, E>(plan.p_before),
    );
    recovery::lemma_disk_holds(
        cfg,
        &plan.q_path,
        array_phys,
        4096,
        size,
        read,
        q,
        Ok::<Vec<u8>, E>(plan.q_before),
    );
    lemma_stripe_parity(
        cfg,
        None,
        array_phys,
        size,
        read,
        blocks,
        f,
        plan.p_expected@,
        plan.q_expected@,
    );
    lemma_stripe_parity(
        cfg,
        Some((slot, plan.corrupt@)),
        array_phys,
        size,
        read,
        blocks,
        f,
        plan.new_p@,
        plan.new_q@,
    );
}

/// A partner is planned just for the two-disk scenario: it is the disk that was
/// asked for, or else the lowest-listed other one, and one byte of it changes,
/// the one behind the target's, by another mask.
pub proof fn law_partner_is_another_disk<
    E,
    S: Fn(&String) -> Result<u64, E>,
    R: Fn(&String, u64, usize) -> Result<Vec<u8>, E>,
>(
    cfg: ArrayConfig,
    slot: u64,
    array_phys: u64,
    opts: Opts,
    size: S,
    read: R,
    plan: Plan,
    held: Seq<u8>,
)
    requires
        craft::planned::<E, S, R>(cfg, slot, array_phys, opts, size, read, plan),
        opts.byte_offset < 4096,
        plan.partner matches Some(pt) ==> recovery::disk_holds(
            cfg,
            &pt.path,
            array_phys,
            4096,
            size,
            read,
            held,
        ),
    ensures
        plan.partner is Some <==> opts.targets is TwoDisk,
        plan.partner matches Some(pt) ==> {
            &&& opts.partner_slot matches Some(s) ==> pt.slot == s
            &&& opts.partner_slot is None ==> pt.slot != slot && exists|k: int|
                0 <= k < cfg.disks().len() && (#[trigger] cfg.disks()[k]).0 == pt.slot
                    && forall|j: int| 0 <= j < k ==> (#[trigger] cfg.disks()[j]).0 == slot
            &&& pt.orig@ == held
            &&& one_byte_flipped(
                held,
                pt.corrupt@,
                if opts.byte_offset == 4095 {
                    0
                } else {
                    opts.byte_offset + 1
                },
                opts.flip ^ 1,
            )
        },
{
    if plan.partner is Some {
        let pt = plan.partner.unwrap();
        recovery::lemma_disk_holds(
            cfg,
            &pt.path,
            array_phys,
            4096,
            size,
            read,
            held,
            Ok::<Vec<u8>, E>(pt.orig),
        );
        if opts.partner_slot is None {
            let k = choose|k: int| #[trigger]
                craft::first_other(cfg, slot, k) && pt.slot == cfg.disks()[k].0;
            assert(cfg.disks()[k].0 == pt.slot);
        }
    }
}

/// The corrupt block is always written first, parity just where it changed, P
/// before Q, and the corrupt partner last; nothing else is written.
pub proof fn law_plan_writes_what_changed(plan: Plan)
    ensures
        ({
            let w = craft::plan_writes(plan);
            let p: int = if plan.new_p@ == plan.p_before@ {
                0
            } else {
                1
            };
            let q: int = if plan.new_q@ == plan.q_before@ {
                0
            } else {
                1
            };
            let partner: int = if plan.partner is Some {
                1
            } else {
                0
            };
            &&& w.len() == 1 + p + q + partner
            &&& w[0] == (plan.dev_path@, plan.corrupt@)
            &&& plan.new_p@ != plan.p_before@ ==> w[1] == (plan.p_path@, plan.new_p@)
            &&& plan.new_q@ != plan.q_before@ ==> w[1 + p] == (plan.q_path@, plan.new_q@)
            &&& plan.partner matches Some(pt) ==> w[1 + p + q] == (pt.path@, pt.corrupt@)
        }),
{
}

// ---------------------------------------------------------------------------
// Restoring
// ---------------------------------------------------------------------------

/// The block was written to the disk where the stripe lies on it: the disk's own
/// offset and the stripe's added up.
pub open spec fn stored<E, W: Fn(&String, u64, &[u8]) -> Result<(), E>>(
    cfg: ArrayConfig,
    path: &String,
    array_phys: u64,
    write: W,
    block: Seq<u8>,
) -> bool {
    exists|s: &[u8], at: u64|
        s@ == block && at == array_phys + cfg.offset(path@) && #[trigger] call_ensures(
            write,
            (path, at, s),
            Ok::<(), E>(()),
        )
}

/// A restored block was written to a disk in its slot, at the stripe's place.
pub proof fn law_saved_block_is_written_back<E, W: Fn(&String, u64, &[u8]) -> Result<(), E>>(
    cfg: ArrayConfig,
    slot: u64,
    array_phys: u64,
    saved: Seq<u8>,
    write: W,
) -> (k: int)
    requires
        restore::data_back::<E, W>(cfg, slot, array_phys, saved, write),
        stripe::offset_fits(cfg, array_phys),
    ensures
        saved.len() == 4096,
        0 <= k < cfg.disks().len(),
        cfg.disks()[k].0 == slot,
        stored::<E, W>(cfg, &cfg.disks()[k].1, array_phys, write, saved),
{
    let k = choose|k: int|
        {
            &&& 0 <= k < cfg.disks().len()
            &&& (#[trigger] cfg.disks()[k]).0 == slot
            &&& restore::written(
                cfg,
                &cfg.disks()[k].1,
                array_phys,
                saved,
                write,
                Ok::<(), E>(()),
            )
        };
    let path = cfg.disks()[k].1;
    assert(array_phys + cfg.offset(path@) <= u64::MAX);
    k
}

/// The corrupted partner is the first other disk whose block is no longer the
/// saved one; there is none just where every other disk still holds it.
pub proof fn law_partner_is_the_first_that_differs<
    E,
    S: Fn(&String) -> Result<u64, E>,
    R: Fn(&String, u64, usize) -> Result<Vec<u8>, E>,
>(
    cfg: ArrayConfig,
    slot: u64,
    array_phys: u64,
    size: S,
    read: R,
    saved: Seq<u8>,
    blocks: Seq<Seq<u8>>,
    k: int,
)
    requires
        blocks.len() == cfg.disks().len(),
        forall|j: int|
            0 <= j < cfg.disks().len() && (#[trigger] cfg.disks()[j]).0 != slot
                ==> recovery::disk_holds(
                cfg,
                &cfg.disks()[j].1,
                array_phys,
                4096,
                size,
                read,
                blocks[j],
            ),
    ensures
        restore::is_partner::<E, S, R>(cfg, slot, array_phys, size, read, saved, k) ==> {
            &&& cfg.disks()[k].0 != slot
            &&& blocks[k] != saved
            &&& forall|j: int|
                0 <= j < k && cfg.disks()[j].0 != slot ==> #[trigger] blocks[j] == saved
        },
        restore::no_partner_before::<E, S, R>(
            cfg,
            slot,
            array_phys,
            size,
            read,
            saved,
            cfg.disks().len() as int,
        ) ==> forall|j: int|
            0 <= j < cfg.disks().len() && cfg.disks()[j].0 != slot ==> #[trigger] blocks[j]
                == saved,
{
    assert forall|j: int|
        0 <= j < cfg.disks().len() && cfg.disks()[j].0 != slot && restore::not_partner::<E, S, R>(
            cfg,
            slot,
            array_phys,
            size,
            read,
            saved,
            j,
        ) implies #[trigger] blocks[j] == saved by {
        let out = choose|out: Result<Vec<u8>, E>| #[trigger]
            stripe::block_read(cfg, &cfg.disks()[j].1, array_phys, 4096, size, read, out)
                && match out {
                Ok(b) => b@ == saved,
                Err(_) => true,
            };
        recovery::lemma_disk_holds(
            cfg,
            &cfg.disks()[j].1,
            array_phys,
            4096,
            size,
            read,
            blocks[j],
            out,
        );
    }
    if restore::is_partner::<E, S, R>(cfg, slot, array_phys, size, read, saved, k) {
        let b = choose|b: Vec<u8>| #[trigger]
            stripe::block_read(
                cfg,
                &cfg.disks()[k].1,
                array_phys,
                4096,
                size,
                read,
                Ok::<Vec<u8>, E>(b),
            ) && b@ != saved;
        recovery::lemma_disk_holds(
            cfg,
            &cfg.disks()[k].1,
            array_phys,
            4096,
            size,
            read,
            blocks[k],
            Ok::<Vec<u8>, E>(b),
        );
        assert forall|j: int| 0 <= j < k && cfg.disks()[j].0 != slot implies #[trigger] blocks[j]
            == saved by {
            assert(restore::not_partner::<E, S, R>(cfg, slot, array_phys, size, read, saved, j));
        }
    }
    if restore::no_partner_before::<E, S, R>(
        cfg,
        slot,
        array_phys,
        size,
        read,
        saved,
        cfg.disks().len() as int,
    ) {
        assert forall|j: int|
            0 <= j < cfg.disks().len() && cfg.disks()[j].0 != slot implies #[trigger] blocks[j]
            == saved by {
            assert(restore::not_partner::<E, S, R>(cfg, slot, array_phys, size, read, saved, j));
        }
    }
}

/// The parity that a restoration leaves on its disks satisfies the equations with
/// what the data disks then hold.
pub proof fn law_restored_parity_fits_the_disks<
    E,
    S: Fn(&String) -> Result<u64, E>,
    R: Fn(&String, u64, usize) -> Result<Vec<u8>, E>,
    W: Fn(&String, u64, &[u8]) -> Result<(), E>,
>(
    cfg: ArrayConfig,
    array_phys: u64,
    size: S,
    read: R,
    write: W,
    blocks: Seq<Seq<u8>>,
) -> (r: (Seq<u8>, Seq<u8>))
    requires
        restore::parity_written::<E, S, R, W>(
            cfg,
            array_phys,
            size,
            read,
            write,
            Ok::<(), E>(()),
            Some(Ok::<(), E>(())),
        ),
        stripe::offset_fits(cfg, array_phys),
        array_holds(cfg, array_phys, size, read, blocks),
    ensures
        recovery::p_equation(blocks, r.0),
        recovery::q_equation(recovery::slots_of(cfg), blocks, r.1),
        cfg.parity_p matches Some(path) ==> stored::<E, W>(cfg, &path, array_phys, write, r.0),
        cfg.parity_q matches Some(path) ==> stored::<E, W>(cfg, &path, array_phys, write, r.1),
{
    let (p, q) = choose|p: Seq<u8>, q: Seq<u8>|
        {
            &&& #[trigger] restore::fresh_p::<E, S, R>(cfg, array_phys, size, read, p)
            &&& #[trigger] restore::fresh_q::<E, S, R>(cfg, array_phys, size, read, q)
            &&& restore::p_written(cfg, array_phys, write, p, Ok::<(), E>(()))
            &&& restore::q_written(cfg, array_phys, write, q, Ok::<(), E>(()))
        };
    assert(craft::p_of_stripe::<E, S, R>(cfg, None, array_phys, size, read, p));
    assert(craft::q_of_stripe::<E, S, R>(cfg, None, array_phys, size, read, q));
    lemma_stripe_parity(cfg, None, array_phys, size, read, blocks, 0, p, q);
    (p, q)
}

/// A partner that was restored got the block that was saved of it, on the first
/// other disk that no longer held it; where nothing was saved, or every other disk
/// still holds it, none was.
pub proof fn law_partner_gets_its_block_back<
    E,
    S: Fn(&String) -> Result<u64, E>,
    R: Fn(&String, u64, usize) -> Result<Vec<u8>, E>,
    W: Fn(&String, u64, &[u8]) -> Result<(), E>,
    B: Fn() -> Result<Option<Vec<u8>>, E>,
>(
    cfg: ArrayConfig,
    slot: u64,
    array_phys: u64,
    size: S,
    read: R,
    write: W,
    partner_backup: B,
    restored: Option<u64>,
    saved: Seq<u8>,
    blocks: Seq<Seq<u8>>,
    k: int,
)
    requires
        restore::partner_settled::<E, S, R, W, B>(
            cfg,
            slot,
            array_phys,
            size,
            read,
            write,
            partner_backup,
            restored,
        ),
        stripe::offset_fits(cfg, array_phys),
        forall|got: Result<Option<Vec<u8>>, E>| #[trigger]
            call_ensures(partner_backup, (), got) ==> (got matches Ok(Some(b)) && b@ == saved),
        blocks.len() == cfg.disks().len(),
        forall|j: int|
            0 <= j < cfg.disks().len() && (#[trigger] cfg.disks()[j]).0 != slot
                ==> recovery::disk_holds(
                cfg,
                &cfg.disks()[j].1,
                array_phys,
                4096,
                size,
                read,
                blocks[j],
            ),
        0 <= k < cfg.disks().len(),
        cfg.disks()[k].0 != slot,
        blocks[k] != saved,
        forall|j: int| 0 <= j < k && cfg.disks()[j].0 != slot ==> #[trigger] blocks[j] == saved,
    ensures
        restored == Some(cfg.disks()[k].0),
        stored::<E, W>(cfg, &cfg.disks()[k].1, array_phys, write, saved),
{
    let b = choose|b: Vec<u8>|
        {
            &&& #[trigger] call_ensures(partner_backup, (), Ok::<Option<Vec<u8>>, E>(Some(b)))
            &&& b@.len() == 4096
            &&& match restored {
                None => restore::no_partner_before::<E, S, R>(
                    cfg,
                    slot,
                    array_phys,
                    size,
                    read,
                    b@,
                    cfg.disks().len() as int,
                ),
                Some(t) => restore::partner_written::<E, S, R, W>(
                    cfg,
                    slot,
                    array_phys,
                    size,
                    read,
                    write,
                    b@,
                    t,
                    Ok::<(), E>(()),
                ),
            }
        };
    assert(b@ == saved);
    law_partner_is_the_first_that_differs(cfg, slot, array_phys, size, read, saved, blocks, k);
    let x = blocks[k];
    if let Some(t) = restored {
        let m = choose|m: int| #[trigger]
            restore::is_partner::<E, S, R>(cfg, slot, array_phys, size, read, saved, m)
                && cfg.disks()[m].0 == t && restore::written(
                cfg,
                &cfg.disks()[m].1,
                array_phys,
                saved,
                write,
                Ok::<(), E>(()),
            );
        law_partner_is_the_first_that_differs(cfg, slot, array_phys, size, read, saved, blocks, m);
        if m < k {
            assert(blocks[m] == saved);
        } else if k < m {
            assert(blocks[k] == saved);
        }
        let path = cfg.disks()[k].1;
        assert(array_phys + cfg.offset(path@) <= u64::MAX);
    }
}

/// A restoration has no reason to stop where the slot has a disk, the saved blocks
/// are whole, the disks can be read and every write succeeds.
pub proof fn law_sound_restoration_does_not_stop<
    E,
    S: Fn(&String) -> Result<u64, E>,
    R: Fn(&String, u64, usize) -> Result<Vec<u8>, E>,
    A: Fn(&String, u64, usize) -> Result<Vec<u8>, E>,
    W: Fn(&String, u64, &[u8]) -> Result<(), E>,
    B: Fn() -> Result<Option<Vec<u8>>, E>,
>(
    cfg: ArrayConfig,
    slot: u64,
    array_phys: u64,
    saved: Seq<u8>,
    size: S,
    read: R,
    reread: A,
    write: W,
    partner_backup: B,
    e: RestoreError<E>,
)
    requires
        cfg.dev(slot) is Some,
        saved.len() == 4096,
        forall|path: &String, at: u64, block: &[u8], x: E| !#[trigger]
            call_ensures(write, (path, at, block), Err::<(), E>(x)),
        forall|x: E| !#[trigger] call_ensures(partner_backup, (), Err::<Option<Vec<u8>>, E>(x)),
        forall|b: Vec<u8>| #[trigger]
            call_ensures(partner_backup, (), Ok::<Option<Vec<u8>>, E>(Some(b))) ==> b@.len()
                == 4096,
        forall|x: E| !#[trigger]
            parity::stripe_error::<E, S, A>(cfg, None, array_phys, 4096, size, reread, x),
    ensures
        !restore::stopped::<E, S, R, A, W, B>(
            cfg,
            slot,
            array_phys,
            saved,
            size,
            read,
            reread,
            write,
            partner_backup,
            e,
        ),
{
}

/// A saved block of the wrong length is refused as that, and a slot without a disk
/// as that.
pub proof fn law_unfit_restoration_is_refused_as_such<
    E,
    S: Fn(&String) -> Result<u64, E>,
    R: Fn(&String, u64, usize) -> Result<Vec<u8>, E>,
    A: Fn(&String, u64, usize) -> Result<Vec<u8>, E>,
    W: Fn(&String, u64, &[u8]) -> Result<(), E>,
    B: Fn() -> Result<Option<Vec<u8>>, E>,
>(
    cfg: ArrayConfig,
    slot: u64,
    array_phys: u64,
    saved: Seq<u8>,
    size: S,
    read: R,
    reread: A,
    write: W,
    partner_backup: B,
    e: RestoreError<E>,
)
    requires
        restore::stopped::<E, S, R, A, W, B>(
            cfg,
            slot,
            array_phys,
            saved,
            size,
            read,
            reread,
            write,
            partner_backup,
            e,
        ),
        saved.len() != 4096,
    ensures
        cfg.dev(slot) is Some ==> (e matches RestoreError::BadBackup { len } && len
            == saved.len()),
        e is NotInArray <==> cfg.dev(slot) is None,
{
}

/// A corruption is refused for its checksum only where the block that was read
/// keeps its checksum when the byte is flipped; for a missing parity disk only
/// where it is missing; and as outside the array just where no disk is in the
/// slot.
pub proof fn law_refused_corruption_has_its_reason<
    E,
    S: Fn(&String) -> Result<u64, E>,
    R: Fn(&String, u64, usize) -> Result<Vec<u8>, E>,
>(
    cfg: ArrayConfig,
    slot: u64,
    array_phys: u64,
    opts: Opts,
    size: S,
    read: R,
    e: CraftError<E>,
)
    requires
        craft::refused::<E, S, R>(cfg, slot, array_phys, opts, size, read, e),
    ensures
        e is NotInArray ==> cfg.dev(slot) is None,
        e is NoP ==> cfg.parity_p is None,
        e is NoQ ==> cfg.parity_q is None,
        e is SameChecksum ==> exists|path: String, b: Vec<u8>|
            {
                &&& #[trigger] stripe::block_read(
                    cfg,
                    &path,
                    array_phys,
                    4096,
                    size,
                    read,
                    Ok::<Vec<u8>, E>(b),
                )
                &&& cfg.dev(slot) == Some(path@)
                &&& keeps_checksum(b@, opts.byte_offset as int, opts.flip)
            },
{
    if e is SameChecksum {
        let (path, b) = choose|path: String, b: Vec<u8>| #[trigger]
            craft::same_checksum::<E, S, R>(
                cfg,
                slot,
                array_phys,
                size,
                read,
                opts.byte_offset as int,
                opts.flip,
                path,
                b,
            );
        assert(craft::same_checksum::<E, S, R>(
            cfg,
            slot,
            array_phys,
            size,
            read,
            opts.byte_offset as int,
            opts.flip,
            path,
            b,
        ));
        assert(stripe::block_read(
            cfg,
            &path,
            array_phys,
            4096,
            size,
            read,
            Ok::<Vec<u8>, E>(b),
        ));
        assert(keeps_checksum(b@, opts.byte_offset as int, opts.flip));
    }
}

/// Flipping the byte does not change the block's checksum.
pub open spec fn keeps_checksum(block: Seq<u8>, at: int, mask: u8) -> bool {
    hash::crc32c_of(block.update(at, block[at] ^ mask)) == hash::crc32c_of(block)
}

} // verus!
