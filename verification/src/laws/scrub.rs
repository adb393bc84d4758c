//! The scrub: which sectors it reports, and what it counts.

use vstd::prelude::*;

use crate::btrfs::csum::CsumEntry;
use crate::btrfs::csum_strategy::CsumStrategy;
use crate::btrfs::dev_extent::DevExtent;
use crate::btrfs::isolate;
use crate::btrfs::scrub;
use crate::btrfs::scrub::{ReadCmd, ReadRsp, RunFindings, ScrubStats, SectorResult, Settled};
use crate::btrfs::scrub_run;
use crate::btrfs::scrub_run::{ExtentTrace, RunDone, RunTrace, ScrubEnv, Tell};
use crate::btrfs::chunk::ChunkMap;
use crate::fs::Reconfirm;

verus! {

// ---------------------------------------------------------------------------
// One buffer
// ---------------------------------------------------------------------------

/// Sector `i` of the buffer has the checksum that is stored for it.
pub open spec fn intact(
    strategy: CsumStrategy,
    buf: Seq<u8>,
    entries: Seq<CsumEntry>,
    first: int,
    i: int,
) -> bool {
    strategy.csum(
        buf.subrange(i * strategy.sector_size, i * strategy.sector_size + strategy.sector_size),
    ) == entries[first + i].csum@
}

/// How many of the buffer's first `n` sectors have their stored checksum.
pub open spec fn intact_count(
    strategy: CsumStrategy,
    buf: Seq<u8>,
    entries: Seq<CsumEntry>,
    first: int,
    n: int,
) -> int
    decreases n,
{
    if n <= 0 {
        0
    } else {
        intact_count(strategy, buf, entries, first, n - 1) + if intact(
            strategy,
            buf,
            entries,
            first,
            n - 1,
        ) {
            1int
        } else {
            0
        }
    }
}

/// The result tells of this entry, and of what its sector's checksum really is.
pub open spec fn tells_of(
    r: SectorResult,
    dext: DevExtent,
    e: CsumEntry,
    actual: Seq<u8>,
) -> bool {
    &&& r.logical == e.logical
    &&& r.devid == dext.devid
    &&& r.array_phys == dext.phys_start + (e.logical - dext.chunk_offset)
    &&& r.stored_csum is Some
    &&& r.stored_csum.unwrap()@ == e.csum@
    &&& r.actual_csum@ == actual
    &&& !r.ok
}

/// `at` are the sectors that the results tell of, one after the other: those
/// that do not have their stored checksum, all of them and no others.
pub open spec fn told_at(
    at: Seq<int>,
    found: Seq<SectorResult>,
    strategy: CsumStrategy,
    dext: DevExtent,
    buf: Seq<u8>,
    entries: Seq<CsumEntry>,
    first: int,
    n: int,
) -> bool {
    &&& at.len() == found.len()
    &&& forall|a: int, b: int| 0 <= a < b < at.len() ==> #[trigger] at[a] < #[trigger] at[b]
    &&& forall|j: int|
        0 <= j < at.len() ==> {
            &&& 0 <= #[trigger] at[j] < n
            &&& !intact(strategy, buf, entries, first, at[j])
            &&& !found[j].unreadable
            &&& tells_of(
                found[j],
                dext,
                entries[first + at[j]],
                strategy.csum(
                    buf.subrange(
                        at[j] * strategy.sector_size,
                        at[j] * strategy.sector_size + strategy.sector_size,
                    ),
                ),
            )
        }
    &&& forall|i: int|
        0 <= i < n && !#[trigger] intact(strategy, buf, entries, first, i) ==> at.contains(i)
}

/// The results that verifying a buffer adds tell, in order, of the sectors whose
/// checksum is not the stored one: of each of them once, and of no other. The
/// others are counted as good.
pub proof fn law_mismatches_are_told_one_by_one(
    found: Seq<SectorResult>,
    strategy: CsumStrategy,
    dext: DevExtent,
    buf: Seq<u8>,
    entries: Seq<CsumEntry>,
    first: int,
    n: int,
) -> (at: Seq<int>)
    requires
        n >= 0,
        scrub::region_reports(found, strategy, dext, buf, entries, first, n),
    ensures
        told_at(at, found, strategy, dext, buf, entries, first, n),
        found.len() + intact_count(strategy, buf, entries, first, n) == n,
    decreases n,
{
    if n == 0 {
        Seq::empty()
    } else {
        let here = !intact(strategy, buf, entries, first, n - 1);
        if here {
            let front = found.drop_last();
            let before = law_mismatches_are_told_one_by_one(
                front,
                strategy,
                dext,
                buf,
                entries,
                first,
                n - 1,
            );
            let at = before.push(n - 1);
            assert forall|j: int| 0 <= j < at.len() implies {
                &&& 0 <= #[trigger] at[j] < n
                &&& !intact(strategy, buf, entries, first, at[j])
                &&& !found[j].unreadable
                &&& tells_of(
                    found[j],
                    dext,
                    entries[first + at[j]],
                    strategy.csum(
                        buf.subrange(
                            at[j] * strategy.sector_size,
                            at[j] * strategy.sector_size + strategy.sector_size,
                        ),
                    ),
                )
            } by {
                if j < before.len() {
                    assert(at[j] == before[j]);
                    assert(front[j] == found[j]);
                } else {
                    assert(entries[first + at[j]] == entries[first + n - 1]);
                    assert(found[j] == found.last());
                }
            }
            assert forall|i: int|
                0 <= i < n && !#[trigger] intact(
                    strategy,
                    buf,
                    entries,
                    first,
                    i,
                ) implies at.contains(i) by {
                if i < n - 1 {
                    let j = choose|j: int| 0 <= j < before.len() && before[j] == i;
                    assert(at[j] == i);
                } else {
                    assert(at[before.len() as int] == i);
                }
            }
            at
        } else {
            law_mismatches_are_told_one_by_one(found, strategy, dext, buf, entries, first, n - 1)
        }
    }
}

/// The sector of entry `k` is told of, with its address and both checksums, if
/// and only if its checksum is not the stored one. Where no other sector of the
/// buffer has its address, the address alone tells it.
pub proof fn law_sector_is_told_of_iff_it_mismatches(
    found: Seq<SectorResult>,
    strategy: CsumStrategy,
    dext: DevExtent,
    buf: Seq<u8>,
    entries: Seq<CsumEntry>,
    first: int,
    n: int,
    i: int,
)
    requires
        scrub::region_reports(found, strategy, dext, buf, entries, first, n),
        0 <= i < n,
    ensures
        strategy.csum(
            buf.subrange(
                i * strategy.sector_size,
                i * strategy.sector_size + strategy.sector_size,
            ),
        ) != entries[first + i].csum@ <==> exists|j: int|
            0 <= j < found.len() && tells_of(
                #[trigger] found[j],
                dext,
                entries[first + i],
                strategy.csum(
                    buf.subrange(
                        i * strategy.sector_size,
                        i * strategy.sector_size + strategy.sector_size,
                    ),
                ),
            ),
        (forall|m: int|
            first <= m < first + n && m != first + i ==> (#[trigger] entries[m]).logical
                != entries[first + i].logical) ==> (strategy.csum(
            buf.subrange(
                i * strategy.sector_size,
                i * strategy.sector_size + strategy.sector_size,
            ),
        ) != entries[first + i].csum@ <==> exists|j: int|
            0 <= j < found.len() && (#[trigger] found[j]).logical == entries[first + i].logical),
        forall|j: int|
            0 <= j < found.len() ==> (#[trigger] found[j]).stored_csum is Some
                && found[j].stored_csum.unwrap()@ != found[j].actual_csum@,
{
    let at = law_mismatches_are_told_one_by_one(found, strategy, dext, buf, entries, first, n);
    let sum = strategy.csum(
        buf.subrange(i * strategy.sector_size, i * strategy.sector_size + strategy.sector_size),
    );
    let e = entries[first + i];
    assert forall|j: int| 0 <= j < found.len() implies (#[trigger] found[j]).stored_csum is Some
        && found[j].stored_csum.unwrap()@ != found[j].actual_csum@ by {
        assert(0 <= at[j] < n);
    }
    if sum != e.csum@ {
        assert(!intact(strategy, buf, entries, first, i));
        let j = choose|j: int| 0 <= j < at.len() && at[j] == i;
        assert(tells_of(found[j], dext, e, sum));
    }
    if exists|j: int| 0 <= j < found.len() && (#[trigger] found[j]).logical == e.logical {
        let j = choose|j: int| 0 <= j < found.len() && (#[trigger] found[j]).logical == e.logical;
        assert(0 <= at[j] < n);
        assert(entries[first + at[j]].logical == e.logical);
    }
}

/// The same of results that were added behind others.
pub proof fn lemma_told_in_tail(
    before: Seq<SectorResult>,
    found: Seq<SectorResult>,
    strategy: CsumStrategy,
    dext: DevExtent,
    buf: Seq<u8>,
    entries: Seq<CsumEntry>,
    first: int,
    n: int,
)
    requires
        n >= 0,
        scrub::region_reports(found, strategy, dext, buf, entries, first, n),
    ensures
        forall|k: int|
            first <= k < first + n ==> (strategy.csum(
                buf.subrange(
                    (k - first) * strategy.sector_size,
                    (k - first) * strategy.sector_size + strategy.sector_size,
                ),
            ) != (#[trigger] entries[k]).csum@ <==> exists|j: int|
                before.len() <= j < (before + found).len() && tells_of(
                    #[trigger] (before + found)[j],
                    dext,
                    entries[k],
                    strategy.csum(
                        buf.subrange(
                            (k - first) * strategy.sector_size,
                            (k - first) * strategy.sector_size + strategy.sector_size,
                        ),
                    ),
                )),
        forall|j: int|
            before.len() <= j < (before + found).len() ==> (#[trigger] (before
                + found)[j]).stored_csum is Some && (before + found)[j].stored_csum.unwrap()@ != (
            before + found)[j].actual_csum@,
        found.len() + intact_count(strategy, buf, entries, first, n) == n,
{
    let all = before + found;
    let at = law_mismatches_are_told_one_by_one(found, strategy, dext, buf, entries, first, n);
    assert forall|k: int| first <= k < first + n implies (strategy.csum(
        buf.subrange(
            (k - first) * strategy.sector_size,
            (k - first) * strategy.sector_size + strategy.sector_size,
        ),
    ) != (#[trigger] entries[k]).csum@ <==> exists|j: int|
        before.len() <= j < all.len() && tells_of(
            #[trigger] all[j],
            dext,
            entries[k],
            strategy.csum(
                buf.subrange(
                    (k - first) * strategy.sector_size,
                    (k - first) * strategy.sector_size + strategy.sector_size,
                ),
            ),
        )) by {
        let i = k - first;
        let sum = strategy.csum(
            buf.subrange(
                i * strategy.sector_size,
                i * strategy.sector_size + strategy.sector_size,
            ),
        );
        law_sector_is_told_of_iff_it_mismatches(
            found,
            strategy,
            dext,
            buf,
            entries,
            first,
            n,
            i,
        );
        if sum != entries[k].csum@ {
            let j = choose|j: int|
                0 <= j < found.len() && tells_of(#[trigger] found[j], dext, entries[k], sum);
            assert(all[before.len() + j] == found[j]);
            assert(tells_of(all[before.len() + j], dext, entries[k], sum));
        }
        if exists|j: int|
            before.len() <= j < all.len() && tells_of(
                #[trigger] all[j],
                dext,
                entries[k],
                sum,
            ) {
            let j = choose|j: int|
                before.len() <= j < all.len() && tells_of(
                    #[trigger] all[j],
                    dext,
                    entries[k],
                    sum,
                );
            assert(found[j - before.len()] == all[j]);
        }
    }
    assert forall|j: int| before.len() <= j < all.len() implies (#[trigger] all[j]).stored_csum is Some
        && all[j].stored_csum.unwrap()@ != all[j].actual_csum@ by {
        assert(found[j - before.len()] == all[j]);
        assert(0 <= at[j - before.len()] < n);
    }
}

// ---------------------------------------------------------------------------
// One run
// ---------------------------------------------------------------------------

proof fn lemma_reports_of_region(
    out: Seq<SectorResult>,
    strategy: CsumStrategy,
    dext: DevExtent,
    good: Seq<(usize, Vec<u8>)>,
    entries: Seq<CsumEntry>,
    k: int,
    r: int,
) -> (ab: (int, int))
    requires
        scrub::regions_reports(out, strategy, dext, good, entries, k),
        0 <= r < k,
    ensures
        0 <= ab.0 <= ab.1 <= out.len(),
        scrub::region_reports(
            out.subrange(ab.0, ab.1),
            strategy,
            dext,
            good[r].1@,
            entries,
            scrub::region_first(good[r], strategy.sector_size as int),
            scrub::region_sectors(good[r], strategy.sector_size as int, entries.len() as int),
        ),
    decreases k,
{
    let t = choose|t: int|
        {
            &&& 0 <= t <= out.len()
            &&& #[trigger] scrub::region_reports(
                out.skip(t),
                strategy,
                dext,
                good[k - 1].1@,
                entries,
                scrub::region_first(good[k - 1], strategy.sector_size as int),
                scrub::region_sectors(
                    good[k - 1],
                    strategy.sector_size as int,
                    entries.len() as int,
                ),
            )
            &&& scrub::regions_reports(out.take(t), strategy, dext, good, entries, k - 1)
        };
    if r == k - 1 {
        assert(out.skip(t) =~= out.subrange(t, out.len() as int));
        (t, out.len() as int)
    } else {
        let ab = lemma_reports_of_region(out.take(t), strategy, dext, good, entries, k - 1, r);
        assert(out.take(t).subrange(ab.0, ab.1) =~= out.subrange(ab.0, ab.1));
        ab
    }
}

proof fn lemma_region_of_report(
    out: Seq<SectorResult>,
    strategy: CsumStrategy,
    dext: DevExtent,
    good: Seq<(usize, Vec<u8>)>,
    entries: Seq<CsumEntry>,
    k: int,
    j: int,
) -> (r: (int, int))
    requires
        scrub::regions_reports(out, strategy, dext, good, entries, k),
        k >= 0,
        0 <= j < out.len(),
    ensures
        0 <= r.0 < k,
        0 <= r.1 < scrub::region_sectors(
            good[r.0],
            strategy.sector_size as int,
            entries.len() as int,
        ),
        !intact(
            strategy,
            good[r.0].1@,
            entries,
            scrub::region_first(good[r.0], strategy.sector_size as int),
            r.1,
        ),
        !out[j].unreadable,
        tells_of(
            out[j],
            dext,
            entries[scrub::region_first(good[r.0], strategy.sector_size as int) + r.1],
            strategy.csum(
                good[r.0].1@.subrange(
                    r.1 * strategy.sector_size,
                    r.1 * strategy.sector_size + strategy.sector_size,
                ),
            ),
        ),
    decreases k,
{
    let sz = strategy.sector_size as int;
    let t = choose|t: int|
        {
            &&& 0 <= t <= out.len()
            &&& #[trigger] scrub::region_reports(
                out.skip(t),
                strategy,
                dext,
                good[k - 1].1@,
                entries,
                scrub::region_first(good[k - 1], sz),
                scrub::region_sectors(good[k - 1], sz, entries.len() as int),
            )
            &&& scrub::regions_reports(out.take(t), strategy, dext, good, entries, k - 1)
        };
    if j < t {
        let r = lemma_region_of_report(out.take(t), strategy, dext, good, entries, k - 1, j);
        assert(out.take(t)[j] == out[j]);
        r
    } else {
        let at = law_mismatches_are_told_one_by_one(
            out.skip(t),
            strategy,
            dext,
            good[k - 1].1@,
            entries,
            scrub::region_first(good[k - 1], sz),
            scrub::region_sectors(good[k - 1], sz, entries.len() as int),
        );
        assert(out.skip(t)[j - t] == out[j]);
        assert(0 <= at[j - t]);
        (k - 1, at[j - t])
    }
}

/// The region holds the whole of sector `k` of the run.
pub open spec fn holds_sector(g: (usize, Vec<u8>), sz: int, k: int) -> bool {
    g.0 <= k * sz && k * sz + sz <= g.0 + g.1@.len()
}

/// The bytes of sector `k` of the run in a region that holds it.
pub open spec fn sector_in(g: (usize, Vec<u8>), sz: int, k: int) -> Seq<u8> {
    g.1@.subrange(k * sz - g.0, k * sz - g.0 + sz)
}

proof fn lemma_place_in_region(g: (usize, Vec<u8>), sz: int, total: int, k: int)
    requires
        sz > 0,
        g.0 as int % sz == 0,
        0 <= k < total,
        holds_sector(g, sz, k),
    ensures
        0 <= k - scrub::region_first(g, sz) < scrub::region_sectors(g, sz, total),
        (k - scrub::region_first(g, sz)) * sz == k * sz - g.0,
{
    let a = g.0 as int / sz;
    let len = g.1@.len() as int;
    let b = (g.0 + len) / sz;
    vstd::arithmetic::div_mod::lemma_fundamental_div_mod(g.0 as int, sz);
    vstd::arithmetic::div_mod::lemma_fundamental_div_mod(g.0 + len, sz);
    assert(a <= k && k + 1 <= b && (k - a) * sz == k * sz - g.0) by (nonlinear_arith)
        requires
            g.0 == sz * a,
            g.0 <= k * sz,
            k * sz + sz <= g.0 + len,
            g.0 + len < sz * b + sz,
            sz > 0,
    ;
}

proof fn lemma_region_has_place(g: (usize, Vec<u8>), sz: int, total: int, i: int)
    requires
        sz > 0,
        g.0 as int % sz == 0,
        0 <= i < scrub::region_sectors(g, sz, total),
    ensures
        0 <= scrub::region_first(g, sz) + i < total,
        holds_sector(g, sz, scrub::region_first(g, sz) + i),
        i * sz == (scrub::region_first(g, sz) + i) * sz - g.0,
{
    let a = g.0 as int / sz;
    let len = g.1@.len() as int;
    let b = (g.0 + len) / sz;
    vstd::arithmetic::div_mod::lemma_fundamental_div_mod(g.0 as int, sz);
    vstd::arithmetic::div_mod::lemma_fundamental_div_mod(g.0 + len, sz);
    let k = a + i;
    assert(0 <= a && g.0 <= k * sz && k * sz + sz <= g.0 + len && i * sz == k * sz - g.0)
        by (nonlinear_arith)
        requires
            g.0 == sz * a,
            g.0 >= 0,
            g.0 + len >= sz * b,
            k == a + i,
            i >= 0,
            k + 1 <= b,
            sz > 0,
    ;
}

/// A sector of a run that was read is told of as a mismatch, with its address and
/// both checksums, if and only if the checksum of its bytes is not the stored
/// one.
pub proof fn law_read_sector_is_told_of_iff_it_mismatches(
    strategy: CsumStrategy,
    dext: DevExtent,
    good: Seq<(usize, Vec<u8>)>,
    bad: Seq<usize>,
    truncated: bool,
    entries: Seq<CsumEntry>,
    batch: bool,
    f: RunFindings,
    r: int,
    k: int,
)
    requires
        scrub::run_findings(strategy, dext, good, bad, truncated, entries, batch, f),
        strategy.sector_size > 0,
        0 <= r < good.len(),
        good[r].0 as int % strategy.sector_size as int == 0,
        0 <= k < entries.len(),
        holds_sector(good[r], strategy.sector_size as int, k),
    ensures
        strategy.csum(sector_in(good[r], strategy.sector_size as int, k)) != entries[k].csum@
            <==> exists|j: int|
            0 <= j < f.mismatches@.len() && tells_of(
                #[trigger] f.mismatches@[j],
                dext,
                entries[k],
                strategy.csum(sector_in(good[r], strategy.sector_size as int, k)),
            ),
{
    let sz = strategy.sector_size as int;
    let total = entries.len() as int;
    let g = good[r];
    let out = f.mismatches@;
    lemma_place_in_region(g, sz, total, k);
    let first = scrub::region_first(g, sz);
    let n = scrub::region_sectors(g, sz, total);
    let i = k - first;
    let ab = lemma_reports_of_region(out, strategy, dext, good, entries, good.len() as int, r);
    let part = out.subrange(ab.0, ab.1);
    law_sector_is_told_of_iff_it_mismatches(part, strategy, dext, g.1@, entries, first, n, i);
    let sum = strategy.csum(sector_in(g, sz, k));
    assert(sector_in(g, sz, k) == g.1@.subrange(i * sz, i * sz + sz));
    if sum != entries[k].csum@ {
        let j = choose|j: int|
            0 <= j < part.len() && tells_of(#[trigger] part[j], dext, entries[k], sum);
        assert(out[ab.0 + j] == part[j]);
        assert(tells_of(out[ab.0 + j], dext, entries[k], sum));
    }
    if exists|j: int|
        0 <= j < out.len() && tells_of(#[trigger] out[j], dext, entries[k], sum) {
        let j = choose|j: int|
            0 <= j < out.len() && tells_of(#[trigger] out[j], dext, entries[k], sum);
        let at = lemma_region_of_report(
            out,
            strategy,
            dext,
            good,
            entries,
            good.len() as int,
            j,
        );
    }
}

/// Every mismatch of a run is of a sector that was read, whose checksum is not
/// the stored one.
pub proof fn law_mismatch_is_of_a_sector_that_was_read(
    strategy: CsumStrategy,
    dext: DevExtent,
    good: Seq<(usize, Vec<u8>)>,
    bad: Seq<usize>,
    truncated: bool,
    entries: Seq<CsumEntry>,
    batch: bool,
    f: RunFindings,
    j: int,
) -> (rk: (int, int))
    requires
        scrub::run_findings(strategy, dext, good, bad, truncated, entries, batch, f),
        strategy.sector_size > 0,
        forall|i: int|
            0 <= i < good.len() ==> (#[trigger] good[i]).0 as int % strategy.sector_size as int
                == 0,
        0 <= j < f.mismatches@.len(),
    ensures
        0 <= rk.0 < good.len(),
        0 <= rk.1 < entries.len(),
        holds_sector(good[rk.0], strategy.sector_size as int, rk.1),
        strategy.csum(sector_in(good[rk.0], strategy.sector_size as int, rk.1))
            != entries[rk.1].csum@,
        tells_of(
            f.mismatches@[j],
            dext,
            entries[rk.1],
            strategy.csum(sector_in(good[rk.0], strategy.sector_size as int, rk.1)),
        ),
{
    let sz = strategy.sector_size as int;
    let at = lemma_region_of_report(
        f.mismatches@,
        strategy,
        dext,
        good,
        entries,
        good.len() as int,
        j,
    );
    let g = good[at.0];
    assert(g.0 as int % sz == 0);
    lemma_region_has_place(g, sz, entries.len() as int, at.1);
    let k = scrub::region_first(g, sz) + at.1;
    assert(sector_in(g, sz, k) == g.1@.subrange(at.1 * sz, at.1 * sz + sz));
    (at.0, k)
}

/// Of the sectors in the first `k` regions, those that have their stored
/// checksum.
pub open spec fn intact_in_regions(
    strategy: CsumStrategy,
    good: Seq<(usize, Vec<u8>)>,
    entries: Seq<CsumEntry>,
    k: int,
) -> int
    decreases k,
{
    if k <= 0 {
        0
    } else {
        let g = good[k - 1];
        let sz = strategy.sector_size as int;
        let last = (g.0 + g.1@.len()) / sz;
        let end = if last < entries.len() { last } else { entries.len() as int };
        intact_in_regions(strategy, good, entries, k - 1) + intact_count(
            strategy,
            g.1@,
            entries,
            g.0 as int / sz,
            end - g.0 as int / sz,
        )
    }
}

proof fn lemma_intact_in_regions(
    out: Seq<SectorResult>,
    strategy: CsumStrategy,
    dext: DevExtent,
    good: Seq<(usize, Vec<u8>)>,
    entries: Seq<CsumEntry>,
    k: int,
)
    requires
        0 <= k <= good.len(),
        scrub::regions_reports(out, strategy, dext, good, entries, k),
    ensures
        out.len() + intact_in_regions(strategy, good, entries, k) == scrub::regions_sectors(
            good,
            strategy.sector_size as int,
            entries.len() as int,
            k,
        ),
    decreases k,
{
    if k > 0 {
        let sz = strategy.sector_size as int;
        let t = choose|t: int|
            {
                &&& 0 <= t <= out.len()
                &&& #[trigger] scrub::region_reports(
                    out.skip(t),
                    strategy,
                    dext,
                    good[k - 1].1@,
                    entries,
                    scrub::region_first(good[k - 1], sz),
                    scrub::region_sectors(good[k - 1], sz, entries.len() as int),
                )
                &&& scrub::regions_reports(out.take(t), strategy, dext, good, entries, k - 1)
            };
        lemma_intact_in_regions(out.take(t), strategy, dext, good, entries, k - 1);
        let at = law_mismatches_are_told_one_by_one(
            out.skip(t),
            strategy,
            dext,
            good[k - 1].1@,
            entries,
            scrub::region_first(good[k - 1], sz),
            scrub::region_sectors(good[k - 1], sz, entries.len() as int),
        );
    }
}

/// A run counts as good just the sectors that have their stored checksum, and
/// nothing as stale or as a mismatch yet.
pub proof fn law_run_counts_the_intact_sectors(
    strategy: CsumStrategy,
    dext: DevExtent,
    good: Seq<(usize, Vec<u8>)>,
    bad: Seq<usize>,
    truncated: bool,
    entries: Seq<CsumEntry>,
    batch: bool,
    f: RunFindings,
)
    requires
        scrub::run_findings(strategy, dext, good, bad, truncated, entries, batch, f),
        strategy.sector_size > 0,
    ensures
        f.stats.sectors_ok == intact_in_regions(strategy, good, entries, good.len() as int),
        f.stats.sectors_checked == f.stats.sectors_ok + f.mismatches@.len()
            + f.stats.sectors_read_error,
        f.stats.bytes_checked == f.stats.sectors_checked * strategy.sector_size,
        f.stats.sectors_read_error == f.read_errors@.len(),
        f.stats.isolation_truncated == (if truncated { 1int } else { 0 }),
        f.stats.sectors_mismatch == 0,
        f.stats.sectors_no_csum == 0,
        f.stats.sectors_stale == 0,
        f.stats.stale_csum_branches == 0,
        f.stats.metadata_header_errors == 0,
{
    let sz = strategy.sector_size as int;
    let total = entries.len() as int;
    lemma_intact_in_regions(f.mismatches@, strategy, dext, good, entries, good.len() as int);
    lemma_intact_nonneg(strategy, good, entries, good.len() as int);
    lemma_bad_counts(dext, bad, entries, sz, bad.len() as int);
    let checked = scrub::regions_sectors(good, sz, total, good.len() as int);
    let errors = scrub::bad_sectors(bad, sz, total, bad.len() as int);
    assert(checked + errors <= (checked + errors) * sz) by (nonlinear_arith)
        requires
            checked + errors >= 0,
            sz >= 1,
    ;
}

proof fn lemma_intact_count_nonneg(
    strategy: CsumStrategy,
    buf: Seq<u8>,
    entries: Seq<CsumEntry>,
    first: int,
    n: int,
)
    ensures
        intact_count(strategy, buf, entries, first, n) >= 0,
    decreases n,
{
    if n > 0 {
        lemma_intact_count_nonneg(strategy, buf, entries, first, n - 1);
    }
}

proof fn lemma_intact_nonneg(
    strategy: CsumStrategy,
    good: Seq<(usize, Vec<u8>)>,
    entries: Seq<CsumEntry>,
    k: int,
)
    ensures
        intact_in_regions(strategy, good, entries, k) >= 0,
    decreases k,
{
    if k > 0 {
        lemma_intact_nonneg(strategy, good, entries, k - 1);
        let g = good[k - 1];
        let sz = strategy.sector_size as int;
        let last = (g.0 + g.1@.len()) / sz;
        let end = if last < entries.len() { last } else { entries.len() as int };
        lemma_intact_count_nonneg(
            strategy,
            g.1@,
            entries,
            g.0 as int / sz,
            end - g.0 as int / sz,
        );
    }
}

proof fn lemma_bad_counts(
    dext: DevExtent,
    bad: Seq<usize>,
    entries: Seq<CsumEntry>,
    sz: int,
    k: int,
)
    requires
        0 <= k <= bad.len(),
    ensures
        scrub::bad_sectors(bad, sz, entries.len() as int, k) == scrub::bad_addresses(
            dext,
            bad,
            entries,
            sz,
            k,
        ).len(),
        scrub::bad_sectors(bad, sz, entries.len() as int, k) >= 0,
    decreases k,
{
    if k > 0 {
        lemma_bad_counts(dext, bad, entries, sz, k - 1);
    }
}

proof fn lemma_bad_address(
    dext: DevExtent,
    bad: Seq<usize>,
    entries: Seq<CsumEntry>,
    sz: int,
    n: int,
    b: int,
)
    requires
        0 <= b < n <= bad.len(),
        bad[b] as int / sz < entries.len(),
    ensures
        scrub::bad_addresses(dext, bad, entries, sz, n).contains(
            (
                scrub::phys_of(dext, entries[bad[b] as int / sz].logical) as u64,
                entries[bad[b] as int / sz].logical,
            ),
        ),
    decreases n,
{
    let here = (
        scrub::phys_of(dext, entries[bad[b] as int / sz].logical) as u64,
        entries[bad[b] as int / sz].logical,
    );
    let all = scrub::bad_addresses(dext, bad, entries, sz, n);
    if b == n - 1 {
        assert(all[all.len() - 1] == here);
    } else {
        lemma_bad_address(dext, bad, entries, sz, n - 1, b);
        let before = scrub::bad_addresses(dext, bad, entries, sz, n - 1);
        let j = choose|j: int| 0 <= j < before.len() && before[j] == here;
        assert(all[j] == here);
    }
}

proof fn lemma_bad_report(
    out: Seq<SectorResult>,
    strategy: CsumStrategy,
    dext: DevExtent,
    bad: Seq<usize>,
    entries: Seq<CsumEntry>,
    n: int,
    b: int,
) -> (j: int)
    requires
        scrub::bad_reports(out, strategy, dext, bad, entries, true, n),
        0 <= b < n <= bad.len(),
        bad[b] as int / (strategy.sector_size as int) < entries.len(),
        entries[bad[b] as int / strategy.sector_size as int].csum@.len() == strategy.hash_len,
    ensures
        0 <= j < out.len(),
        out[j].unreadable,
        tells_of(
            out[j],
            dext,
            entries[bad[b] as int / strategy.sector_size as int],
            Seq::empty(),
        ),
    decreases n,
{
    let sz = strategy.sector_size as int;
    let idx = scrub::bad_index(bad[n - 1], sz);
    if b == n - 1 {
        out.len() - 1
    } else if idx < entries.len() && entries[idx].csum@.len() == strategy.hash_len {
        let j = lemma_bad_report(out.drop_last(), strategy, dext, bad, entries, n - 1, b);
        assert(out.drop_last()[j] == out[j]);
        j
    } else {
        lemma_bad_report(out, strategy, dext, bad, entries, n - 1, b)
    }
}

/// A sector of the run that could not be read is a read error at its two
/// addresses, and in batch mode it is handed on for recovery where its stored
/// checksum is whole.
pub proof fn law_unreadable_sector_is_a_read_error(
    strategy: CsumStrategy,
    dext: DevExtent,
    good: Seq<(usize, Vec<u8>)>,
    bad: Seq<usize>,
    truncated: bool,
    entries: Seq<CsumEntry>,
    batch: bool,
    f: RunFindings,
    b: int,
    k: int,
)
    requires
        scrub::run_findings(strategy, dext, good, bad, truncated, entries, batch, f),
        strategy.sector_size > 0,
        0 <= b < bad.len(),
        bad[b] == k * strategy.sector_size,
        0 <= k < entries.len(),
        scrub::in_extent(dext, entries[k].logical),
    ensures
        exists|j: int|
            {
                &&& 0 <= j < f.read_errors@.len()
                &&& (#[trigger] f.read_errors@[j]).0 == dext.phys_start + (entries[k].logical
                    - dext.chunk_offset)
                &&& f.read_errors@[j].1 == entries[k].logical
            },
        batch && entries[k].csum@.len() == strategy.hash_len ==> exists|j: int|
            {
                &&& 0 <= j < f.unreadable@.len()
                &&& (#[trigger] f.unreadable@[j]).unreadable
                &&& tells_of(f.unreadable@[j], dext, entries[k], Seq::empty())
            },
        !batch ==> f.unreadable@.len() == 0,
{
    let sz = strategy.sector_size as int;
    vstd::arithmetic::div_mod::lemma_div_multiples_vanish(k, sz);
    assert(sz * k == k * sz) by (nonlinear_arith);
    assert(bad[b] as int / sz == k);
    let n = bad.len() as int;
    lemma_bad_address(dext, bad, entries, sz, n, b);
    let here = (scrub::phys_of(dext, entries[k].logical) as u64, entries[k].logical);
    let j = choose|j: int| 0 <= j < f.read_errors@.len() && f.read_errors@[j] == here;
    assert(f.read_errors@[j] == here);
    if batch && entries[k].csum@.len() == strategy.hash_len {
        let j = lemma_bad_report(f.unreadable@, strategy, dext, bad, entries, n, b);
        assert(f.unreadable@[j].unreadable);
    }
    if !batch {
        lemma_no_bad_reports(f.unreadable@, strategy, dext, bad, entries, n);
    }
}

proof fn lemma_no_bad_reports(
    out: Seq<SectorResult>,
    strategy: CsumStrategy,
    dext: DevExtent,
    bad: Seq<usize>,
    entries: Seq<CsumEntry>,
    n: int,
)
    requires
        scrub::bad_reports(out, strategy, dext, bad, entries, false, n),
    ensures
        out.len() == 0,
    decreases n,
{
    if n > 0 {
        lemma_no_bad_reports(out, strategy, dext, bad, entries, n - 1);
    }
}

/// What isolation keeps of a run was read where it lies, every sector of the
/// run is kept whole or marked bad and never both, and unless isolation was cut
/// short a sector is marked bad only where reading it alone failed.
pub proof fn law_isolation_keeps_what_can_be_read<E, R: Fn(u64, usize) -> Result<Vec<u8>, E>>(
    read: R,
    off: u64,
    len: int,
    sz: int,
    truncated: bool,
    good: Seq<(usize, Vec<u8>)>,
    bad: Seq<usize>,
    k: int,
)
    requires
        sz > 0,
        isolate::isolated(read, off as int, 0, len, sz, truncated, good, bad),
        0 <= k,
        k * sz + sz <= len,
    ensures
        forall|r: int|
            0 <= r < good.len() ==> {
                &&& (#[trigger] good[r]).0 as int % sz == 0
                &&& good[r].0 + good[r].1@.len() <= len
                &&& call_ensures(
                    read,
                    ((off + good[r].0) as u64, good[r].1@.len() as usize),
                    Ok::<Vec<u8>, E>(good[r].1),
                )
            },
        (exists|r: int| 0 <= r < good.len() && holds_sector(#[trigger] good[r], sz, k)) <==> !(
        exists|b: int| 0 <= b < bad.len() && (#[trigger] bad[b]) == k * sz),
        !truncated && (exists|b: int| 0 <= b < bad.len() && (#[trigger] bad[b]) == k * sz)
            ==> exists|e: E| #[trigger]
            call_ensures(read, ((off + k * sz) as u64, sz as usize), Err::<Vec<u8>, E>(e)),
{
    assert forall|r: int| 0 <= r < good.len() implies {
        &&& (#[trigger] good[r]).0 as int % sz == 0
        &&& good[r].0 + good[r].1@.len() <= len
        &&& call_ensures(
            read,
            ((off + good[r].0) as u64, good[r].1@.len() as usize),
            Ok::<Vec<u8>, E>(good[r].1),
        )
    } by {
        assert(isolate::region_ok(read, off as int, 0, len, sz, good[r]));
    }
    let at = k * sz;
    vstd::arithmetic::div_mod::lemma_mod_multiples_basic(k, sz);
    assert(at >= 0) by (nonlinear_arith)
        requires
            at == k * sz,
            k >= 0,
            sz > 0,
    ;
    assert(isolate::in_regions(good, at) <==> !isolate::in_list(bad, at));
    if isolate::in_regions(good, at) {
        let r = choose|r: int| 0 <= r < good.len() && isolate::in_region(#[trigger] good[r], at);
        let g = good[r];
        assert(isolate::region_ok(read, off as int, 0, len, sz, g));
        let a = g.0 as int / sz;
        let c = g.1@.len() as int / sz;
        vstd::arithmetic::div_mod::lemma_fundamental_div_mod(g.0 as int, sz);
        vstd::arithmetic::div_mod::lemma_fundamental_div_mod(g.1@.len() as int, sz);
        let end = a + c;
        assert(g.0 + g.1@.len() == end * sz) by (nonlinear_arith)
            requires
                g.0 == sz * a,
                g.1@.len() == sz * c,
                end == a + c,
        ;
        assert(k < end) by (nonlinear_arith)
            requires
                k * sz < end * sz,
                sz > 0,
        ;
        assert(k * sz + sz <= end * sz) by (nonlinear_arith)
            requires
                k + 1 <= end,
                sz > 0,
        ;
        assert(holds_sector(good[r], sz, k));
    }
    if exists|r: int| 0 <= r < good.len() && holds_sector(#[trigger] good[r], sz, k) {
        let r = choose|r: int| 0 <= r < good.len() && holds_sector(#[trigger] good[r], sz, k);
        assert(isolate::in_region(good[r], at));
    }
    if exists|b: int| 0 <= b < bad.len() && (#[trigger] bad[b]) == at {
        let b = choose|b: int| 0 <= b < bad.len() && (#[trigger] bad[b]) == at;
        assert(isolate::sector_bad(read, off as int, 0, len, sz, truncated, bad[b]));
        assert(isolate::in_list(bad, at));
    }
}

// ---------------------------------------------------------------------------
// The whole device
// ---------------------------------------------------------------------------

proof fn lemma_entry_is_in_a_run(runs: Seq<Vec<CsumEntry>>, e: int) -> (rq: (int, int))
    requires
        0 <= e < scrub::joined(runs).len(),
    ensures
        0 <= rq.0 < runs.len(),
        0 <= rq.1 < runs[rq.0]@.len(),
        runs[rq.0]@[rq.1] == scrub::joined(runs)[e],
    decreases runs.len(),
{
    let front = scrub::joined(runs.drop_last());
    if e < front.len() {
        let rq = lemma_entry_is_in_a_run(runs.drop_last(), e);
        assert(runs.drop_last()[rq.0] == runs[rq.0]);
        rq
    } else {
        (runs.len() - 1, e - front.len())
    }
}

proof fn lemma_run_is_contiguous(run: Seq<CsumEntry>, sector_size: u64, q: int)
    requires
        scrub::is_run(run, sector_size),
        0 <= q < run.len(),
    ensures
        run[q].logical == run[0].logical + q * sector_size,
    decreases q,
{
    if q > 0 {
        lemma_run_is_contiguous(run, sector_size, q - 1);
        assert(scrub::follows(run[q - 1], run[q - 1 + 1], sector_size));
        assert((q - 1) * sector_size + sector_size == q * sector_size) by (nonlinear_arith);
    } else {
        assert(q * sector_size == 0) by (nonlinear_arith)
            requires
                q == 0,
        ;
    }
}

proof fn lemma_run_has_a_command(
    extents: Seq<DevExtent>,
    traces: Seq<ExtentTrace>,
    sector_size: u64,
    n: int,
    x: int,
    r: int,
) -> (i: int)
    requires
        0 <= x < n,
        0 <= r < traces[x].runs.len(),
    ensures
        0 <= i < scrub_run::commands(extents, traces, sector_size, n).len(),
        scrub_run::commands(extents, traces, sector_size, n)[i] == scrub_run::command_of(
            extents[x],
            traces[x].runs[r],
            sector_size,
        ),
    decreases n,
{
    let before = scrub_run::commands(extents, traces, sector_size, n - 1);
    if x == n - 1 {
        before.len() + r
    } else {
        lemma_run_has_a_command(extents, traces, sector_size, n - 1, x, r)
    }
}

/// The response holds what is on the disk: its regions are whole sectors of it,
/// from where the command reads on, and every sector of the run is in one of
/// them or marked bad.
pub open spec fn holds_the_disk(
    cmd: ReadCmd,
    rsp: ReadRsp,
    sz: int,
    disk: spec_fn(u64, int) -> u8,
) -> bool {
    &&& forall|r: int|
        0 <= r < rsp.good@.len() ==> {
            &&& (#[trigger] rsp.good@[r]).0 as int % sz == 0
            &&& forall|b: int|
                0 <= b < rsp.good@[r].1@.len() ==> #[trigger] rsp.good@[r].1@[b] == disk(
                    cmd.dext.devid,
                    cmd.phys + rsp.good@[r].0 + b,
                )
        }
    &&& forall|k: int| 0 <= k < cmd.entries@.len() ==> #[trigger] answered(rsp, sz, k)
}

/// The sector is in a region, or marked bad.
pub open spec fn answered(rsp: ReadRsp, sz: int, k: int) -> bool {
    ||| exists|r: int| 0 <= r < rsp.good@.len() && holds_sector(#[trigger] rsp.good@[r], sz, k)
    ||| exists|b: int| 0 <= b < rsp.bad@.len() && (#[trigger] rsp.bad@[b]) == k * sz
}

/// The sector that the disk has at an address.
pub open spec fn on_disk(disk: spec_fn(u64, int) -> u8, devid: u64, at: int, sz: int) -> Seq<u8> {
    Seq::new(sz as nat, |b: int| disk(devid, at + b))
}

/// The result was emitted.
pub open spec fn emitted<O: Fn(&SectorResult)>(emit: O, r: SectorResult) -> bool {
    call_ensures(emit, (&r,), ())
}

proof fn lemma_announced<O: Fn(&SectorResult), T: Fn(Tell)>(
    emit: O,
    tell: T,
    devid: u64,
    d: RunDone,
    j: int,
)
    requires
        scrub_run::announced(emit, tell, true, devid, d),
        0 <= j < d.findings.mismatches@.len(),
    ensures
        emitted(emit, d.findings.mismatches@[j]),
{
    let verdict = d.settled@[j];
    assert(verdict == d.settled@[j]);
    assert(call_ensures(emit, (&d.findings.mismatches@[j],), ()));
}

proof fn lemma_run_finds_what_is_wrong<
    N: Fn(u64, u64) -> Vec<CsumEntry>,
    U: Fn(&ReadCmd) -> bool,
    G: Fn(&ReadCmd) -> Option<ReadRsp>,
    L: Fn(u64, &Vec<u8>) -> Option<Reconfirm>,
    F: Fn(u64, u64, usize) -> Option<Vec<u8>>,
    O: Fn(&SectorResult),
    T: Fn(Tell),
>(
    strategy: CsumStrategy,
    batch: bool,
    env: ScrubEnv<N, U, G, L, F, O, T>,
    t: RunTrace,
    disk: spec_fn(u64, int) -> u8,
    q: int,
)
    requires
        strategy.sector_size > 0,
        scrub_run::run_traced(strategy, batch, env, t),
        holds_the_disk(t.cmd, t.rsp, strategy.sector_size as int, disk),
        0 <= q < t.cmd.entries@.len(),
        scrub::in_extent(t.cmd.dext, t.cmd.entries@[q].logical),
        t.cmd.phys + q * strategy.sector_size == t.cmd.dext.phys_start + (
        t.cmd.entries@[q].logical - t.cmd.dext.chunk_offset),
    ensures
        ({
            let entry = t.cmd.entries@[q];
            let at = t.cmd.phys + q * strategy.sector_size;
            let sum = strategy.csum(
                on_disk(disk, t.cmd.dext.devid, at, strategy.sector_size as int),
            );
            ||| call_ensures(
                env.tell,
                (
                    Tell::ReadError {
                        phys: at as u64,
                        devid: t.cmd.dext.devid,
                        logical: entry.logical,
                    },
                ),
                (),
            )
            ||| {
                &&& sum != entry.csum@ <==> exists|j: int|
                    0 <= j < t.done.findings.mismatches@.len() && tells_of(
                        #[trigger] t.done.findings.mismatches@[j],
                        t.cmd.dext,
                        entry,
                        sum,
                    )
                &&& batch && sum != entry.csum@ ==> exists|found: SectorResult|
                    tells_of(found, t.cmd.dext, entry, sum) && #[trigger] emitted(env.emit, found)
            }
        }),
{
    let sz = strategy.sector_size as int;
    let cmd = t.cmd;
    let rsp = t.rsp;
    let d = t.done;
    let entry = cmd.entries@[q];
    let at = cmd.phys + q * sz;
    let sum = strategy.csum(on_disk(disk, cmd.dext.devid, at, sz));
    assert(answered(rsp, sz, q));
    if exists|b: int| 0 <= b < rsp.bad@.len() && (#[trigger] rsp.bad@[b]) == q * sz {
        let b = choose|b: int| 0 <= b < rsp.bad@.len() && (#[trigger] rsp.bad@[b]) == q * sz;
        law_unreadable_sector_is_a_read_error(
            strategy,
            cmd.dext,
            rsp.good@,
            rsp.bad@,
            rsp.isolation_truncated,
            cmd.entries@,
            batch,
            d.findings,
            b,
            q,
        );
        let j = choose|j: int|
            {
                &&& 0 <= j < d.findings.read_errors@.len()
                &&& (#[trigger] d.findings.read_errors@[j]).0 == at
                &&& d.findings.read_errors@[j].1 == entry.logical
            };
        assert(scrub_run::read_error_told(
            env.tell,
            cmd.dext.devid,
            d.findings.read_errors@[j],
        ));
    } else {
        let r = choose|r: int|
            0 <= r < rsp.good@.len() && holds_sector(#[trigger] rsp.good@[r], sz, q);
        let g = rsp.good@[r];
        law_read_sector_is_told_of_iff_it_mismatches(
            strategy,
            cmd.dext,
            rsp.good@,
            rsp.bad@,
            rsp.isolation_truncated,
            cmd.entries@,
            batch,
            d.findings,
            r,
            q,
        );
        let held = sector_in(g, sz, q);
        assert(held =~= on_disk(disk, cmd.dext.devid, at, sz)) by {
            assert forall|b: int| 0 <= b < sz implies #[trigger] held[b] == disk(
                cmd.dext.devid,
                at + b,
            ) by {
                assert(held[b] == g.1@[q * sz - g.0 + b]);
                assert(g.1@[q * sz - g.0 + b] == disk(
                    cmd.dext.devid,
                    cmd.phys + g.0 + (q * sz - g.0 + b),
                ));
            }
        }
        if batch && sum != entry.csum@ {
            let j = choose|j: int|
                0 <= j < d.findings.mismatches@.len() && tells_of(
                    #[trigger] d.findings.mismatches@[j],
                    cmd.dext,
                    entry,
                    sum,
                );
            assert(scrub_run::announced(env.emit, env.tell, batch, cmd.dext.devid, d));
            assert(0 <= j < d.findings.mismatches@.len());
            lemma_announced(env.emit, env.tell, cmd.dext.devid, d, j);
            assert(emitted(env.emit, d.findings.mismatches@[j]));
        }
    }
}

/// A scrub of a device reaches every checksum that is listed for a data extent:
/// its sector, where the extent puts it on the disk, is told of as a read error,
/// or it is told of as a mismatch if and only if the checksum of what is there is
/// not the listed one; in batch mode the mismatch is emitted.
pub proof fn law_scrub_finds_what_is_wrong_on_the_disk<
    N: Fn(u64, u64) -> Vec<CsumEntry>,
    U: Fn(&ReadCmd) -> bool,
    G: Fn(&ReadCmd) -> Option<ReadRsp>,
    L: Fn(u64, &Vec<u8>) -> Option<Reconfirm>,
    F: Fn(u64, u64, usize) -> Option<Vec<u8>>,
    O: Fn(&SectorResult),
    T: Fn(Tell),
>(
    chunk_map: ChunkMap,
    extents: Seq<DevExtent>,
    strategy: CsumStrategy,
    batch: bool,
    env: ScrubEnv<N, U, G, L, F, O, T>,
    traces: Seq<ExtentTrace>,
    trace: Seq<RunTrace>,
    disk: spec_fn(u64, int) -> u8,
    x: int,
    e: int,
) -> (i: int)
    requires
        strategy.sector_size > 0,
        scrub_run::scrubbed(chunk_map, extents, strategy, batch, env, traces, trace),
        forall|i: int|
            0 <= i < trace.len() ==> holds_the_disk(
                (#[trigger] trace[i]).cmd,
                trace[i].rsp,
                strategy.sector_size as int,
                disk,
            ),
        0 <= x < extents.len(),
        scrub::maps_data(chunk_map, extents[x].chunk_offset),
        0 <= e < traces[x].entries.len(),
        forall|j: int|
            0 <= j < traces[x].entries.len() ==> {
                &&& extents[x].chunk_offset <= (#[trigger] traces[x].entries[j]).logical
                &&& extents[x].phys_start + (traces[x].entries[j].logical
                    - extents[x].chunk_offset) <= u64::MAX
            },
    ensures
        0 <= i < trace.len(),
        ({
            let entry = traces[x].entries[e];
            let at = extents[x].phys_start + (entry.logical - extents[x].chunk_offset);
            let sum = strategy.csum(
                on_disk(disk, extents[x].devid, at, strategy.sector_size as int),
            );
            ||| call_ensures(
                env.tell,
                (
                    Tell::ReadError {
                        phys: at as u64,
                        devid: extents[x].devid,
                        logical: entry.logical,
                    },
                ),
                (),
            )
            ||| {
                &&& sum != entry.csum@ <==> exists|j: int|
                    0 <= j < trace[i].done.findings.mismatches@.len() && tells_of(
                        #[trigger] trace[i].done.findings.mismatches@[j],
                        extents[x],
                        entry,
                        sum,
                    )
                &&& batch && sum != entry.csum@ ==> exists|found: SectorResult|
                    tells_of(found, extents[x], entry, sum) && #[trigger] emitted(env.emit, found)
            }
        }),
{
    let sz = strategy.sector_size as int;
    let t = traces[x];
    assert(scrub_run::extent_traced(
        chunk_map,
        env.entries,
        strategy.sector_size,
        extents[x],
        traces[x],
    ));
    let rq = lemma_entry_is_in_a_run(t.runs, e);
    let run = t.runs[rq.0];
    let q = rq.1;
    assert(scrub::is_run(run@, strategy.sector_size));
    lemma_run_is_contiguous(run@, strategy.sector_size, q);
    let n = extents.len() as int;
    let i = lemma_run_has_a_command(extents, traces, strategy.sector_size, n, x, rq.0);
    let cmds = Seq::new(trace.len(), |i: int| trace[i].cmd);
    assert(cmds[i] == trace[i].cmd);
    let cmd = trace[i].cmd;
    let rsp = trace[i].rsp;
    let d = trace[i].done;
    assert(holds_the_disk(cmd, rsp, sz, disk));
    assert(scrub_run::run_traced(strategy, batch, env, trace[i]));
    let entry = t.entries[e];
    assert(cmd.entries@[q] == entry);
    let first = lemma_first_of_run_is_listed(t.runs, rq.0);
    assert(t.entries[first] == run@[0]);
    let at = extents[x].phys_start + (entry.logical - extents[x].chunk_offset);
    assert(cmd.phys + q * sz == at);
    lemma_run_finds_what_is_wrong(strategy, batch, env, trace[i], disk, q);
    i
}

proof fn lemma_first_of_run_is_listed(runs: Seq<Vec<CsumEntry>>, r: int) -> (e: int)
    requires
        0 <= r < runs.len(),
        runs[r]@.len() > 0,
    ensures
        0 <= e < scrub::joined(runs).len(),
        scrub::joined(runs)[e] == runs[r]@[0],
    decreases runs.len(),
{
    let front = runs.drop_last();
    if r == runs.len() - 1 {
        scrub::joined(front).len() as int
    } else {
        assert(front[r] == runs[r]);
        lemma_first_of_run_is_listed(front, r)
    }
}

/// The total of one counter over the first `k` runs.
pub open spec fn total_of(
    trace: Seq<RunTrace>,
    counter: spec_fn(ScrubStats) -> u64,
    k: int,
) -> int
    decreases k,
{
    if k <= 0 {
        0
    } else {
        total_of(trace, counter, k - 1) + counter(trace[k - 1].done.stats)
    }
}

/// The device's account is, counter by counter, the total over its runs.
pub proof fn law_device_account_is_the_total(trace: Seq<RunTrace>, k: int)
    requires
        0 <= k <= trace.len(),
        scrub_run::sums_fit(trace),
    ensures
        ({
            let s = scrub_run::sum_stats(trace, k);
            &&& s.sectors_checked == total_of(trace, |s: ScrubStats| s.sectors_checked, k)
            &&& s.sectors_ok == total_of(trace, |s: ScrubStats| s.sectors_ok, k)
            &&& s.sectors_mismatch == total_of(trace, |s: ScrubStats| s.sectors_mismatch, k)
            &&& s.sectors_no_csum == total_of(trace, |s: ScrubStats| s.sectors_no_csum, k)
            &&& s.sectors_read_error == total_of(trace, |s: ScrubStats| s.sectors_read_error, k)
            &&& s.sectors_stale == total_of(trace, |s: ScrubStats| s.sectors_stale, k)
            &&& s.stale_csum_branches == total_of(
                trace,
                |s: ScrubStats| s.stale_csum_branches,
                k,
            )
            &&& s.isolation_truncated == total_of(
                trace,
                |s: ScrubStats| s.isolation_truncated,
                k,
            )
            &&& s.bytes_checked == total_of(trace, |s: ScrubStats| s.bytes_checked, k)
            &&& s.metadata_header_errors == total_of(
                trace,
                |s: ScrubStats| s.metadata_header_errors,
                k,
            )
        }),
    decreases k,
{
    if k > 0 {
        law_device_account_is_the_total(trace, k - 1);
        assert(scrub_run::sum_stats(trace, k - 1).can_add(trace[k - 1].done.stats));
    }
}

/// How many of the first `k` verdicts are this one.
pub open spec fn verdicts(settled: Seq<Settled>, what: Settled, k: int) -> int
    decreases k,
{
    if k <= 0 {
        0
    } else {
        verdicts(settled, what, k - 1) + if settled[k - 1] == what { 1int } else { 0 }
    }
}

/// Settling counts each verdict under its own counter and changes no other.
pub proof fn law_settling_counts_each_verdict(before: ScrubStats, settled: Seq<Settled>, k: int)
    requires
        0 <= k,
        before.sectors_read_error + k <= u64::MAX,
        before.sectors_stale + k <= u64::MAX,
        before.sectors_mismatch + k <= u64::MAX,
    ensures
        ({
            let s = scrub_run::stats_settled(before, settled, k);
            &&& s.sectors_mismatch == before.sectors_mismatch + verdicts(
                settled,
                Settled::Corruption,
                k,
            )
            &&& s.sectors_stale == before.sectors_stale + verdicts(settled, Settled::Stale, k)
            &&& s.sectors_read_error == before.sectors_read_error + verdicts(
                settled,
                Settled::ReadError,
                k,
            )
            &&& s.sectors_checked == before.sectors_checked
            &&& s.sectors_ok == before.sectors_ok
            &&& s.sectors_no_csum == before.sectors_no_csum
            &&& s.stale_csum_branches == before.stale_csum_branches
            &&& s.isolation_truncated == before.isolation_truncated
            &&& s.bytes_checked == before.bytes_checked
            &&& s.metadata_header_errors == before.metadata_header_errors
        }),
        0 <= verdicts(settled, Settled::Corruption, k) <= k,
        0 <= verdicts(settled, Settled::Stale, k) <= k,
        0 <= verdicts(settled, Settled::ReadError, k) <= k,
    decreases k,
{
    if k > 0 {
        law_settling_counts_each_verdict(before, settled, k - 1);
    }
}

/// A mismatch counts as corruption if and only if live metadata confirms the
/// stored checksum and the sector, read again, still does not have it; it is
/// stale only where metadata says so or the fresh bytes have the checksum.
pub proof fn law_verdict_follows_from_what_was_asked<
    L: Fn(u64, &Vec<u8>) -> Option<Reconfirm>,
    F: Fn(u64, u64, usize) -> Option<Vec<u8>>,
>(
    strategy: CsumStrategy,
    live: L,
    fresh: F,
    m: SectorResult,
    s: Settled,
    stored: Vec<u8>,
    says: Option<Reconfirm>,
    again: Option<Vec<u8>>,
)
    requires
        scrub_run::settles(strategy, live, fresh, m, s),
        m.stored_csum == Some(stored),
        forall|l: Option<Reconfirm>| #[trigger]
            call_ensures(live, (m.logical, &stored), l) ==> l == says,
        forall|f: Option<Vec<u8>>| #[trigger]
            call_ensures(fresh, (m.devid, m.array_phys, strategy.sector_size as usize), f) ==> f
                == again,
    ensures
        s == Settled::Corruption <==> says == Some(Reconfirm::Corruption) && !(again matches Some(
            b,
        ) && strategy.csum(b@) == stored@),
        s == Settled::Stale <==> says == Some(Reconfirm::Stale) || (says == Some(
            Reconfirm::Corruption,
        ) && (again matches Some(b) && strategy.csum(b@) == stored@)),
        s == Settled::ReadError <==> says is None || says == Some(Reconfirm::Unverifiable),
{
}

/// Runs are cut so that each is of sectors that follow one another on the disk,
/// at most 16384 of them, and ends only there or where the next does not follow.
pub proof fn law_runs_are_contiguous_and_maximal(
    runs: Seq<Vec<CsumEntry>>,
    entries: Seq<CsumEntry>,
    sector_size: u64,
    r: int,
    q: int,
)
    requires
        scrub::runs_of(runs, entries, sector_size),
        0 <= r < runs.len(),
        0 <= q < runs[r]@.len(),
    ensures
        0 < runs[r]@.len() <= 16384,
        runs[r]@[q].logical == runs[r]@[0].logical + q * sector_size,
        r + 1 < runs.len() && runs[r]@.len() < 16384 ==> runs[r + 1]@[0].logical
            != runs[r]@.last().logical + sector_size,
{
    assert(scrub::is_run(runs[r]@, sector_size));
    lemma_run_is_contiguous(runs[r]@, sector_size, q);
    if r + 1 < runs.len() {
        assert(scrub::must_break(runs[r]@, runs[r + 1]@, sector_size));
    }
}

/// What a run that was read is to come to: of every sector that was read there is
/// a mismatch, with its address and both checksums, if and only if the checksum
/// of its bytes is not the stored one, and as many sectors are good as have it.
pub open spec fn run_is_judged(strategy: CsumStrategy, t: RunTrace) -> bool {
    let sz = strategy.sector_size as int;
    &&& forall|r: int, k: int|
        0 <= r < t.rsp.good@.len() && t.rsp.good@[r].0 as int % sz == 0 && 0 <= k
            < t.cmd.entries@.len() && #[trigger] holds_sector(t.rsp.good@[r], sz, k) ==> {
            strategy.csum(sector_in(t.rsp.good@[r], sz, k)) != t.cmd.entries@[k].csum@
                <==> exists|j: int|
                0 <= j < t.done.findings.mismatches@.len() && tells_of(
                    #[trigger] t.done.findings.mismatches@[j],
                    t.cmd.dext,
                    t.cmd.entries@[k],
                    strategy.csum(sector_in(t.rsp.good@[r], sz, k)),
                )
        }
    &&& t.done.findings.stats.sectors_ok == intact_in_regions(
        strategy,
        t.rsp.good@,
        t.cmd.entries@,
        t.rsp.good@.len() as int,
    )
}

/// Every run of a scrub is judged by the checksums of what was read.
pub proof fn law_every_run_is_judged<
    N: Fn(u64, u64) -> Vec<CsumEntry>,
    U: Fn(&ReadCmd) -> bool,
    G: Fn(&ReadCmd) -> Option<ReadRsp>,
    L: Fn(u64, &Vec<u8>) -> Option<Reconfirm>,
    F: Fn(u64, u64, usize) -> Option<Vec<u8>>,
    O: Fn(&SectorResult),
    T: Fn(Tell),
>(
    chunk_map: ChunkMap,
    extents: Seq<DevExtent>,
    strategy: CsumStrategy,
    batch: bool,
    env: ScrubEnv<N, U, G, L, F, O, T>,
    traces: Seq<ExtentTrace>,
    trace: Seq<RunTrace>,
)
    requires
        strategy.sector_size > 0,
        scrub_run::scrubbed(chunk_map, extents, strategy, batch, env, traces, trace),
    ensures
        forall|i: int| 0 <= i < trace.len() ==> run_is_judged(strategy, #[trigger] trace[i]),
{
    let sz = strategy.sector_size as int;
    assert forall|i: int| 0 <= i < trace.len() implies run_is_judged(
        strategy,
        #[trigger] trace[i],
    ) by {
        let t = trace[i];
        assert(scrub_run::run_traced(strategy, batch, env, t));
        assert forall|r: int, k: int|
            0 <= r < t.rsp.good@.len() && t.rsp.good@[r].0 as int % sz == 0 && 0 <= k
                < t.cmd.entries@.len() && #[trigger] holds_sector(
                t.rsp.good@[r],
                sz,
                k,
            ) implies {
            strategy.csum(sector_in(t.rsp.good@[r], sz, k)) != t.cmd.entries@[k].csum@
                <==> exists|j: int|
                0 <= j < t.done.findings.mismatches@.len() && tells_of(
                    #[trigger] t.done.findings.mismatches@[j],
                    t.cmd.dext,
                    t.cmd.entries@[k],
                    strategy.csum(sector_in(t.rsp.good@[r], sz, k)),
                )
        } by {
            law_read_sector_is_told_of_iff_it_mismatches(
                strategy,
                t.cmd.dext,
                t.rsp.good@,
                t.rsp.bad@,
                t.rsp.isolation_truncated,
                t.cmd.entries@,
                batch,
                t.done.findings,
                r,
                k,
            );
        }
        law_run_counts_the_intact_sectors(
            strategy,
            t.cmd.dext,
            t.rsp.good@,
            t.rsp.bad@,
            t.rsp.isolation_truncated,
            t.cmd.entries@,
            batch,
            t.done.findings,
        );
    }
}

/// The command for a run reads from where its first sector lies on the disk to
/// where its last one ends.
pub proof fn law_command_covers_its_run(dext: DevExtent, run: Vec<CsumEntry>, sector_size: u64)
    requires
        scrub::is_run(run@, sector_size),
        dext.chunk_offset <= run@[0].logical,
        dext.phys_start + (run@[0].logical - dext.chunk_offset) <= u64::MAX,
        run@.len() * sector_size <= usize::MAX,
    ensures
        ({
            let cmd = scrub_run::command_of(dext, run, sector_size);
            let first = run@[0].logical - dext.chunk_offset;
            let end = run@.last().logical + sector_size - dext.chunk_offset;
            &&& cmd.phys == dext.phys_start + first
            &&& cmd.phys + cmd.len == dext.phys_start + end
            &&& cmd.dext == dext
            &&& cmd.entries == run
            &&& cmd.sector_size == sector_size
        }),
{
    let n = run@.len() as int;
    lemma_run_is_contiguous(run@, sector_size, n - 1);
    assert((n - 1) * sector_size + sector_size == n * sector_size) by (nonlinear_arith);
}

/// The read lies in the range, and failed.
pub open spec fn fails_in<E, R: Fn(u64, usize) -> Result<Vec<u8>, E>>(
    read: R,
    off: u64,
    len: usize,
    f: (u64, usize),
) -> bool {
    &&& off <= f.0
    &&& f.0 + f.1 <= off + len
    &&& exists|e: E| #[trigger] call_ensures(read, (f.0, f.1), Err::<Vec<u8>, E>(e))
}

/// Isolation is cut short only once as many different reads in the range have
/// failed as the limit says.
pub proof fn law_isolation_gives_up_only_at_its_limit<
    E,
    R: Fn(u64, usize) -> Result<Vec<u8>, E>,
>(read: R, off: u64, len: usize, sector_size: u64, limit: usize, r: ReadRsp) -> (fails: Seq<
    (u64, usize),
>)
    requires
        call_ensures(
            scrub::isolate_run_read::<E, R>,
            (&read, off, len, sector_size, limit),
            r,
        ),
        limit > 0,
    ensures
        r.isolation_truncated <==> fails.len() == limit,
        fails.len() <= limit,
        fails.no_duplicates(),
        forall|i: int| 0 <= i < fails.len() ==> fails_in::<E, R>(read, off, len, #[trigger] fails[i]),
{
    let fails = choose|fails: Seq<(u64, usize)>|
        {
            &&& #[trigger] isolate::failed_reads::<E, R>(read, off as int, len as int, fails)
            &&& r.isolation_truncated == (fails.len() == limit)
            &&& fails.len() <= limit
        };
    assert forall|i: int| 0 <= i < fails.len() implies fails_in::<E, R>(
        read,
        off,
        len,
        #[trigger] fails[i],
    ) by {
        assert(isolate::failed_within::<E, R>(read, off as int, len as int, fails[i]));
        assert(isolate::may_fail::<E, R>(read, fails[i].0 as int, fails[i].1 as int));
    }
    fails
}

/// The tell was made.
pub open spec fn told<T: Fn(Tell)>(tell: T, what: Tell) -> bool {
    call_ensures(tell, (what,), ())
}

/// Nothing that a run came to is kept back: its account is told, and that its
/// isolation was given up; every sector that could not be read is emitted, and
/// every read error told.
pub proof fn law_what_a_run_came_to_is_told<
    N: Fn(u64, u64) -> Vec<CsumEntry>,
    U: Fn(&ReadCmd) -> bool,
    G: Fn(&ReadCmd) -> Option<ReadRsp>,
    L: Fn(u64, &Vec<u8>) -> Option<Reconfirm>,
    F: Fn(u64, u64, usize) -> Option<Vec<u8>>,
    O: Fn(&SectorResult),
    T: Fn(Tell),
>(
    strategy: CsumStrategy,
    batch: bool,
    env: ScrubEnv<N, U, G, L, F, O, T>,
    t: RunTrace,
)
    requires
        scrub_run::run_traced(strategy, batch, env, t),
    ensures
        told(env.tell, Tell::Counted(t.done.stats)),
        t.done.stats.isolation_truncated > 0 ==> told(env.tell, Tell::Truncated),
        forall|i: int|
            0 <= i < t.done.findings.unreadable@.len() ==> emitted(
                env.emit,
                #[trigger] t.done.findings.unreadable@[i],
            ),
        forall|i: int|
            0 <= i < t.done.findings.read_errors@.len() ==> told(
                env.tell,
                Tell::ReadError {
                    phys: (#[trigger] t.done.findings.read_errors@[i]).0,
                    devid: t.cmd.dext.devid,
                    logical: t.done.findings.read_errors@[i].1,
                },
            ),
{
    let d = t.done;
    assert(scrub_run::announced(env.emit, env.tell, batch, t.cmd.dext.devid, d));
    assert forall|i: int| 0 <= i < d.findings.unreadable@.len() implies emitted(
        env.emit,
        #[trigger] d.findings.unreadable@[i],
    ) by {
        assert(call_ensures(env.emit, (&d.findings.unreadable@[i],), ()));
    }
    assert forall|i: int| 0 <= i < d.findings.read_errors@.len() implies told(
        env.tell,
        Tell::ReadError {
            phys: (#[trigger] d.findings.read_errors@[i]).0,
            devid: t.cmd.dext.devid,
            logical: d.findings.read_errors@[i].1,
        },
    ) by {
        assert(scrub_run::read_error_told(
            env.tell,
            t.cmd.dext.devid,
            d.findings.read_errors@[i],
        ));
    }
}

/// Outside batch mode a mismatch that the live metadata confirms, and that a fresh
/// read does not lift, is counted as corruption and emitted; one that the live
/// metadata calls stale is counted as stale.
pub proof fn law_confirmed_corruption_is_emitted<
    N: Fn(u64, u64) -> Vec<CsumEntry>,
    U: Fn(&ReadCmd) -> bool,
    G: Fn(&ReadCmd) -> Option<ReadRsp>,
    L: Fn(u64, &Vec<u8>) -> Option<Reconfirm>,
    F: Fn(u64, u64, usize) -> Option<Vec<u8>>,
    O: Fn(&SectorResult),
    T: Fn(Tell),
>(
    strategy: CsumStrategy,
    env: ScrubEnv<N, U, G, L, F, O, T>,
    t: RunTrace,
    i: int,
    stored: Vec<u8>,
)
    requires
        scrub_run::run_traced(strategy, false, env, t),
        0 <= i < t.done.findings.mismatches@.len(),
        t.done.findings.mismatches@[i].stored_csum == Some(stored),
    ensures
        ({
            let m = t.done.findings.mismatches@[i];
            &&& (forall|l: Option<Reconfirm>| #[trigger]
                call_ensures(env.live, (m.logical, &stored), l) ==> l == Some(
                    Reconfirm::Corruption,
                )) && (forall|f: Option<Vec<u8>>| #[trigger]
                call_ensures(env.fresh, (m.devid, m.array_phys, strategy.sector_size as usize), f)
                    ==> (f matches Some(b) ==> strategy.csum(b@) != stored@))
                ==> t.done.settled@[i] is Corruption && emitted(env.emit, m)
            &&& (forall|l: Option<Reconfirm>| #[trigger]
                call_ensures(env.live, (m.logical, &stored), l) ==> l == Some(Reconfirm::Stale))
                ==> t.done.settled@[i] is Stale
        }),
{
    let d = t.done;
    let m = d.findings.mismatches@[i];
    assert(scrub_run::settles(strategy, env.live, env.fresh, m, d.settled@[i]));
    assert(scrub_run::announced(env.emit, env.tell, false, t.cmd.dext.devid, d));
    if d.settled@[i] is Corruption {
        assert(call_ensures(env.emit, (&d.findings.mismatches@[i],), ()));
    }
}

/// Of every extent of a device that was scrubbed something is told: that no chunk
/// maps it, or that all of its bytes are done; and what comes next is asked for
/// ahead.
pub proof fn law_every_extent_is_told_of<
    N: Fn(u64, u64) -> Vec<CsumEntry>,
    U: Fn(&ReadCmd) -> bool,
    G: Fn(&ReadCmd) -> Option<ReadRsp>,
    L: Fn(u64, &Vec<u8>) -> Option<Reconfirm>,
    F: Fn(u64, u64, usize) -> Option<Vec<u8>>,
    O: Fn(&SectorResult),
    T: Fn(Tell),
>(
    chunk_map: ChunkMap,
    extents: Seq<DevExtent>,
    strategy: CsumStrategy,
    batch: bool,
    env: ScrubEnv<N, U, G, L, F, O, T>,
    traces: Seq<ExtentTrace>,
    trace: Seq<RunTrace>,
    x: int,
)
    requires
        scrub_run::scrubbed(chunk_map, extents, strategy, batch, env, traces, trace),
        0 <= x < extents.len(),
    ensures
        chunk_map.unmapped(extents[x].chunk_offset) ==> told(env.tell, Tell::NoChunk(extents[x])),
        scrub::maps_data(chunk_map, extents[x].chunk_offset) ==> told(
            env.tell,
            Tell::Progress(extents[x].length),
        ),
        scrub::maps_data(chunk_map, extents[x].chunk_offset) && x + 1 < extents.len()
            && scrub::maps_data(chunk_map, extents[x + 1].chunk_offset) ==> exists|len: u64|
            len == scrub::hint_len(extents[x + 1], strategy.sector_size) as u64 && #[trigger] told(
                env.tell,
                Tell::Prefetch { logical: extents[x + 1].chunk_offset, len },
            ),
{
    assert(scrub_run::extent_told(chunk_map, extents, strategy.sector_size, env.tell, x));
    if scrub::maps_data(chunk_map, extents[x].chunk_offset) && x + 1 < extents.len()
        && scrub::maps_data(chunk_map, extents[x + 1].chunk_offset) {
        let len = scrub::hint_len(extents[x + 1], strategy.sector_size) as u64;
        assert(told(
            env.tell,
            Tell::Prefetch { logical: extents[x + 1].chunk_offset, len },
        ));
    }
}

} // verus!
