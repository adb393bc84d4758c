//! Divide-and-conquer isolation of unreadable sectors inside a failing read.

use vstd::prelude::*;

verus! {

/// A failing read is split into this many sector-aligned pieces per level.
pub const EIO_SPLIT_FACTOR: usize = 8;

/// Default isolation budget: failing reads tolerated before giving up.
pub const MAX_ISOLATION_FAILING_READS: usize = 64;

/// Budget for EIO isolation: how many failing reads to tolerate before marking
/// the remainder unreadable without probing.
#[derive(Debug, Clone, Copy, PartialEq, Eq, Structural)]
pub struct IsolationBudget {
    pub remaining: usize,
    /// Set once the budget is spent; remaining sectors are marked bad.
    pub exhausted: bool,
}

impl IsolationBudget {
    pub fn new(limit: usize) -> (r: Self)
        ensures
            r == (IsolationBudget { remaining: limit, exhausted: false }),
    {
        IsolationBudget { remaining: limit, exhausted: false }
    }

    /// The budget after one failing read.
    pub open spec fn charged(&self) -> IsolationBudget {
        IsolationBudget {
            remaining: if self.remaining == 0 { 0 } else { (self.remaining - 1) as usize },
            exhausted: self.exhausted || self.remaining <= 1,
        }
    }

    /// Takes one failing read off the budget.
    pub fn charge(&mut self)
        ensures
            *final(self) == old(self).charged(),
    {
        self.remaining = self.remaining.saturating_sub(1);
        if self.remaining == 0 {
            self.exhausted = true;
        }
    }

    /// Failing reads that the budget still bears. One that holds nothing is
    /// found spent at the first failing read.
    pub open spec fn bears(&self) -> nat {
        if self.exhausted {
            0
        } else if self.remaining == 0 {
            1
        } else {
            self.remaining as nat
        }
    }

    /// `later` is the budget after `n` more failing reads: it is exhausted just
    /// when it bore no more than these.
    pub open spec fn spent_to(&self, n: nat, later: IsolationBudget) -> bool {
        &&& n <= self.bears()
        &&& later.remaining == (if n <= self.remaining { self.remaining - n } else { 0 })
        &&& later.exhausted == (n == self.bears())
    }
}

/// Reads give as many bytes as they are asked for.
pub open spec fn reads_exactly<E, R: Fn(u64, usize) -> Result<Vec<u8>, E>>(read: R) -> bool {
    forall|p: u64, l: usize, b: Vec<u8>| #[trigger]
        call_ensures(read, (p, l), Ok::<Vec<u8>, E>(b)) ==> b@.len() == l
}

/// A read of `l` bytes at `p` may give `b`.
pub open spec fn may_read<E, R: Fn(u64, usize) -> Result<Vec<u8>, E>>(
    read: R,
    p: int,
    l: int,
    b: Vec<u8>,
) -> bool {
    call_ensures(read, (p as u64, l as usize), Ok::<Vec<u8>, E>(b))
}

/// A read of `l` bytes at `p` may fail.
pub open spec fn may_fail<E, R: Fn(u64, usize) -> Result<Vec<u8>, E>>(
    read: R,
    p: int,
    l: int,
) -> bool {
    exists|e: E| #[trigger]
        call_ensures(read, (p as u64, l as usize), Err::<Vec<u8>, E>(e))
}

/// No read fails.
pub open spec fn never_fails<E, R: Fn(u64, usize) -> Result<Vec<u8>, E>>(read: R) -> bool {
    forall|p: u64, l: usize, e: E| !#[trigger]
        call_ensures(read, (p, l), Err::<Vec<u8>, E>(e))
}

/// `fails` are distinct reads inside the `len` bytes from `phys` on, each of
/// which may fail.
pub open spec fn failed_reads<E, R: Fn(u64, usize) -> Result<Vec<u8>, E>>(
    read: R,
    phys: int,
    len: int,
    fails: Seq<(u64, usize)>,
) -> bool {
    &&& fails.no_duplicates()
    &&& forall|i: int|
        0 <= i < fails.len() ==> failed_within::<E, R>(read, phys, len, #[trigger] fails[i])
}

/// A read of at least a byte inside the `len` bytes from `phys` on, which may
/// fail.
pub open spec fn failed_within<E, R: Fn(u64, usize) -> Result<Vec<u8>, E>>(
    read: R,
    phys: int,
    len: int,
    f: (u64, usize),
) -> bool {
    &&& phys <= f.0
    &&& f.0 + f.1 <= phys + len
    &&& f.1 > 0
    &&& may_fail::<E, R>(read, f.0 as int, f.1 as int)
}

/// Failed reads of two adjacent ranges are distinct.
proof fn lemma_failed_append<E, R: Fn(u64, usize) -> Result<Vec<u8>, E>>(
    read: R,
    phys: int,
    len1: int,
    len2: int,
    f1: Seq<(u64, usize)>,
    f2: Seq<(u64, usize)>,
)
    requires
        len1 >= 0,
        len2 >= 0,
        failed_reads::<E, R>(read, phys, len1, f1),
        failed_reads::<E, R>(read, phys + len1, len2, f2),
    ensures
        failed_reads::<E, R>(read, phys, len1 + len2, f1 + f2),
{
    let f = f1 + f2;
    assert forall|i: int| 0 <= i < f.len() implies failed_within::<E, R>(
        read,
        phys,
        len1 + len2,
        #[trigger] f[i],
    ) by {
        if i < f1.len() {
            assert(failed_within::<E, R>(read, phys, len1, f1[i]));
        } else {
            assert(failed_within::<E, R>(read, phys + len1, len2, f2[i - f1.len()]));
        }
    }
    assert forall|i: int, j: int| 0 <= i < f.len() && 0 <= j < f.len() && i != j implies f[i]
        != f[j] by {
        if i < f1.len() {
            assert(failed_within::<E, R>(read, phys, len1, f1[i]));
        } else {
            assert(failed_within::<E, R>(read, phys + len1, len2, f2[i - f1.len()]));
        }
        if j < f1.len() {
            assert(failed_within::<E, R>(read, phys, len1, f1[j]));
        } else {
            assert(failed_within::<E, R>(read, phys + len1, len2, f2[j - f1.len()]));
        }
    }
}

/// Byte `off` lies in one of the regions.
pub open spec fn in_regions(good: Seq<(usize, Vec<u8>)>, off: int) -> bool {
    exists|i: int| 0 <= i < good.len() && in_region(#[trigger] good[i], off)
}

/// Byte `off` lies in the region.
pub open spec fn in_region(g: (usize, Vec<u8>), off: int) -> bool {
    g.0 <= off < g.0 + g.1@.len()
}

/// `off` is one of the listed sector offsets.
pub open spec fn in_list(bad: Seq<usize>, off: int) -> bool {
    exists|i: int| 0 <= i < bad.len() && #[trigger] bad[i] == off
}

/// Bytes in all regions together.
pub open spec fn region_bytes(good: Seq<(usize, Vec<u8>)>) -> int
    decreases good.len(),
{
    if good.len() == 0 {
        0
    } else {
        region_bytes(good.drop_last()) + good.last().1@.len()
    }
}

/// A good region: whole sectors inside the range, with the bytes that reading
/// it gave.
pub open spec fn region_ok<E, R: Fn(u64, usize) -> Result<Vec<u8>, E>>(
    read: R,
    phys: int,
    start: int,
    len: int,
    sz: int,
    g: (usize, Vec<u8>),
) -> bool {
    &&& start <= g.0
    &&& g.0 + g.1@.len() <= start + len
    &&& g.1@.len() > 0
    &&& g.0 as int % sz == 0
    &&& g.1@.len() as int % sz == 0
    &&& may_read(read, phys + (g.0 - start), g.1@.len() as int, g.1)
}

/// A bad sector: inside the range, and, unless the budget ran out, found bad by
/// a read of just that sector.
pub open spec fn sector_bad<E, R: Fn(u64, usize) -> Result<Vec<u8>, E>>(
    read: R,
    phys: int,
    start: int,
    len: int,
    sz: int,
    exhausted: bool,
    b: usize,
) -> bool {
    &&& start <= b
    &&& b + sz <= start + len
    &&& b as int % sz == 0
    &&& exhausted || may_fail(read, phys + (b - start), sz)
}

/// The sectors of `[start, start + len)`, read from `phys` on, are told apart
/// into good regions and bad sectors: each sector is in exactly one of the two,
/// both lists ascend and nothing overlaps.
pub open spec fn isolated<E, R: Fn(u64, usize) -> Result<Vec<u8>, E>>(
    read: R,
    phys: int,
    start: int,
    len: int,
    sz: int,
    exhausted: bool,
    good: Seq<(usize, Vec<u8>)>,
    bad: Seq<usize>,
) -> bool {
    &&& forall|i: int|
        0 <= i < good.len() ==> region_ok(read, phys, start, len, sz, #[trigger] good[i])
    &&& forall|i: int|
        0 <= i < bad.len() ==> sector_bad(
            read,
            phys,
            start,
            len,
            sz,
            exhausted,
            #[trigger] bad[i],
        )
    &&& forall|i: int, j: int|
        0 <= i < j < good.len() ==> (#[trigger] good[i]).0 + good[i].1@.len() <= (
        #[trigger] good[j]).0
    &&& forall|i: int, j: int| 0 <= i < j < bad.len() ==> #[trigger] bad[i] < #[trigger] bad[j]
    &&& forall|off: int|
        start <= off < start + len && off % sz == 0 ==> (#[trigger] in_regions(good, off)
            <==> !in_list(bad, off))
    &&& region_bytes(good) + bad.len() * sz == len
}

proof fn lemma_region_bytes_append(a: Seq<(usize, Vec<u8>)>, b: Seq<(usize, Vec<u8>)>)
    ensures
        region_bytes(a + b) == region_bytes(a) + region_bytes(b),
    decreases b.len(),
{
    if b.len() == 0 {
        assert(a + b =~= a);
    } else {
        lemma_region_bytes_append(a, b.drop_last());
        assert((a + b).drop_last() =~= a + b.drop_last());
    }
}

/// Nothing in an empty range.
proof fn lemma_isolated_empty<E, R: Fn(u64, usize) -> Result<Vec<u8>, E>>(
    read: R,
    phys: int,
    start: int,
    sz: int,
    exhausted: bool,
)
    ensures
        isolated(read, phys, start, 0, sz, exhausted, Seq::empty(), Seq::empty()),
{
}

/// Two adjacent ranges that are told apart make one.
proof fn lemma_isolated_append<E, R: Fn(u64, usize) -> Result<Vec<u8>, E>>(
    read: R,
    phys: int,
    start: int,
    len1: int,
    len2: int,
    sz: int,
    ex1: bool,
    ex2: bool,
    g1: Seq<(usize, Vec<u8>)>,
    b1: Seq<usize>,
    g2: Seq<(usize, Vec<u8>)>,
    b2: Seq<usize>,
)
    requires
        sz > 0,
        len1 >= 0,
        len2 >= 0,
        isolated(read, phys, start, len1, sz, ex1, g1, b1),
        isolated(read, phys + len1, start + len1, len2, sz, ex2, g2, b2),
        ex1 ==> ex2,
    ensures
        isolated(read, phys, start, len1 + len2, sz, ex2, g1 + g2, b1 + b2),
{
    let g = g1 + g2;
    let b = b1 + b2;
    let len = len1 + len2;
    lemma_region_bytes_append(g1, g2);
    assert(b.len() * sz == b1.len() * sz + b2.len() * sz) by (nonlinear_arith)
        requires
            b.len() == b1.len() + b2.len(),
    ;
    assert forall|i: int| 0 <= i < g.len() implies region_ok(
        read,
        phys,
        start,
        len,
        sz,
        #[trigger] g[i],
    ) by {
        if i < g1.len() {
            assert(region_ok(read, phys, start, len1, sz, g1[i]));
        } else {
            let h = g2[i - g1.len()];
            assert(region_ok(read, phys + len1, start + len1, len2, sz, h));
            assert(phys + len1 + (h.0 - (start + len1)) == phys + (h.0 - start));
        }
    }
    assert forall|i: int| 0 <= i < b.len() implies sector_bad(
        read,
        phys,
        start,
        len,
        sz,
        ex2,
        #[trigger] b[i],
    ) by {
        if i < b1.len() {
            assert(sector_bad(read, phys, start, len1, sz, ex1, b1[i]));
        } else {
            let h = b2[i - b1.len()];
            assert(sector_bad(read, phys + len1, start + len1, len2, sz, ex2, h));
            assert(phys + len1 + (h - (start + len1)) == phys + (h - start));
        }
    }
    assert forall|i: int, j: int| 0 <= i < j < g.len() implies (#[trigger] g[i]).0 + g[i].1@.len()
        <= (#[trigger] g[j]).0 by {
        if i < g1.len() && j >= g1.len() {
            assert(region_ok(read, phys, start, len1, sz, g1[i]));
            assert(region_ok(read, phys + len1, start + len1, len2, sz, g2[j - g1.len()]));
        } else if j < g1.len() {
            assert(g1[i].0 + g1[i].1@.len() <= g1[j].0);
        } else {
            assert(g2[i - g1.len()].0 + g2[i - g1.len()].1@.len() <= g2[j - g1.len()].0);
        }
    }
    assert forall|i: int, j: int| 0 <= i < j < b.len() implies #[trigger] b[i] < #[trigger] b[j] by {
        if i < b1.len() && j >= b1.len() {
            assert(sector_bad(read, phys, start, len1, sz, ex1, b1[i]));
            assert(sector_bad(read, phys + len1, start + len1, len2, sz, ex2, b2[j - b1.len()]));
        } else if j < b1.len() {
            assert(b1[i] < b1[j]);
        } else {
            assert(b2[i - b1.len()] < b2[j - b1.len()]);
        }
    }
    assert forall|off: int| start <= off < start + len && off % sz == 0 implies (
    #[trigger] in_regions(g, off) <==> !in_list(b, off)) by {
        // Each half answers for its own offsets and holds none of the other's.
        if in_regions(g, off) {
            let i = choose|i: int| 0 <= i < g.len() && in_region(#[trigger] g[i], off);
            if i < g1.len() {
                assert(region_ok(read, phys, start, len1, sz, g1[i]));
                assert(in_region(g1[i], off));
                assert(in_regions(g1, off));
            } else {
                assert(region_ok(read, phys + len1, start + len1, len2, sz, g2[i - g1.len()]));
                assert(in_region(g2[i - g1.len()], off));
                assert(in_regions(g2, off));
            }
        }
        if in_list(b, off) {
            let i = choose|i: int| 0 <= i < b.len() && #[trigger] b[i] == off;
            if i < b1.len() {
                assert(sector_bad(read, phys, start, len1, sz, ex1, b1[i]));
                assert(b1[i] == off);
                assert(in_list(b1, off));
            } else {
                assert(sector_bad(
                    read,
                    phys + len1,
                    start + len1,
                    len2,
                    sz,
                    ex2,
                    b2[i - b1.len()],
                ));
                assert(b2[i - b1.len()] == off);
                assert(in_list(b2, off));
            }
        }
        if off < start + len1 {
            assert(in_regions(g1, off) <==> !in_list(b1, off));
            if in_regions(g1, off) {
                let i = choose|i: int| 0 <= i < g1.len() && in_region(#[trigger] g1[i], off);
                assert(g[i] == g1[i]);
            }
            if in_list(b1, off) {
                let i = choose|i: int| 0 <= i < b1.len() && #[trigger] b1[i] == off;
                assert(b[i] == b1[i]);
            }
        } else {
            assert(in_regions(g2, off) <==> !in_list(b2, off));
            if in_regions(g2, off) {
                let i = choose|i: int| 0 <= i < g2.len() && in_region(#[trigger] g2[i], off);
                assert(g[g1.len() + i] == g2[i]);
            }
            if in_list(b2, off) {
                let i = choose|i: int| 0 <= i < b2.len() && #[trigger] b2[i] == off;
                assert(b[b1.len() + i] == b2[i]);
            }
        }
    }
}

/// One region that read cleanly.
proof fn lemma_isolated_good<E, R: Fn(u64, usize) -> Result<Vec<u8>, E>>(
    read: R,
    phys: int,
    start: usize,
    len: int,
    sz: int,
    exhausted: bool,
    buf: Vec<u8>,
)
    requires
        sz > 0,
        len > 0,
        buf@.len() == len,
        start as int % sz == 0,
        len % sz == 0,
        may_read(read, phys, len, buf),
    ensures
        isolated(read, phys, start as int, len, sz, exhausted, seq![(start, buf)], Seq::empty()),
{
    let g = seq![(start, buf)];
    assert(region_bytes(g) == len) by {
        reveal_with_fuel(region_bytes, 2);
        assert(g.drop_last() =~= Seq::empty());
    }
    assert forall|off: int| start <= off < start + len && off % sz == 0 implies (
    #[trigger] in_regions(g, off) <==> !in_list(Seq::empty(), off)) by {
        assert(in_region(g[0], off));
    }
}

/// The sector offsets of a range.
spec fn sectors(start: int, sz: int, n: nat) -> Seq<usize> {
    Seq::new(n, |i: int| (start + i * sz) as usize)
}

/// Sector `i` of `n` lies inside the range, on a sector boundary.
proof fn lemma_sector_offset(start: int, i: int, n: int, sz: int)
    requires
        0 <= i < n,
        sz > 0,
        start % sz == 0,
    ensures
        0 <= i * sz,
        i * sz + sz <= n * sz,
        (start + i * sz) % sz == 0,
{
    assert(0 <= i * sz && i * sz + sz <= n * sz) by (nonlinear_arith)
        requires
            0 <= i < n,
            sz > 0,
    ;
    vstd::arithmetic::div_mod::lemma_mod_multiples_vanish(i, start, sz);
    assert(sz * i + start == start + i * sz) by (nonlinear_arith);
}

/// A range marked bad as a whole.
proof fn lemma_isolated_bad<E, R: Fn(u64, usize) -> Result<Vec<u8>, E>>(
    read: R,
    phys: int,
    start: int,
    n: nat,
    sz: int,
    exhausted: bool,
)
    requires
        sz > 0,
        start >= 0,
        start % sz == 0,
        start + n * sz <= usize::MAX,
        exhausted || (n == 1 && may_fail(read, phys, sz)),
    ensures
        isolated(read, phys, start, n * sz, sz, exhausted, Seq::empty(), sectors(start, sz, n)),
{
    let b = sectors(start, sz, n);
    assert forall|i: int| 0 <= i < b.len() implies sector_bad(
        read,
        phys,
        start,
        n * sz,
        sz,
        exhausted,
        #[trigger] b[i],
    ) by {
        lemma_sector_offset(start, i, n as int, sz);
        assert(b[i] == start + i * sz);
        if n == 1 {
            assert(i == 0);
            assert(0 * sz == 0);
        }
    }
    assert forall|i: int, j: int| 0 <= i < j < b.len() implies #[trigger] b[i] < #[trigger] b[j] by {
        assert(i * sz < j * sz) by (nonlinear_arith)
            requires
                0 <= i < j,
                sz > 0,
        ;
        lemma_sector_offset(start, i, n as int, sz);
        lemma_sector_offset(start, j, n as int, sz);
    }
    assert forall|off: int| start <= off < start + n * sz && off % sz == 0 implies (
    #[trigger] in_regions(Seq::empty(), off) <==> !in_list(b, off)) by {
        let i = (off - start) / sz;
        vstd::arithmetic::div_mod::lemma_fundamental_div_mod(off - start, sz);
        vstd::arithmetic::div_mod::lemma_sub_mod_noop(off, start, sz);
        assert((off - start) % sz == 0) by {
            assert(((off % sz) - (start % sz)) % sz == (off - start) % sz);
            assert(0int % sz == 0) by (nonlinear_arith)
                requires
                    sz > 0,
            ;
        }
        assert(sz * i == i * sz) by (nonlinear_arith);
        assert(0 <= i < n) by (nonlinear_arith)
            requires
                off - start == sz * i,
                0 <= off - start < n * sz,
                sz > 0,
        ;
        assert(b[i] == off);
    }
}

/// Marks every sector of a range bad.
fn mark_bad(start: usize, len: usize, sz: usize, bad: &mut Vec<usize>)
    requires
        sz > 0,
        len as int % sz as int == 0,
        start + len <= usize::MAX,
    ensures
        final(bad)@ == old(bad)@ + sectors(start as int, sz as int, (len / sz) as nat),
{
    let nsec: usize = len / sz;
    let mut i: usize = 0;
    assert(bad@ =~= old(bad)@ + sectors(start as int, sz as int, 0));
    proof {
        vstd::arithmetic::div_mod::lemma_fundamental_div_mod(len as int, sz as int);
        assert(nsec * sz == len) by (nonlinear_arith)
            requires
                len == sz * nsec,
        ;
    }
    while i < nsec
        invariant
            i <= nsec,
            nsec * sz == len,
            start + len <= usize::MAX,
            bad@ == old(bad)@ + sectors(start as int, sz as int, i as nat),
        decreases nsec - i,
    {
        assert(0 <= i * sz <= nsec * sz) by (nonlinear_arith)
            requires
                0 <= i <= nsec,
                sz >= 0,
        ;
        bad.push(start + i * sz);
        i = i + 1;
        assert(bad@ =~= old(bad)@ + sectors(start as int, sz as int, i as nat));
    }
}

/// Divide-and-conquer EIO isolation: tries the whole range; on failure splits it
/// into sector-aligned pieces and recurses until each failing sector is
/// identified. A region that reads cleanly is kept whole. Once the budget of
/// failing reads is spent, what is left is marked bad without further reads.
pub fn isolate_run<E, R: Fn(u64, usize) -> Result<Vec<u8>, E>>(
    read: &R,
    phys: u64,
    start: usize,
    len: usize,
    sector_size: u64,
    budget: &mut IsolationBudget,
    good: &mut Vec<(usize, Vec<u8>)>,
    bad: &mut Vec<usize>,
)
    requires
        0 < sector_size <= usize::MAX,
        start as int % sector_size as int == 0,
        len as int % sector_size as int == 0,
        phys + len <= u64::MAX,
        start + len <= usize::MAX,
        forall|p: u64, l: usize| #[trigger] call_requires(*read, (p, l)),
        reads_exactly::<E, R>(*read),
    ensures
        exists|fails: Seq<(u64, usize)>|
            {
                &&& #[trigger] failed_reads::<E, R>(*read, phys as int, len as int, fails)
                &&& old(budget).spent_to(fails.len(), *final(budget))
            },
        exists|g: Seq<(usize, Vec<u8>)>, b: Seq<usize>|
            {
                &&& final(good)@ == old(good)@ + g
                &&& final(bad)@ == old(bad)@ + b
                &&& #[trigger] isolated::<E, R>(
                    *read,
                    phys as int,
                    start as int,
                    len as int,
                    sector_size as int,
                    final(budget).exhausted,
                    g,
                    b,
                )
                &&& never_fails::<E, R>(*read) && !old(budget).exhausted && len > 0 ==> {
                    &&& *final(budget) == *old(budget)
                    &&& g.len() == 1
                    &&& b.len() == 0
                }
            },
    decreases len,
{
    let sz: usize = sector_size as usize;
    let ghost none_g: Seq<(usize, Vec<u8>)> = Seq::empty();
    let ghost none_b: Seq<usize> = Seq::empty();
    let ghost no_fails: Seq<(u64, usize)> = Seq::empty();
    assert(failed_reads::<E, R>(*read, phys as int, len as int, no_fails));
    let ghost nsec_spec: nat = (len as int / sz as int) as nat;
    proof {
        vstd::arithmetic::div_mod::lemma_fundamental_div_mod(len as int, sz as int);
        assert(nsec_spec * sz == len) by (nonlinear_arith)
            requires
                len == sz * (len as int / sz as int) + len as int % sz as int,
                len as int % sz as int == 0,
                nsec_spec == len as int / sz as int,
        ;
    }
    if len == 0 {
        proof {
            lemma_isolated_empty::<E, R>(
                *read,
                phys as int,
                start as int,
                sz as int,
                budget.exhausted,
            );
            assert(good@ =~= old(good)@ + none_g);
            assert(bad@ =~= old(bad)@ + none_b);
        }
        return;
    }
    if budget.exhausted {
        mark_bad(start, len, sz, bad);
        proof {
            lemma_isolated_bad::<E, R>(
                *read,
                phys as int,
                start as int,
                nsec_spec,
                sz as int,
                true,
            );
            assert(good@ =~= old(good)@ + none_g);
        }
        return;
    }
    match read(phys, len) {
        Ok(buf) => {
            let ghost kept = buf;
            proof {
                assert(may_read(*read, phys as int, len as int, buf));
                lemma_isolated_good::<E, R>(
                    *read,
                    phys as int,
                    start,
                    len as int,
                    sz as int,
                    budget.exhausted,
                    buf,
                );
            }
            good.push((start, buf));
            proof {
                assert(good@ =~= old(good)@ + seq![(start, kept)]);
                assert(bad@ =~= old(bad)@ + none_b);
            }
            return;
        },
        Err(e) => {
            proof {
                assert(call_ensures(
                    *read,
                    ((phys as int) as u64, (len as int) as usize),
                    Err::<Vec<u8>, E>(e),
                ));
                assert(may_fail::<E, R>(*read, phys as int, len as int));
            }
            budget.charge();
        },
    }
    let ghost first: Seq<(u64, usize)> = seq![(phys, len)];
    assert(failed_reads::<E, R>(*read, phys as int, len as int, first));
    assert(old(budget).spent_to(first.len(), *budget));
    let ghost charged = *budget;
    if len <= sz {
        // A single sector: the failed read decides.
        proof {
            assert(nsec_spec == 1) by (nonlinear_arith)
                requires
                    nsec_spec * sz == len,
                    0 < len <= sz,
            ;
            assert(len == sz) by (nonlinear_arith)
                requires
                    nsec_spec * sz == len,
                    nsec_spec == 1,
            ;
            lemma_isolated_bad::<E, R>(
                *read,
                phys as int,
                start as int,
                1,
                sz as int,
                budget.exhausted,
            );
            assert(sectors(start as int, sz as int, 1) =~= seq![start]) by {
                assert(0 * (sz as int) == 0);
            }
        }
        bad.push(start);
        proof {
            assert(1 * (sz as int) == sz);
            assert(bad@ =~= old(bad)@ + seq![start]);
            assert(good@ =~= old(good)@ + none_g);
        }
        return;
    }
    if budget.exhausted {
        mark_bad(start, len, sz, bad);
        proof {
            lemma_isolated_bad::<E, R>(
                *read,
                phys as int,
                start as int,
                nsec_spec,
                sz as int,
                true,
            );
            assert(good@ =~= old(good)@ + none_g);
        }
        return;
    }
    let nsec: usize = len / sz;
    let k: usize = if nsec < EIO_SPLIT_FACTOR { nsec } else { EIO_SPLIT_FACTOR };
    proof {
        assert(nsec >= 2) by (nonlinear_arith)
            requires
                nsec * sz == len,
                len > sz,
                sz > 0,
        ;
    }
    let base: usize = nsec / k;
    let rem: usize = nsec % k;
    proof {
        vstd::arithmetic::div_mod::lemma_fundamental_div_mod(nsec as int, k as int);
        assert(k * base + rem == nsec);
        assert(0 <= rem < k);
        assert(base >= 1 && base + 1 <= nsec && (rem == 0 ==> base < nsec) && (rem > 0 ==> base + 1
            < nsec)) by (nonlinear_arith)
            requires
                k * base + rem == nsec,
                2 <= k <= nsec,
                0 <= rem < k,
        ;
    }
    let mut off: usize = 0;
    let mut done: usize = 0;
    let ghost mut g: Seq<(usize, Vec<u8>)> = Seq::empty();
    let ghost mut b: Seq<usize> = Seq::empty();
    let ghost mut later: Seq<(u64, usize)> = Seq::empty();
    proof {
        assert(failed_reads::<E, R>(*read, phys as int, 0, later));
        lemma_isolated_empty::<E, R>(*read, phys as int, start as int, sz as int, budget.exhausted);
        assert(good@ =~= old(good)@ + g);
        assert(bad@ =~= old(bad)@ + b);
    }
    let mut i: usize = 0;
    while i < k
        invariant
            i <= k,
            2 <= k <= nsec,
            k * base + rem == nsec,
            0 <= rem < k,
            base >= 1,
            rem == 0 ==> base < nsec,
            rem > 0 ==> base + 1 < nsec,
            nsec * sz == len,
            sz == sector_size,
            sz > 0,
            start as int % sector_size as int == 0,
            phys + len <= u64::MAX,
            start + len <= usize::MAX,
            forall|p: u64, l: usize| #[trigger] call_requires(*read, (p, l)),
            reads_exactly::<E, R>(*read),
            done == i * base + (if i < rem { i as int } else { rem as int }),
            off == done * sz,
            done <= nsec,
            failed_reads::<E, R>(*read, phys as int, off as int, later),
            forall|j: int| 0 <= j < later.len() ==> (#[trigger] later[j]).1 < len,
            !charged.exhausted,
            old(budget).spent_to(1, charged),
            charged.spent_to(later.len(), *budget),
            good@ == old(good)@ + g,
            bad@ == old(bad)@ + b,
            !never_fails::<E, R>(*read),
            isolated::<E, R>(
                *read,
                phys as int,
                start as int,
                off as int,
                sz as int,
                budget.exhausted,
                g,
                b,
            ),
        decreases k - i,
    {
        let extra: usize = if i < rem { 1 } else { 0 };
        let piece_nsec: usize = base + extra;
        proof {
            assert(done + piece_nsec <= nsec) by (nonlinear_arith)
                requires
                    done == i * base + (if i < rem { i as int } else { rem as int }),
                    piece_nsec == base + (if i < rem { 1int } else { 0 }),
                    k * base + rem == nsec,
                    0 <= i < k,
                    0 <= rem < k,
                    base >= 1,
            ;
            assert(piece_nsec * sz <= nsec * sz && piece_nsec * sz < nsec * sz && done * sz
                + piece_nsec * sz <= nsec * sz) by (nonlinear_arith)
                requires
                    done + piece_nsec <= nsec,
                    0 < piece_nsec < nsec,
                    sz > 0,
                    done >= 0,
            ;
            vstd::arithmetic::div_mod::lemma_mod_multiples_vanish(
                done as int,
                start as int,
                sz as int,
            );
            assert(sz * done == done * sz) by (nonlinear_arith);
            vstd::arithmetic::div_mod::lemma_mod_multiples_vanish(piece_nsec as int, 0, sz as int);
            assert(sz * piece_nsec == piece_nsec * sz) by (nonlinear_arith);
            assert(0int % (sz as int) == 0) by (nonlinear_arith)
                requires
                    sz > 0,
            ;
        }
        let piece_len: usize = piece_nsec * sz;
        let ghost before_good = good@;
        let ghost before_bad = bad@;
        let ghost before_budget = *budget;
        isolate_run(
            read,
            phys + off as u64,
            start + off,
            piece_len,
            sector_size,
            budget,
            good,
            bad,
        );
        proof {
            let (g2, b2) = choose|g2: Seq<(usize, Vec<u8>)>, b2: Seq<usize>|
                {
                    &&& good@ == before_good + g2
                    &&& bad@ == before_bad + b2
                    &&& #[trigger] isolated::<E, R>(
                        *read,
                        phys + off,
                        start + off,
                        piece_len as int,
                        sz as int,
                        budget.exhausted,
                        g2,
                        b2,
                    )
                };
            lemma_isolated_append::<E, R>(
                *read,
                phys as int,
                start as int,
                off as int,
                piece_len as int,
                sz as int,
                before_budget.exhausted,
                budget.exhausted,
                g,
                b,
                g2,
                b2,
            );
            assert(good@ =~= old(good)@ + (g + g2));
            assert(bad@ =~= old(bad)@ + (b + b2));
            g = g + g2;
            b = b + b2;
            let more = choose|more: Seq<(u64, usize)>|
                {
                    &&& #[trigger] failed_reads::<E, R>(
                        *read,
                        phys + off,
                        piece_len as int,
                        more,
                    )
                    &&& before_budget.spent_to(more.len(), *budget)
                };
            lemma_failed_append::<E, R>(
                *read,
                phys as int,
                off as int,
                piece_len as int,
                later,
                more,
            );
            assert forall|j: int| 0 <= j < (later + more).len() implies (#[trigger] (later
                + more)[j]).1 < len by {
                if j >= later.len() {
                    assert(failed_within::<E, R>(
                        *read,
                        phys + off,
                        piece_len as int,
                        more[j - later.len()],
                    ));
                }
            }
            later = later + more;
            assert((i + 1) * base == i * base + base) by (nonlinear_arith);
            assert((done + piece_nsec) * sz == done * sz + piece_nsec * sz) by (nonlinear_arith);
        }
        off = off + piece_len;
        done = done + piece_nsec;
        i = i + 1;
    }
    assert(done == nsec);
    proof {
        let fails = first + later;
        assert forall|j: int| 0 <= j < fails.len() implies failed_within::<E, R>(
            *read,
            phys as int,
            len as int,
            #[trigger] fails[j],
        ) by {
            if j > 0 {
                assert(failed_within::<E, R>(*read, phys as int, off as int, later[j - 1]));
            }
        }
        assert(failed_reads::<E, R>(*read, phys as int, len as int, fails));
        assert(old(budget).spent_to(fails.len(), *budget));
    }
}

} // verus!
