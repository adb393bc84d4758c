//! The array layout out of /proc/nmdstat (or /proc/mdstat): slots, parity
//! disks, and per-disk offsets.

use std::collections::BTreeMap;

use vstd::prelude::*;
use vstd::slice::slice_subrange;

use crate::array::path;
use crate::text;

verus! {

/// Slot of the secondary (Q) parity disk.
pub const NMDSTAT_Q_SLOT: u64 = 29;

/// Parsed array layout.
#[derive(Debug, Clone)]
pub struct ArrayConfig {
    /// NonRAID slot and raw rdev path of each data disk.
    pub data_devs: BTreeMap<u64, String>,
    /// Primary parity (P) disk: slot 0.
    pub parity_p: Option<String>,
    /// Secondary parity (Q) disk: slot 29.
    pub parity_q: Option<String>,
    /// Raw rdev path and byte offset to add to array-space addresses.
    pub rdev_offsets: Vec<(String, u64)>,
}

/// The offset listed last for a path; 0 for a path that is not listed.
pub open spec fn offset_in(offsets: Seq<(String, u64)>, dev_path: Seq<char>) -> u64
    decreases offsets.len(),
{
    if offsets.len() == 0 {
        0
    } else if path::same_path(offsets.last().0@, dev_path) {
        offsets.last().1
    } else {
        offset_in(offsets.drop_last(), dev_path)
    }
}

/// The disks in slots below `n`, in slot order.
#[verifier::opaque]
pub open spec fn disks_below(devs: Map<u64, String>, n: nat) -> Seq<(u64, String)>
    decreases n,
{
    if n == 0 {
        Seq::empty()
    } else {
        let before = disks_below(devs, (n - 1) as nat);
        let slot = (n - 1) as u64;
        if n <= 0x1_0000_0000_0000_0000 && devs.contains_key(slot) {
            before.push((slot, devs[slot]))
        } else {
            before
        }
    }
}

/// Slots ascend, none twice.
pub open spec fn slots_ascend(devs: Seq<(u64, String)>) -> bool {
    forall|i: int, j: int|
        0 <= i < j < devs.len() ==> (#[trigger] devs[i]).0 < (#[trigger] devs[j]).0
}

/// `list` holds each disk of the map once, in slot order.
pub open spec fn lists(list: Seq<(u64, String)>, devs: Map<u64, String>) -> bool {
    &&& slots_ascend(list)
    &&& forall|i: int|
        0 <= i < list.len() ==> devs.contains_key((#[trigger] list[i]).0) && devs[list[i].0]
            == list[i].1
    &&& forall|slot: u64| #[trigger] devs.contains_key(slot) ==> has_slot(list, slot)
}

/// Some disk of the list is in this slot.
pub open spec fn has_slot(list: Seq<(u64, String)>, slot: u64) -> bool {
    exists|i: int| 0 <= i < list.len() && (#[trigger] list[i]).0 == slot
}

proof fn lemma_disks_below(devs: Map<u64, String>, n: nat)
    requires
        n <= 0x1_0000_0000_0000_0000,
    ensures
        slots_ascend(disks_below(devs, n)),
        forall|i: int|
            0 <= i < disks_below(devs, n).len() ==> (#[trigger] disks_below(devs, n)[i]).0 < n
                && devs.contains_key(disks_below(devs, n)[i].0) && devs[disks_below(devs, n)[i].0]
                == disks_below(devs, n)[i].1,
        forall|slot: u64|
            slot < n && #[trigger] devs.contains_key(slot) ==> has_slot(
                disks_below(devs, n),
                slot,
            ),
    decreases n,
{
    reveal(disks_below);
    if n > 0 {
        lemma_disks_below(devs, (n - 1) as nat);
        let before = disks_below(devs, (n - 1) as nat);
        let list = disks_below(devs, n);
        let last = (n - 1) as u64;
        assert forall|slot: u64| slot < n && #[trigger] devs.contains_key(slot) implies has_slot(
            list,
            slot,
        ) by {
            if slot == last {
                assert(list[list.len() - 1].0 == slot);
            } else {
                assert(has_slot(before, slot));
                let i = choose|i: int| 0 <= i < before.len() && (#[trigger] before[i]).0 == slot;
                assert(list[i] == before[i]);
            }
        }
    }
}

/// A map has one list.
proof fn lemma_one_list(a: Seq<(u64, String)>, b: Seq<(u64, String)>, devs: Map<u64, String>)
    requires
        lists(a, devs),
        lists(b, devs),
    ensures
        a == b,
    decreases a.len(),
{
    if a.len() == 0 {
        if b.len() > 0 {
            assert(devs.contains_key(b[0].0));
            assert(has_slot(a, b[0].0));
        }
        assert(a =~= b);
    } else {
        let x = a[a.len() - 1];
        assert(devs.contains_key(x.0));
        assert(has_slot(b, x.0));
        let j = choose|j: int| 0 <= j < b.len() && (#[trigger] b[j]).0 == x.0;
        let y = b[b.len() - 1];
        assert(devs.contains_key(y.0));
        assert(has_slot(a, y.0));
        let i = choose|i: int| 0 <= i < a.len() && (#[trigger] a[i]).0 == y.0;
        assert(x.0 == y.0) by {
            if i < a.len() - 1 {
                assert(a[i].0 < x.0);
                if j < b.len() - 1 {
                    assert(b[j].0 < y.0);
                }
            }
        }
        let rest = devs.remove(x.0);
        lemma_list_without_last(a, devs);
        lemma_list_without_last(b, devs);
        lemma_one_list(a.drop_last(), b.drop_last(), rest);
        assert(a =~= a.drop_last().push(x));
        assert(b =~= b.drop_last().push(y));
    }
}

proof fn lemma_list_without_last(list: Seq<(u64, String)>, devs: Map<u64, String>)
    requires
        lists(list, devs),
        list.len() > 0,
    ensures
        lists(list.drop_last(), devs.remove(list.last().0)),
{
    let front = list.drop_last();
    let last = list[list.len() - 1];
    let rest = devs.remove(last.0);
    assert forall|i: int| 0 <= i < front.len() implies rest.contains_key((#[trigger] front[i]).0)
        && rest[front[i].0] == front[i].1 by {
        assert(list[i].0 < last.0);
    }
    assert forall|slot: u64| #[trigger] rest.contains_key(slot) implies has_slot(front, slot) by {
        assert(devs.contains_key(slot));
        assert(has_slot(list, slot));
        let i = choose|i: int| 0 <= i < list.len() && (#[trigger] list[i]).0 == slot;
        assert(front[i] == list[i]);
    }
    assert forall|i: int, j: int| 0 <= i < j < front.len() implies (#[trigger] front[i]).0 < (
    #[trigger] front[j]).0 by {
        assert(list[i].0 < list[j].0);
    }
}

impl Default for ArrayConfig {
    /// An array without disks.
    fn default() -> (r: Self)
        ensures
            r.data_devs@ == Map::<u64, String>::empty(),
            r.disks().len() == 0,
            r.parity_p is None,
            r.parity_q is None,
            r.rdev_offsets@.len() == 0,
    {
        let r = ArrayConfig {
            data_devs: BTreeMap::new(),
            parity_p: None,
            parity_q: None,
            rdev_offsets: Vec::new(),
        };
        proof {
            law_disks_are_listed(r);
            if r.disks().len() > 0 {
                assert(r.data_devs@.contains_key(r.disks()[0].0));
            }
        }
        r
    }
}

impl ArrayConfig {
    /// The data disks in slot order.
    pub open spec fn disks(&self) -> Seq<(u64, String)> {
        disks_below(self.data_devs@, 0x1_0000_0000_0000_0000)
    }

    /// The offset of a path.
    pub open spec fn offset(&self, dev_path: Seq<char>) -> u64 {
        offset_in(self.rdev_offsets@, dev_path)
    }

    /// The path of a data slot.
    pub open spec fn dev(&self, slot: u64) -> Option<Seq<char>> {
        if self.data_devs@.contains_key(slot) {
            Some(self.data_devs@[slot]@)
        } else {
            None
        }
    }

    /// The data disks in slot order.
    pub fn disk_list(&self) -> (r: Vec<(u64, String)>)
        ensures
            r@ == self.disks(),
    {
        broadcast use vstd::std_specs::btree::group_btree_axioms;
        broadcast use vstd::laws_cmp::group_laws_cmp;

        let mut out: Vec<(u64, String)> = Vec::new();
        let ghost items = vstd::std_specs::iter::IteratorSpec::remaining(&self.data_devs.iter());
        for kv in it: self.data_devs.iter()
            invariant
                it.seq() == items,
                out@.len() == it.index(),
                forall|i: int|
                    0 <= i < out@.len() ==> #[trigger] out@[i] == (*items[i].0, *items[i].1),
        {
            out.push((*kv.0, kv.1.clone()));
        }
        proof {
            let keys = items.map_values(|kv: (&u64, &String)| *kv.0);
            assert forall|i: int, j: int| 0 <= i < j < out@.len() implies (#[trigger] out@[i]).0 < (
            #[trigger] out@[j]).0 by {
                assert(vstd::std_specs::cmp::OrdSpec::cmp_spec(&keys[i], &keys[j]) is Less);
            }
            assert forall|i: int| 0 <= i < out@.len() implies self.data_devs@.contains_key(
                (#[trigger] out@[i]).0,
            ) && self.data_devs@[out@[i].0] == out@[i].1 by {
                assert(self.data_devs@.contains_key(*items[i].0));
            }
            assert forall|slot: u64| #[trigger] self.data_devs@.contains_key(slot) implies has_slot(
                out@,
                slot,
            ) by {
                assert(items.contains((&slot, &self.data_devs@[slot])));
                let i = choose|i: int|
                    0 <= i < items.len() && items[i] == (&slot, &self.data_devs@[slot]);
                assert(out@[i].0 == slot);
            }
            law_disks_are_listed(*self);
            lemma_one_list(out@, self.disks(), self.data_devs@);
        }
        out
    }

    /// Offset to add when accessing `dev_path` directly (0 for array partitions,
    /// which already have the per-disk header stripped).
    pub fn raw_offset_for(&self, dev_path: &str) -> (r: u64)
        ensures
            r == self.offset(dev_path@),
    {
        let n: usize = self.rdev_offsets.len();
        let mut i: usize = n;
        assert(self.rdev_offsets@.take(n as int) =~= self.rdev_offsets@);
        while i > 0
            invariant
                i <= n,
                n == self.rdev_offsets@.len(),
                self.offset(dev_path@) == offset_in(
                    self.rdev_offsets@.take(i as int),
                    dev_path@,
                ),
            decreases i,
        {
            i = i - 1;
            assert(self.rdev_offsets@.take(i + 1).drop_last() =~= self.rdev_offsets@.take(
                i as int,
            ));
            assert(self.rdev_offsets@.take(i + 1).last() == self.rdev_offsets@[i as int]);
            if path::paths_equal(self.rdev_offsets[i].0.as_str(), dev_path) {
                return self.rdev_offsets[i].1;
            }
        }
        0
    }

    /// Raw-rdev path for a data slot.
    pub fn data_dev(&self, devid: u64) -> (r: Option<&str>)
        ensures
            match r {
                Some(p) => self.dev(devid) == Some(p@),
                None => self.dev(devid) is None,
            },
    {
        broadcast use vstd::std_specs::btree::group_btree_axioms;

        match self.data_devs.get(&devid) {
            Some(path) => Some(path.as_str()),
            None => None,
        }
    }

    /// Reverse lookup: the first slot, in order, whose raw-rdev path is
    /// `target`. Both are given with symlinks resolved: `resolved` holds the
    /// data disks' paths in slot order.
    pub fn slot_for_raw_dev(&self, target: &str, resolved: &Vec<String>) -> (r: Option<u64>)
        requires
            resolved@.len() == self.disks().len(),
        ensures
            match r {
                Some(slot) => exists|i: int|
                    {
                        &&& 0 <= i < resolved@.len()
                        &&& path::same_path((#[trigger] resolved@[i])@, target@)
                        &&& slot == self.disks()[i].0
                        &&& forall|j: int|
                            0 <= j < i ==> !path::same_path((#[trigger] resolved@[j])@, target@)
                    },
                None => forall|i: int|
                    0 <= i < resolved@.len() ==> !path::same_path(
                        (#[trigger] resolved@[i])@,
                        target@,
                    ),
            },
    {
        let disks = self.disk_list();
        let n: usize = resolved.len();
        let mut i: usize = 0;
        while i < n
            invariant
                i <= n,
                n == resolved@.len(),
                disks@ == self.disks(),
                n == disks@.len(),
                forall|j: int|
                    0 <= j < i ==> !path::same_path((#[trigger] resolved@[j])@, target@),
            decreases n - i,
        {
            if path::paths_equal(resolved[i].as_str(), target) {
                return Some(disks[i].0);
            }
            i = i + 1;
        }
        None
    }

    /// `array_phys + rdevOffset` for a slot; `None` for a slot without a disk.
    pub fn raw_phys(&self, slot: u64, array_phys: u64) -> (r: Option<u64>)
        requires
            self.dev(slot) matches Some(p) ==> array_phys + self.offset(p) <= u64::MAX,
        ensures
            match r {
                Some(raw) => self.dev(slot) matches Some(p) && raw == array_phys + self.offset(p),
                None => self.dev(slot) is None,
            },
    {
        match self.data_dev(slot) {
            None => None,
            Some(dev) => Some(array_phys + self.raw_offset_for(dev)),
        }
    }

    /// Where on a device a block of the array lies: the array offset plus the
    /// disk's own; `None` outside the address space.
    pub fn position(&self, dev_path: &str, array_phys: u64) -> (r: Option<u64>)
        ensures
            match r {
                Some(raw) => raw == array_phys + self.offset(dev_path@),
                None => array_phys + self.offset(dev_path@) > u64::MAX,
            },
    {
        array_phys.checked_add(self.raw_offset_for(dev_path))
    }
}

/// The disks of an array are listed each once, in slot order, whatever order they
/// were added in.
pub proof fn law_disks_are_listed(config: ArrayConfig)
    ensures
        lists(config.disks(), config.data_devs@),
{
    lemma_disks_below(config.data_devs@, 0x1_0000_0000_0000_0000);
}

/// A listed disk is the one in its slot, and a slot without a disk is not listed.
pub proof fn law_listed_disk_is_in_its_slot(config: ArrayConfig, slot: u64)
    ensures
        forall|i: int|
            0 <= i < config.disks().len() && (#[trigger] config.disks()[i]).0 == slot
                ==> config.dev(slot) == Some(config.disks()[i].1@),
        config.dev(slot) is Some ==> has_slot(config.disks(), slot),
{
    law_disks_are_listed(config);
}

// ---------------------------------------------------------------------------
// Array partitions
// ---------------------------------------------------------------------------

/// A path without the slashes and `/.` at its end.
pub open spec fn without_tail(s: Seq<char>) -> Seq<char>
    decreases s.len(),
{
    if s.len() > 0 && s.last() == '/' {
        without_tail(s.drop_last())
    } else if s.len() > 1 && s.last() == '.' && s[s.len() - 2] == '/' {
        without_tail(s.drop_last())
    } else {
        s
    }
}

/// What follows the last slash.
pub open spec fn after_slash(s: Seq<char>) -> Seq<char>
    decreases s.len(),
{
    if s.len() == 0 || s.last() == '/' {
        Seq::empty()
    } else {
        after_slash(s.drop_last()).push(s.last())
    }
}

/// How many decimal digits lead.
pub open spec fn leading_digits(s: Seq<char>) -> int
    decreases s.len(),
{
    if s.len() > 0 && '0' <= s[0] <= '9' {
        1 + leading_digits(s.drop_first())
    } else {
        0
    }
}

/// The slot in an array-partition name: `nmd`, the slot's digits, `p` and a
/// partition.
pub open spec fn partition_slot(dev: Seq<char>) -> Option<nat> {
    let name = after_slash(without_tail(dev));
    if name.len() < 3 || name.take(3) != "nmd"@ {
        None
    } else {
        let rest = name.skip(3);
        let d = leading_digits(rest);
        if d == 0 || rest.len() < d + 2 || rest[d] != 'p' {
            None
        } else {
            match text::parsed(rest.take(d), 10, u64::MAX as nat) {
                Ok(v) => Some(v),
                Err(_) => None,
            }
        }
    }
}

/// The name at the end of a path.
fn file_name(chars: &[char]) -> (r: &[char])
    ensures
        r@ == after_slash(without_tail(chars@)),
{
    let mut end: usize = chars.len();
    assert(chars@.take(end as int) =~= chars@);
    while end > 0 && (chars[end - 1] == '/' || (end > 1 && chars[end - 1] == '.' && chars[end - 2]
        == '/'))
        invariant
            end <= chars@.len(),
            without_tail(chars@) == without_tail(chars@.take(end as int)),
        decreases end,
    {
        assert(chars@.take(end as int).drop_last() =~= chars@.take(end - 1));
        end = end - 1;
    }
    let ghost kept = chars@.take(end as int);
    assert(without_tail(chars@) == kept);
    let mut start: usize = end;
    assert(after_slash(kept) =~= after_slash(chars@.take(start as int)) + chars@.subrange(
        start as int,
        end as int,
    ));
    while start > 0 && chars[start - 1] != '/'
        invariant
            start <= end <= chars@.len(),
            after_slash(kept) == after_slash(chars@.take(start as int)) + chars@.subrange(
                start as int,
                end as int,
            ),
        decreases start,
    {
        assert(chars@.take(start as int).drop_last() =~= chars@.take(start - 1));
        assert(after_slash(chars@.take(start as int)) + chars@.subrange(start as int, end as int)
            =~= after_slash(chars@.take(start - 1)) + chars@.subrange(start - 1, end as int));
        start = start - 1;
    }
    assert(after_slash(chars@.take(start as int)) =~= Seq::empty());
    assert(after_slash(kept) =~= chars@.subrange(start as int, end as int));
    slice_subrange(chars, start, end)
}

/// Parses the slot out of an array-partition name like /dev/nmd2p1. A `p` and a
/// partition must follow the digits, so that bare "nmd123" names are not
/// mistaken for slots.
pub fn slot_from_array_partition(dev: &str) -> (r: Option<u64>)
    ensures
        match r {
            Some(slot) => partition_slot(dev@) == Some(slot as nat),
            None => partition_slot(dev@) is None,
        },
{
    let chars = text::chars_of(dev);
    let name = file_name(chars.as_slice());
    proof {
        reveal_strlit("nmd");
    }
    if !text::starts_with(name, "nmd") {
        return None;
    }
    let rest = slice_subrange(name, 3, name.len());
    assert(rest@ =~= name@.skip(3));
    let n: usize = rest.len();
    let mut d: usize = 0;
    assert(rest@.skip(0) =~= rest@);
    while d < n && '0' <= rest[d] && rest[d] <= '9'
        invariant
            d <= n,
            n == rest@.len(),
            leading_digits(rest@) == d + leading_digits(rest@.skip(d as int)),
        decreases n - d,
    {
        assert(rest@.skip(d as int).drop_first() =~= rest@.skip(d + 1));
        d = d + 1;
    }
    if d == 0 || n - d < 2 || rest[d] != 'p' {
        return None;
    }
    let digits = slice_subrange(rest, 0, d);
    assert(digits@ =~= rest@.take(d as int));
    match text::parse_uint(digits, 10, u64::MAX) {
        Ok(v) => Some(v),
        Err(_) => None,
    }
}

} // verus!
