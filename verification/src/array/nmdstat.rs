//! The text of /proc/nmdstat: flat `key=value` lines that name each slot's disk
//! and its offset.

use vstd::prelude::*;
use vstd::slice::slice_subrange;

use crate::array::config;
use crate::array::config::{ArrayConfig, NMDSTAT_Q_SLOT};
use crate::array::path;
use crate::text;

verus! {

// ---------------------------------------------------------------------------
// Order of texts
// ---------------------------------------------------------------------------

/// `a` comes before `b`, character by character.
pub open spec fn text_lt(a: Seq<char>, b: Seq<char>) -> bool
    decreases a.len(),
{
    if b.len() == 0 {
        false
    } else if a.len() == 0 {
        true
    } else if a[0] != b[0] {
        a[0] < b[0]
    } else {
        text_lt(a.drop_first(), b.drop_first())
    }
}

/// Of two different texts, one comes first.
pub proof fn law_text_order_total(a: Seq<char>, b: Seq<char>)
    ensures
        a == b || text_lt(a, b) || text_lt(b, a),
        !(text_lt(a, b) && text_lt(b, a)),
        !text_lt(a, a),
    decreases a.len(),
{
    if a.len() > 0 {
        law_text_order_total(a.drop_first(), a.drop_first());
    }
    if a.len() > 0 && b.len() > 0 && a[0] == b[0] {
        law_text_order_total(a.drop_first(), b.drop_first());
        if a.drop_first() == b.drop_first() {
            assert(a =~= seq![a[0]] + a.drop_first());
            assert(b =~= seq![b[0]] + b.drop_first());
        }
    } else if a.len() == 0 && b.len() == 0 {
        assert(a =~= b);
    }
}

/// The order carries over.
pub proof fn law_text_order_transitive(a: Seq<char>, b: Seq<char>, c: Seq<char>)
    requires
        text_lt(a, b),
        text_lt(b, c),
    ensures
        text_lt(a, c),
    decreases a.len(),
{
    if a.len() > 0 && a[0] == b[0] && b[0] == c[0] {
        law_text_order_transitive(a.drop_first(), b.drop_first(), c.drop_first());
    }
}

/// Whether `a` comes before `b`.
fn text_less(a: &[char], b: &[char]) -> (r: bool)
    ensures
        r == text_lt(a@, b@),
{
    let n: usize = a.len();
    let m: usize = b.len();
    let mut i: usize = 0;
    assert(a@.skip(0) =~= a@);
    assert(b@.skip(0) =~= b@);
    while i < n && i < m
        invariant
            i <= n,
            i <= m,
            n == a@.len(),
            m == b@.len(),
            text_lt(a@, b@) == text_lt(a@.skip(i as int), b@.skip(i as int)),
        decreases n - i,
    {
        assert(a@.skip(i as int).drop_first() =~= a@.skip(i + 1));
        assert(b@.skip(i as int).drop_first() =~= b@.skip(i + 1));
        if a[i] != b[i] {
            return a[i] < b[i];
        }
        i = i + 1;
    }
    i < m
}

// ---------------------------------------------------------------------------
// Lines and values
// ---------------------------------------------------------------------------

/// The key and value of a line: what comes before the first `=` of the trimmed
/// line, and what comes after it, trimmed. A line without `=` has none.
pub open spec fn is_pair(line: Seq<char>, key: Seq<char>, value: Seq<char>) -> bool {
    let l = text::trimmed(line);
    exists|i: int|
        {
            &&& #[trigger] text::first_at(l, '=', i)
            &&& key == l.take(i)
            &&& value == text::trimmed(l.skip(i + 1))
        }
}

/// The line holds no pair.
pub open spec fn no_pair(line: Seq<char>) -> bool {
    !text::trimmed(line).contains('=')
}

/// The values after a line: a pair replaces what its key had before.
pub open spec fn after_line(
    before: Map<Seq<char>, Seq<char>>,
    line: Seq<char>,
    after: Map<Seq<char>, Seq<char>>,
) -> bool {
    if no_pair(line) {
        after == before
    } else {
        exists|key: Seq<char>, value: Seq<char>| #[trigger]
            is_pair(line, key, value) && after == before.insert(key, value)
    }
}

/// `starts` are the starts of the first lines of the text, and `maps` the values
/// there: `maps[k]` are those of the lines before `starts[k]`.
pub open spec fn values_upto(
    s: Seq<char>,
    starts: Seq<int>,
    maps: Seq<Map<Seq<char>, Seq<char>>>,
) -> bool {
    &&& starts.len() == maps.len()
    &&& starts.len() > 0
    &&& starts[0] == 0
    &&& maps[0] == Map::<Seq<char>, Seq<char>>::empty()
    &&& forall|k: int|
        0 <= k < starts.len() - 1 ==> {
            &&& #[trigger] line_at(s, starts[k], starts[k + 1])
            &&& after_line(
                maps[k],
                s.subrange(starts[k], starts[k + 1] - 1),
                maps[k + 1],
            )
        }
}

/// A line starts at `from`, and the next one at `to`: right after the first
/// line feed, or past the end of the text.
pub open spec fn line_at(s: Seq<char>, from: int, to: int) -> bool {
    &&& 0 <= from < to
    &&& to <= s.len() + 1
    &&& from <= s.len()
    &&& forall|j: int| from <= j < to - 1 ==> #[trigger] s[j] != '\n'
    &&& to <= s.len() ==> s[to - 1] == '\n'
}

/// `m` are the values of the whole text: line after line, later ones replacing
/// earlier ones.
pub open spec fn is_values(s: Seq<char>, m: Map<Seq<char>, Seq<char>>) -> bool {
    exists|starts: Seq<int>, maps: Seq<Map<Seq<char>, Seq<char>>>| #[trigger]
        values_upto(s, starts, maps) && starts.last() == s.len() + 1 && maps.last() == m
}

/// Keys in order, none twice.
pub open spec fn keys_ascend(list: Seq<(String, String)>) -> bool {
    forall|i: int, j: int|
        0 <= i < j < list.len() ==> text_lt((#[trigger] list[i]).0@, (#[trigger] list[j]).0@)
}

/// The list as a map.
pub open spec fn as_map(list: Seq<(String, String)>) -> Map<Seq<char>, Seq<char>>
    decreases list.len(),
{
    if list.len() == 0 {
        Map::empty()
    } else {
        as_map(list.drop_last()).insert(list.last().0@, list.last().1@)
    }
}

pub proof fn lemma_as_map_index(list: Seq<(String, String)>, i: int)
    requires
        keys_ascend(list),
        0 <= i < list.len(),
    ensures
        as_map(list).dom().contains(list[i].0@),
        as_map(list)[list[i].0@] == list[i].1@,
    decreases list.len(),
{
    let front = list.drop_last();
    if i < list.len() - 1 {
        assert(text_lt(list[i].0@, list[list.len() - 1].0@));
        law_text_order_total(list[i].0@, list[i].0@);
        assert forall|a: int, b: int| 0 <= a < b < front.len() implies text_lt(
            (#[trigger] front[a]).0@,
            (#[trigger] front[b]).0@,
        ) by {
            assert(text_lt(list[a].0@, list[b].0@));
        }
        lemma_as_map_index(front, i);
        assert(front[i] == list[i]);
    }
}

pub proof fn lemma_as_map_dom(list: Seq<(String, String)>, key: Seq<char>)
    ensures
        as_map(list).dom().contains(key) <==> exists|i: int|
            0 <= i < list.len() && (#[trigger] list[i]).0@ == key,
    decreases list.len(),
{
    if list.len() > 0 {
        let front = list.drop_last();
        lemma_as_map_dom(front, key);
        if exists|i: int| 0 <= i < list.len() && (#[trigger] list[i]).0@ == key {
            let i = choose|i: int| 0 <= i < list.len() && (#[trigger] list[i]).0@ == key;
            if i < front.len() {
                assert(front[i].0@ == key);
            }
        }
        if exists|i: int| 0 <= i < front.len() && (#[trigger] front[i]).0@ == key {
            let i = choose|i: int| 0 <= i < front.len() && (#[trigger] front[i]).0@ == key;
            assert(list[i].0@ == key);
        }
        if list.last().0@ == key {
            assert(list[list.len() - 1].0@ == key);
        }
    }
}

/// Two ordered lists with the same pairs are the same map; so is one whose entry
/// was replaced or added in its place.
proof fn lemma_as_map_is(list: Seq<(String, String)>, m: Map<Seq<char>, Seq<char>>)
    requires
        keys_ascend(list),
        forall|k: Seq<char>| #[trigger]
            m.dom().contains(k) <==> exists|i: int|
                0 <= i < list.len() && (#[trigger] list[i]).0@ == k,
        forall|i: int| 0 <= i < list.len() ==> m[(#[trigger] list[i]).0@] == list[i].1@,
    ensures
        as_map(list) == m,
{
    assert forall|k: Seq<char>| #[trigger] as_map(list).dom().contains(k) <==> m.dom().contains(
        k,
    ) by {
        lemma_as_map_dom(list, k);
    }
    assert forall|k: Seq<char>| m.dom().contains(k) implies #[trigger] as_map(list)[k] == m[k] by {
        let i = choose|i: int| 0 <= i < list.len() && (#[trigger] list[i]).0@ == k;
        lemma_as_map_index(list, i);
    }
    assert(as_map(list) =~= m);
}

/// Puts a pair in its place; a key that is there already gets the new value.
fn put(list: &mut Vec<(String, String)>, key: &[char], value: &[char])
    requires
        keys_ascend(old(list)@),
    ensures
        keys_ascend(final(list)@),
        as_map(final(list)@) == as_map(old(list)@).insert(key@, value@),
{
    let n: usize = list.len();
    let mut at: usize = 0;
    while at < n
        invariant
            at <= n,
            n == list@.len(),
            list@ == old(list)@,
            forall|j: int| 0 <= j < at ==> text_lt((#[trigger] list@[j]).0@, key@),
        ensures
            at <= n,
            list@ == old(list)@,
            forall|j: int| 0 <= j < at ==> text_lt((#[trigger] list@[j]).0@, key@),
            at < n ==> !text_lt(list@[at as int].0@, key@),
        decreases n - at,
    {
        let here = text::chars_of(list[at].0.as_str());
        if !text_less(here.as_slice(), key) {
            break;
        }
        at = at + 1;
    }
    let ghost before = list@;
    let k = text::string_of(key);
    let v = text::string_of(value);
    let replaces = if at < n {
        let here = text::chars_of(list[at].0.as_str());
        text::chars_equal(here.as_slice(), key)
    } else {
        false
    };
    if replaces {
        list.set(at, (k, v));
        proof {
            let after = list@;
            let m = as_map(before).insert(key@, value@);
            assert forall|i: int, j: int| 0 <= i < j < after.len() implies text_lt(
                (#[trigger] after[i]).0@,
                (#[trigger] after[j]).0@,
            ) by {
                assert(text_lt(before[i].0@, before[j].0@));
            }
            lemma_put_map(before, after, at as int, key@, value@, true);
        }
    } else {
        list.insert(at, (k, v));
        proof {
            let after = list@;
            law_text_order_total(key@, key@);
            assert forall|i: int, j: int| 0 <= i < j < after.len() implies text_lt(
                (#[trigger] after[i]).0@,
                (#[trigger] after[j]).0@,
            ) by {
                let bi = if i < at { i } else { i - 1 };
                let bj = if j < at { j } else { j - 1 };
                if i != at && j != at {
                    assert(text_lt(before[bi].0@, before[bj].0@));
                } else if j == at {
                    assert(text_lt(before[i].0@, key@));
                } else {
                    // i == at: the entry that was there comes after the key.
                    law_text_order_total(before[at as int].0@, key@);
                    assert(text_lt(key@, before[at as int].0@));
                    if bj > at {
                        assert(text_lt(before[at as int].0@, before[bj].0@));
                        law_text_order_transitive(key@, before[at as int].0@, before[bj].0@);
                    }
                }
            }
            lemma_put_map(before, after, at as int, key@, value@, false);
        }
    }
}

/// Replacing or adding one pair in an ordered list does to its map what `insert`
/// does.
proof fn lemma_put_map(
    before: Seq<(String, String)>,
    after: Seq<(String, String)>,
    at: int,
    key: Seq<char>,
    value: Seq<char>,
    replaced: bool,
)
    requires
        keys_ascend(before),
        keys_ascend(after),
        0 <= at < after.len(),
        after[at].0@ == key,
        after[at].1@ == value,
        replaced ==> after.len() == before.len() && before[at].0@ == key && after
            == before.update(at, after[at]),
        !replaced ==> after == before.insert(at, after[at]),
        0 <= at <= before.len(),
    ensures
        as_map(after) == as_map(before).insert(key, value),
{
    let m = as_map(before).insert(key, value);
    assert forall|k: Seq<char>| #[trigger] m.dom().contains(k) <==> exists|i: int|
        0 <= i < after.len() && (#[trigger] after[i]).0@ == k by {
        lemma_as_map_dom(before, k);
        if m.dom().contains(k) {
            if k == key {
                assert(after[at].0@ == k);
            } else {
                let i = choose|i: int| 0 <= i < before.len() && (#[trigger] before[i]).0@ == k;
                let j = if replaced || i < at { i } else { i + 1 };
                assert(after[j] == before[i]);
                assert(after[j].0@ == k);
            }
        }
        if exists|i: int| 0 <= i < after.len() && (#[trigger] after[i]).0@ == k {
            let i = choose|i: int| 0 <= i < after.len() && (#[trigger] after[i]).0@ == k;
            if i != at {
                let j = if replaced || i < at { i } else { i - 1 };
                assert(after[i] == before[j]);
                assert(before[j].0@ == k);
            }
        }
    }
    assert forall|i: int| 0 <= i < after.len() implies m[(#[trigger] after[i]).0@]
        == after[i].1@ by {
        if i != at {
            let j = if replaced || i < at { i } else { i - 1 };
            assert(after[i] == before[j]);
            lemma_as_map_index(before, j);
            law_text_order_total(key, key);
            if i < at {
                assert(text_lt(after[i].0@, after[at].0@));
            } else {
                assert(text_lt(after[at].0@, after[i].0@));
            }
        }
    }
    lemma_as_map_is(after, m);
}

/// The `key=value` pairs of the text, in key order.
pub fn stat_values(content: &str) -> (r: Vec<(String, String)>)
    ensures
        keys_ascend(r@),
        is_values(content@, as_map(r@)),
{
    let chars = text::chars_of(content);
    let s = chars.as_slice();
    let n: usize = s.len();
    let mut list: Vec<(String, String)> = Vec::new();
    let mut from: usize = 0;
    let mut done = false;
    let ghost mut starts: Seq<int> = seq![0int];
    let ghost mut maps: Seq<Map<Seq<char>, Seq<char>>> = seq![Map::empty()];
    while !done
        invariant
            s@ == content@,
            n == s@.len(),
            from <= n,
            keys_ascend(list@),
            values_upto(s@, starts, maps),
            maps.last() == as_map(list@),
            !done ==> starts.last() == from,
            done ==> starts.last() == n + 1,
        decreases n - from, (if done { 0int } else { 1 }),
    {
        let mut end: usize = from;
        while end < n && s[end] != '\n'
            invariant
                from <= end <= n,
                n == s@.len(),
                forall|j: int| from <= j < end ==> #[trigger] s@[j] != '\n',
            decreases n - end,
        {
            end = end + 1;
        }
        let line = text::trim(slice_subrange(s, from, end));
        let ghost whole = s@.subrange(from as int, end as int);
        let ghost before_map = as_map(list@);
        match text::find_char(line, '=') {
            None => {
                assert(no_pair(whole));
            },
            Some(i) => {
                let key = slice_subrange(line, 0, i);
                let end_of_line: usize = line.len();
                let value = text::trim(slice_subrange(line, i + 1, end_of_line));
                put(&mut list, key, value);
                proof {
                    assert(text::first_at(text::trimmed(whole), '=', i as int));
                    assert(key@ =~= text::trimmed(whole).take(i as int));
                    assert(line@.subrange(i + 1, line@.len() as int) =~= text::trimmed(whole).skip(
                        i + 1,
                    ));
                    assert(is_pair(whole, key@, value@));
                    assert(text::trimmed(whole)[i as int] == '=');
                    assert(!no_pair(whole));
                }
            },
        }
        proof {
            let to = end + 1;
            let before_starts = starts;
            let before_maps = maps;
            starts = starts.push(to);
            maps = maps.push(as_map(list@));
            assert(line_at(s@, from as int, to));
            assert forall|k: int| 0 <= k < starts.len() - 1 implies {
                &&& #[trigger] line_at(s@, starts[k], starts[k + 1])
                &&& after_line(
                    maps[k],
                    s@.subrange(starts[k], starts[k + 1] - 1),
                    maps[k + 1],
                )
            } by {
                if k < before_starts.len() - 1 {
                    assert(line_at(s@, before_starts[k], before_starts[k + 1]));
                }
            }
        }
        if end < n {
            from = end + 1;
        } else {
            done = true;
        }
    }
    list
}

/// The value of a key.
pub fn stat_value<'a>(values: &'a Vec<(String, String)>, key: &str) -> (r: Option<&'a String>)
    requires
        keys_ascend(values@),
    ensures
        match r {
            Some(v) => as_map(values@).dom().contains(key@) && as_map(values@)[key@] == v@,
            None => !as_map(values@).dom().contains(key@),
        },
{
    let wanted = text::chars_of(key);
    let n: usize = values.len();
    let mut i: usize = 0;
    while i < n
        invariant
            i <= n,
            n == values@.len(),
            wanted@ == key@,
            keys_ascend(values@),
            forall|j: int| 0 <= j < i ==> (#[trigger] values@[j]).0@ != key@,
        decreases n - i,
    {
        let here = text::chars_of(values[i].0.as_str());
        if text::chars_equal(here.as_slice(), wanted.as_slice()) {
            proof {
                lemma_as_map_index(values@, i as int);
            }
            return Some(&values[i].1);
        }
        i = i + 1;
    }
    proof {
        lemma_as_map_dom(values@, key@);
    }
    None
}

// ---------------------------------------------------------------------------
// Disks
// ---------------------------------------------------------------------------

/// A disk that the text names: its slot, path, and offset in 512-byte sectors.
#[derive(Debug)]
pub struct StatEntry {
    pub slot: u64,
    pub path: String,
    pub offset_sectors: u64,
}

/// An absolute path stays; a bare name is one under /dev.
pub open spec fn normalized(name: Seq<char>) -> Seq<char> {
    if name.len() > 0 && name[0] == '/' { name } else { "/dev/"@ + name }
}

/// Ensures a device name is an absolute /dev/... path.
pub fn normalize_dev(name: &str) -> (r: String)
    ensures
        r@ == normalized(name@),
{
    let chars = text::chars_of(name);
    if chars.len() > 0 && chars[0] == '/' {
        return name.to_owned();
    }
    let mut s = String::from_str("/dev/");
    s.append(name);
    s
}

/// The slot in a key `rdevName.<slot>`.
pub open spec fn name_slot(key: Seq<char>) -> Option<nat> {
    if key.len() >= 9 && key.take(9) == "rdevName."@ {
        match text::parsed(key.skip(9), 10, u64::MAX as nat) {
            Ok(v) => Some(v),
            Err(_) => None,
        }
    } else {
        None
    }
}

/// The offset listed for a slot under `rdevOffset.<slot>`; 0 where there is
/// none, or none that is a number.
pub open spec fn listed_offset(m: Map<Seq<char>, Seq<char>>, slot: nat) -> nat {
    let key = "rdevOffset."@ + text::decimal(slot);
    if m.dom().contains(key) {
        match text::parsed(m[key], 10, u64::MAX as nat) {
            Ok(v) => v,
            Err(_) => 0,
        }
    } else {
        0
    }
}

/// The disk that pair `i` names, if it names one.
pub open spec fn names_disk(list: Seq<(String, String)>, i: int) -> bool {
    name_slot(list[i].0@) is Some && list[i].1@.len() > 0
}

/// `e` is the disk that pair `i` names.
pub open spec fn entry_of(e: StatEntry, list: Seq<(String, String)>, i: int) -> bool {
    &&& name_slot(list[i].0@) == Some(e.slot as nat)
    &&& e.path@ == normalized(list[i].1@)
    &&& e.offset_sectors == listed_offset(as_map(list), e.slot as nat)
}

/// `out` are the disks that the first `k` pairs name, in key order.
pub open spec fn entries_upto(out: Seq<StatEntry>, list: Seq<(String, String)>, k: int) -> bool
    decreases k,
{
    if k <= 0 {
        out.len() == 0
    } else if names_disk(list, k - 1) {
        &&& out.len() > 0
        &&& entry_of(out.last(), list, k - 1)
        &&& entries_upto(out.drop_last(), list, k - 1)
    } else {
        entries_upto(out, list, k - 1)
    }
}

/// The disks that the text names, in key order. Which of them are block devices
/// is for the caller to say.
pub fn stat_entries(values: &Vec<(String, String)>) -> (r: Vec<StatEntry>)
    requires
        keys_ascend(values@),
    ensures
        entries_upto(r@, values@, values@.len() as int),
{
    let n: usize = values.len();
    let mut out: Vec<StatEntry> = Vec::new();
    let mut i: usize = 0;
    proof {
        reveal_strlit("rdevName.");
    }
    while i < n
        invariant
            i <= n,
            n == values@.len(),
            keys_ascend(values@),
            "rdevName."@.len() == 9,
            entries_upto(out@, values@, i as int),
        decreases n - i,
    {
        let key = text::chars_of(values[i].0.as_str());
        let slot: Option<u64> = if text::starts_with(key.as_slice(), "rdevName.") {
            let digits = slice_subrange(key.as_slice(), 9, key.len());
            assert(digits@ =~= key@.skip(9));
            match text::parse_uint(digits, 10, u64::MAX) {
                Ok(v) => Some(v),
                Err(_) => None,
            }
        } else {
            None
        };
        assert(match slot {
            Some(v) => name_slot(values@[i as int].0@) == Some(v as nat),
            None => name_slot(values@[i as int].0@) is None,
        });
        if let Some(slot) = slot {
            if !values[i].1.as_str().is_empty() {
                let mut okey = String::from_str("rdevOffset.");
                text::push_decimal(&mut okey, slot);
                let offset_sectors: u64 = match stat_value(values, okey.as_str()) {
                    None => 0,
                    Some(v) => {
                        let digits = text::chars_of(v.as_str());
                        match text::parse_uint(digits.as_slice(), 10, u64::MAX) {
                            Ok(o) => o,
                            Err(_) => 0,
                        }
                    },
                };
                let e = StatEntry { slot, path: normalize_dev(values[i].1.as_str()), offset_sectors };
                assert(entry_of(e, values@, i as int));
                let ghost before = out@;
                out.push(e);
                assert(out@.drop_last() =~= before);
            }
        }
        i = i + 1;
    }
    out
}

/// Why there is no array layout.
#[derive(Debug, Clone, Copy, PartialEq, Eq, Structural)]
pub enum LoadError {
    /// Neither stat file exists.
    NoStatFile,
    /// The primary parity disk (slot 0) was not found.
    NoParity,
    /// A disk's offset does not fit.
    OffsetTooLarge { slot: u64 },
}

/// Adds one disk: slot 0 is P, slot 29 is Q, every other slot a data disk.
/// Offsets are listed in 512-byte sectors.
pub open spec fn added(before: ArrayConfig, e: StatEntry, after: ArrayConfig) -> bool {
    &&& forall|p: Seq<char>| #[trigger]
        after.offset(p) == (if path::same_path(e.path@, p) {
            e.offset_sectors * 512
        } else {
            before.offset(p) as int
        })
    &&& if e.slot == 0 {
        &&& after.parity_p is Some
        &&& after.parity_p.unwrap()@ == e.path@
        &&& after.parity_q == before.parity_q
        &&& after.data_devs@ == before.data_devs@
    } else if e.slot == 29 {
        &&& after.parity_q is Some
        &&& after.parity_q.unwrap()@ == e.path@
        &&& after.parity_p == before.parity_p
        &&& after.data_devs@ == before.data_devs@
    } else {
        &&& after.parity_p == before.parity_p
        &&& after.parity_q == before.parity_q
        &&& after.data_devs@ == before.data_devs@.insert(e.slot, e.path)
    }
}

/// `configs` are the layouts after each of the first disks.
pub open spec fn built(configs: Seq<ArrayConfig>, entries: Seq<StatEntry>) -> bool {
    &&& configs.len() > 0
    &&& configs[0].data_devs@ == Map::<u64, String>::empty()
    &&& configs[0].rdev_offsets@.len() == 0
    &&& configs[0].parity_p is None
    &&& configs[0].parity_q is None
    &&& configs.len() <= entries.len() + 1
    &&& forall|k: int|
        0 <= k < configs.len() - 1 ==> added(#[trigger] configs[k], entries[k], configs[k + 1])
}

impl ArrayConfig {
    /// Puts a data disk in its slot.
    fn put_data(&mut self, slot: u64, path: String)
        ensures
            final(self).parity_p == old(self).parity_p,
            final(self).parity_q == old(self).parity_q,
            final(self).rdev_offsets == old(self).rdev_offsets,
            final(self).data_devs@ == old(self).data_devs@.insert(slot, path),
    {
        broadcast use vstd::std_specs::btree::group_btree_axioms;

        let _replaced = self.data_devs.insert(slot, path);
    }

    /// Builds the layout from the disks that are block devices, in key order.
    pub fn from_entries(entries: &Vec<StatEntry>) -> (r: Result<ArrayConfig, LoadError>)
        ensures
            match r {
                Ok(c) => {
                    &&& forall|k: int|
                        0 <= k < entries@.len() ==> (#[trigger] entries@[k]).offset_sectors * 512
                            <= u64::MAX
                    &&& exists|configs: Seq<ArrayConfig>| #[trigger]
                        built(configs, entries@) && configs.len() == entries@.len() + 1
                            && configs.last() == c
                },
                Err(e) => exists|k: int|
                    {
                        &&& 0 <= k < entries@.len()
                        &&& (#[trigger] entries@[k]).offset_sectors * 512 > u64::MAX
                        &&& forall|j: int|
                            0 <= j < k ==> (#[trigger] entries@[j]).offset_sectors * 512
                                <= u64::MAX
                        &&& e == (LoadError::OffsetTooLarge { slot: entries@[k].slot })
                    },
            },
    {
        let mut c = ArrayConfig::default();
        let ghost mut configs: Seq<ArrayConfig> = seq![c];
        let n: usize = entries.len();
        let mut i: usize = 0;
        while i < n
            invariant
                i <= n,
                n == entries@.len(),
                forall|k: int|
                    0 <= k < i ==> (#[trigger] entries@[k]).offset_sectors * 512 <= u64::MAX,
                built(configs, entries@),
                configs.len() == i + 1,
                configs.last() == c,
            decreases n - i,
        {
            let e = &entries[i];
            let bytes: u64 = match e.offset_sectors.checked_mul(512) {
                Some(b) => b,
                None => {
                    return Err(LoadError::OffsetTooLarge { slot: e.slot });
                },
            };
            let ghost before = c;
            c.rdev_offsets.push((e.path.clone(), bytes));
            assert(c.rdev_offsets@.drop_last() =~= before.rdev_offsets@);
            let ghost mid = c;
            if e.slot == 0 {
                c.parity_p = Some(e.path.clone());
            } else if e.slot == NMDSTAT_Q_SLOT {
                c.parity_q = Some(e.path.clone());
            } else {
                c.put_data(e.slot, e.path.clone());
            }
            proof {
                assert forall|p: Seq<char>| #[trigger]
                    c.offset(p) == (if path::same_path(e.path@, p) {
                        e.offset_sectors * 512
                    } else {
                        before.offset(p) as int
                    }) by {}
                assert forall|s: u64| #[trigger] mid.dev(s) == before.dev(s) by {}
                assert(added(before, *e, c));
                let old_configs = configs;
                configs = configs.push(c);
                assert forall|k: int| 0 <= k < configs.len() - 1 implies added(
                    #[trigger] configs[k],
                    entries@[k],
                    configs[k + 1],
                ) by {
                    if k < old_configs.len() - 1 {
                        assert(added(old_configs[k], entries@[k], old_configs[k + 1]));
                    }
                }
            }
            i = i + 1;
        }
        Ok(c)
    }
}

/// Accepts a layout: it needs a stat file and the primary parity disk.
pub fn load(config: Option<ArrayConfig>) -> (r: Result<ArrayConfig, LoadError>)
    ensures
        r == (match config {
            None => Err(LoadError::NoStatFile),
            Some(c) => if c.parity_p is Some { Ok(c) } else { Err(LoadError::NoParity) },
        }),
{
    match config {
        None => Err(LoadError::NoStatFile),
        Some(c) => if c.parity_p.is_some() {
            Ok(c)
        } else {
            Err(LoadError::NoParity)
        },
    }
}

} // verus!
