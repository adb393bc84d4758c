//! The array: where its disks' blocks are read, and what the stat file says of
//! its disks.

use vstd::prelude::*;

use crate::array::config;
use crate::array::config::ArrayConfig;
use crate::array::nmdstat;
use crate::array::nmdstat::StatEntry;
use crate::array::path;
use crate::array::stripe;
use crate::laws::text as number_text;
use crate::text;

verus! {

// ---------------------------------------------------------------------------
// Blocks
// ---------------------------------------------------------------------------

/// The device's capacity is `capacity` whenever it is asked for.
pub open spec fn holds_bytes<E, S: Fn(&String) -> Result<u64, E>>(
    size: S,
    path: &String,
    capacity: u64,
) -> bool {
    forall|cap: Result<u64, E>| #[trigger]
        call_ensures(size, (path,), cap) ==> cap == Ok::<u64, E>(capacity)
}

/// A block that lies inside the device is what reading it there gave, byte for
/// byte, or that read's error: on every device, at every offset.
pub proof fn law_block_inside_the_device_is_what_was_read<
    E,
    S: Fn(&String) -> Result<u64, E>,
    R: Fn(&String, u64, usize) -> Result<Vec<u8>, E>,
>(
    config: ArrayConfig,
    path: &String,
    array_phys: u64,
    block_size: usize,
    size: S,
    read: R,
    capacity: u64,
    out: Result<Vec<u8>, E>,
)
    requires
        holds_bytes(size, path, capacity),
        block_size > 0,
        array_phys + config.offset(path@) + block_size <= capacity,
        stripe::block_read(config, path, array_phys, block_size, size, read, out),
    ensures
        exists|got: Result<Vec<u8>, E>| #[trigger]
            call_ensures(
                read,
                (path, (array_phys + config.offset(path@)) as u64, block_size),
                got,
            ) && match got {
                Ok(bytes) => out matches Ok(b) && b@ == bytes@,
                Err(e) => out == Err::<Vec<u8>, E>(e),
            },
{
    let raw = array_phys + config.offset(path@);
    let cap = choose|cap: Result<u64, E>| #[trigger]
        call_ensures(size, (path,), cap) && match cap {
            Ok(capacity) => stripe::block_at(path, capacity, raw, block_size, read, out),
            Err(e) => out == Err::<Vec<u8>, E>(e),
        };
    assert(cap == Ok::<u64, E>(capacity));
    let got = choose|got: Result<Vec<u8>, E>| #[trigger]
        call_ensures(read, (path, raw as u64, block_size), got) && match got {
            Ok(bytes) => out matches Ok(b) && b@ == bytes@ + stripe::zeros(0),
            Err(e) => out == Err::<Vec<u8>, E>(e),
        };
    if let Ok(bytes) = got {
        assert(bytes@ + stripe::zeros(0) =~= bytes@);
    }
}

/// Zeros stand only for the bytes at or past the capacity: the bytes before it
/// are those that reading them gave.
pub proof fn law_zeros_stand_only_past_the_device<
    E,
    S: Fn(&String) -> Result<u64, E>,
    R: Fn(&String, u64, usize) -> Result<Vec<u8>, E>,
>(
    config: ArrayConfig,
    path: &String,
    array_phys: u64,
    block_size: usize,
    size: S,
    read: R,
    capacity: u64,
    out: Vec<u8>,
)
    requires
        stripe::disk_answers(size, read, path),
        holds_bytes(size, path, capacity),
        stripe::block_read(
            config,
            path,
            array_phys,
            block_size,
            size,
            read,
            Ok::<Vec<u8>, E>(out),
        ),
    ensures
        out@.len() == block_size,
        forall|i: int|
            0 <= i < block_size && array_phys + config.offset(path@) + i >= capacity
                ==> #[trigger] out@[i] == 0,
        array_phys + config.offset(path@) < capacity ==> exists|len: usize, bytes: Vec<u8>|
            {
                &&& #[trigger] call_ensures(
                    read,
                    (path, (array_phys + config.offset(path@)) as u64, len),
                    Ok::<Vec<u8>, E>(bytes),
                )
                &&& len == block_size || array_phys + config.offset(path@) + len == capacity
                &&& forall|i: int|
                    0 <= i < block_size && array_phys + config.offset(path@) + i < capacity
                        ==> i < len && #[trigger] out@[i] == bytes@[i]
            },
{
    let raw = array_phys + config.offset(path@);
    let cap = choose|cap: Result<u64, E>| #[trigger]
        call_ensures(size, (path,), cap) && match cap {
            Ok(capacity) => stripe::block_at(
                path,
                capacity,
                raw,
                block_size,
                read,
                Ok::<Vec<u8>, E>(out),
            ),
            Err(e) => false,
        };
    assert(cap == Ok::<u64, E>(capacity));
    if raw < capacity {
        let have = if capacity - raw < block_size { capacity - raw } else { block_size as int };
        assert(have == stripe::available(capacity as int, raw, block_size as int));
        let got = choose|got: Result<Vec<u8>, E>| #[trigger]
            call_ensures(read, (path, raw as u64, have as usize), got) && match got {
                Ok(bytes) => out@ == bytes@ + stripe::zeros((block_size - have) as nat),
                Err(e) => false,
            };
        let bytes = got->Ok_0;
        assert(bytes@.len() == have);
        assert(call_ensures(read, (path, raw as u64, have as usize), Ok::<Vec<u8>, E>(bytes)));
    }
}

/// A device whose capacity cannot be told gives that error and no block.
pub proof fn law_device_without_a_size_gives_its_error<
    E,
    S: Fn(&String) -> Result<u64, E>,
    R: Fn(&String, u64, usize) -> Result<Vec<u8>, E>,
>(
    config: ArrayConfig,
    path: &String,
    array_phys: u64,
    block_size: usize,
    size: S,
    read: R,
    out: Result<Vec<u8>, E>,
)
    requires
        stripe::block_read(config, path, array_phys, block_size, size, read, out),
        forall|cap: Result<u64, E>| #[trigger] call_ensures(size, (path,), cap) ==> cap is Err,
    ensures
        out matches Err(e) && call_ensures(size, (path,), Err::<u64, E>(e)),
{
}

// ---------------------------------------------------------------------------
// What the stat file says of a disk
// ---------------------------------------------------------------------------

/// The text is the number, in decimal digits.
pub open spec fn is_number(t: Seq<char>, v: int) -> bool {
    &&& number_text::all_digits(number_text::unsigned(t), 10)
    &&& number_text::number(number_text::unsigned(t), 10) == v
}

/// The key names the disk of a slot.
pub open spec fn names_slot(key: Seq<char>, slot: u64) -> bool {
    exists|digits: Seq<char>|
        key == seq!['r', 'd', 'e', 'v', 'N', 'a', 'm', 'e', '.'] + digits && #[trigger] is_number(
            digits,
            slot as int,
        )
}

/// The key under which the offset of a slot's disk is listed.
pub open spec fn offset_key(slot: u64) -> Seq<char> {
    seq!['r', 'd', 'e', 'v', 'O', 'f', 'f', 's', 'e', 't', '.'] + text::decimal(slot as nat)
}

/// A name that starts with a slash is the path; any other is one under /dev.
pub open spec fn device_path(name: Seq<char>) -> Seq<char> {
    if name.len() > 0 && name[0] == '/' {
        name
    } else {
        seq!['/', 'd', 'e', 'v', '/'] + name
    }
}

proof fn lemma_literals()
    ensures
        "rdevName."@ == seq!['r', 'd', 'e', 'v', 'N', 'a', 'm', 'e', '.'],
        "rdevOffset."@ == seq!['r', 'd', 'e', 'v', 'O', 'f', 'f', 's', 'e', 't', '.'],
        "/dev/"@ == seq!['/', 'd', 'e', 'v', '/'],
{
    reveal_strlit("rdevName.");
    reveal_strlit("rdevOffset.");
    reveal_strlit("/dev/");
    assert("rdevName."@ =~= seq!['r', 'd', 'e', 'v', 'N', 'a', 'm', 'e', '.']);
    assert("rdevOffset."@ =~= seq!['r', 'd', 'e', 'v', 'O', 'f', 'f', 's', 'e', 't', '.']);
    assert("/dev/"@ =~= seq!['/', 'd', 'e', 'v', '/']);
}

proof fn lemma_names_slot(key: Seq<char>, slot: u64)
    ensures
        names_slot(key, slot) <==> nmdstat::name_slot(key) == Some(slot as nat),
{
    lemma_literals();
    let lead = seq!['r', 'd', 'e', 'v', 'N', 'a', 'm', 'e', '.'];
    if names_slot(key, slot) {
        let digits = choose|digits: Seq<char>|
            key == lead + digits && #[trigger] is_number(digits, slot as int);
        assert(key.take(9) =~= lead);
        assert(key.skip(9) =~= digits);
        number_text::law_text_is_read_as_its_number(digits, 10, u64::MAX as nat);
    }
    if nmdstat::name_slot(key) == Some(slot as nat) {
        let digits = key.skip(9);
        number_text::law_text_is_read_as_its_number(digits, 10, u64::MAX as nat);
        assert(key =~= lead + digits);
        assert(is_number(digits, slot as int));
    }
}

proof fn lemma_entry_of_pair(out: Seq<StatEntry>, list: Seq<(String, String)>, k: int, i: int) -> (m:
    int)
    requires
        nmdstat::entries_upto(out, list, k),
        0 <= i < k,
        nmdstat::names_disk(list, i),
    ensures
        0 <= m < out.len(),
        nmdstat::entry_of(out[m], list, i),
    decreases k,
{
    if i == k - 1 {
        out.len() - 1
    } else if nmdstat::names_disk(list, k - 1) {
        let m = lemma_entry_of_pair(out.drop_last(), list, k - 1, i);
        assert(out.drop_last()[m] == out[m]);
        m
    } else {
        lemma_entry_of_pair(out, list, k - 1, i)
    }
}

proof fn lemma_pair_of_entry(out: Seq<StatEntry>, list: Seq<(String, String)>, k: int, m: int) -> (i:
    int)
    requires
        nmdstat::entries_upto(out, list, k),
        0 <= m < out.len(),
    ensures
        0 <= i < k,
        nmdstat::names_disk(list, i),
        nmdstat::entry_of(out[m], list, i),
    decreases k,
{
    if nmdstat::names_disk(list, k - 1) {
        if m == out.len() - 1 {
            k - 1
        } else {
            assert(out.drop_last()[m] == out[m]);
            lemma_pair_of_entry(out.drop_last(), list, k - 1, m)
        }
    } else {
        lemma_pair_of_entry(out, list, k - 1, m)
    }
}

/// Where the values name a slot's disk and list a number as its offset, that
/// disk is there, under its path, with that number of sectors as its offset.
pub proof fn law_listed_offset_is_the_disks_offset(
    out: Seq<StatEntry>,
    list: Seq<(String, String)>,
    i: int,
    j: int,
    slot: u64,
    v: u64,
)
    requires
        nmdstat::keys_ascend(list),
        nmdstat::entries_upto(out, list, list.len() as int),
        0 <= i < list.len(),
        names_slot(list[i].0@, slot),
        list[i].1@.len() > 0,
        0 <= j < list.len(),
        list[j].0@ == offset_key(slot),
        is_number(list[j].1@, v as int),
    ensures
        exists|m: int|
            {
                &&& 0 <= m < out.len()
                &&& (#[trigger] out[m]).slot == slot
                &&& out[m].path@ == device_path(list[i].1@)
                &&& out[m].offset_sectors == v
            },
{
    lemma_literals();
    lemma_names_slot(list[i].0@, slot);
    let m = lemma_entry_of_pair(out, list, list.len() as int, i);
    nmdstat::lemma_as_map_index(list, j);
    number_text::law_text_is_read_as_its_number(list[j].1@, 10, u64::MAX as nat);
    assert(out[m].slot == slot);
}

/// A decimal text is the number it was written for.
pub proof fn law_decimal_text_is_the_number(v: u64)
    ensures
        is_number(text::decimal(v as nat), v as int),
{
    number_text::law_digits_are_worth_the_number(v as nat);
}

/// Every disk comes from a pair that names its slot and has a name; its offset
/// is the number listed for the slot, or 0 where none is listed or the text is
/// no number that fits.
pub proof fn law_disks_come_from_their_pairs(
    out: Seq<StatEntry>,
    list: Seq<(String, String)>,
    m: int,
)
    requires
        nmdstat::keys_ascend(list),
        nmdstat::entries_upto(out, list, list.len() as int),
        0 <= m < out.len(),
    ensures
        exists|i: int|
            {
                &&& 0 <= i < list.len()
                &&& names_slot((#[trigger] list[i]).0@, out[m].slot)
                &&& list[i].1@.len() > 0
                &&& out[m].path@ == device_path(list[i].1@)
            },
        out[m].offset_sectors != 0 ==> exists|j: int|
            {
                &&& 0 <= j < list.len()
                &&& (#[trigger] list[j]).0@ == offset_key(out[m].slot)
                &&& is_number(list[j].1@, out[m].offset_sectors as int)
            },
{
    lemma_literals();
    let i = lemma_pair_of_entry(out, list, list.len() as int, m);
    lemma_names_slot(list[i].0@, out[m].slot);
    assert(names_slot(list[i].0@, out[m].slot));
    if out[m].offset_sectors != 0 {
        let key = offset_key(out[m].slot);
        nmdstat::lemma_as_map_dom(list, key);
        let j = choose|j: int| 0 <= j < list.len() && (#[trigger] list[j]).0@ == key;
        nmdstat::lemma_as_map_index(list, j);
        number_text::law_text_is_read_as_its_number(list[j].1@, 10, u64::MAX as nat);
        assert(is_number(list[j].1@, out[m].offset_sectors as int));
    }
}

proof fn lemma_built_offset(configs: Seq<ArrayConfig>, entries: Seq<StatEntry>, n: int, k: int)
    requires
        nmdstat::built(configs, entries),
        0 <= k < n < configs.len(),
        forall|j: int|
            k < j < n ==> !path::same_path((#[trigger] entries[j]).path@, entries[k].path@),
    ensures
        configs[n].offset(entries[k].path@) == entries[k].offset_sectors * 512,
    decreases n,
{
    assert(nmdstat::added(configs[n - 1], entries[n - 1], configs[n - 1 + 1]));
    if k < n - 1 {
        lemma_built_offset(configs, entries, n - 1, k);
    }
}

proof fn lemma_built_no_offset(
    configs: Seq<ArrayConfig>,
    entries: Seq<StatEntry>,
    n: int,
    p: Seq<char>,
)
    requires
        nmdstat::built(configs, entries),
        0 <= n < configs.len(),
        forall|j: int| 0 <= j < n ==> !path::same_path((#[trigger] entries[j]).path@, p),
    ensures
        configs[n].offset(p) == 0,
    decreases n,
{
    if n > 0 {
        assert(nmdstat::added(configs[n - 1], entries[n - 1], configs[n - 1 + 1]));
        lemma_built_no_offset(configs, entries, n - 1, p);
    }
}

/// The layout adds to a disk's addresses 512 bytes for each sector that was
/// listed for it, the last listing counting; to a path that no disk has, none.
pub proof fn law_layout_offset_is_512_bytes_a_sector(
    configs: Seq<ArrayConfig>,
    entries: Seq<StatEntry>,
    k: int,
    p: Seq<char>,
)
    requires
        nmdstat::built(configs, entries),
        configs.len() == entries.len() + 1,
    ensures
        0 <= k < entries.len() && (forall|j: int|
            k < j < entries.len() ==> !path::same_path(
                (#[trigger] entries[j]).path@,
                entries[k].path@,
            )) ==> configs.last().offset(entries[k].path@) == entries[k].offset_sectors * 512,
        (forall|j: int|
            0 <= j < entries.len() ==> !path::same_path((#[trigger] entries[j]).path@, p))
            ==> configs.last().offset(p) == 0,
{
    if 0 <= k < entries.len() && (forall|j: int|
        k < j < entries.len() ==> !path::same_path(
            (#[trigger] entries[j]).path@,
            entries[k].path@,
        )) {
        lemma_built_offset(configs, entries, entries.len() as int, k);
    }
    if forall|j: int| 0 <= j < entries.len() ==> !path::same_path((#[trigger] entries[j]).path@, p) {
        lemma_built_no_offset(configs, entries, entries.len() as int, p);
    }
}

proof fn lemma_built_slot(configs: Seq<ArrayConfig>, entries: Seq<StatEntry>, n: int, k: int)
    requires
        nmdstat::built(configs, entries),
        0 <= k < n < configs.len(),
        forall|j: int| k < j < n ==> (#[trigger] entries[j]).slot != entries[k].slot,
    ensures
        entries[k].slot == 0 ==> (configs[n].parity_p matches Some(p) && p@ == entries[k].path@),
        entries[k].slot == 29 ==> (configs[n].parity_q matches Some(q) && q@ == entries[k].path@),
        entries[k].slot != 0 && entries[k].slot != 29 ==> configs[n].dev(entries[k].slot) == Some(
            entries[k].path@,
        ),
    decreases n,
{
    assert(nmdstat::added(configs[n - 1], entries[n - 1], configs[n - 1 + 1]));
    if k < n - 1 {
        lemma_built_slot(configs, entries, n - 1, k);
    }
}

proof fn lemma_built_no_slot(
    configs: Seq<ArrayConfig>,
    entries: Seq<StatEntry>,
    n: int,
    slot: u64,
)
    requires
        nmdstat::built(configs, entries),
        0 <= n < configs.len(),
        forall|j: int| 0 <= j < n ==> (#[trigger] entries[j]).slot != slot,
    ensures
        slot == 0 ==> configs[n].parity_p is None,
        slot == 29 ==> configs[n].parity_q is None,
        configs[n].dev(slot) is None,
    decreases n,
{
    if n > 0 {
        assert(nmdstat::added(configs[n - 1], entries[n - 1], configs[n - 1 + 1]));
        lemma_built_no_slot(configs, entries, n - 1, slot);
    }
}

/// Slot 0 holds the P disk, slot 29 the Q disk, and every other slot a data disk:
/// the last one that was listed for it, and none where none was.
pub proof fn law_slots_hold_their_disks(
    configs: Seq<ArrayConfig>,
    entries: Seq<StatEntry>,
    k: int,
    slot: u64,
)
    requires
        nmdstat::built(configs, entries),
        configs.len() == entries.len() + 1,
    ensures
        0 <= k < entries.len() && entries[k].slot == slot && (forall|j: int|
            k < j < entries.len() ==> (#[trigger] entries[j]).slot != slot) ==> {
            &&& slot == 0 ==> (configs.last().parity_p matches Some(p) && p@ == entries[k].path@)
            &&& slot == 29 ==> (configs.last().parity_q matches Some(q) && q@ == entries[k].path@)
            &&& slot != 0 && slot != 29 ==> configs.last().dev(slot) == Some(entries[k].path@)
        },
        (forall|j: int| 0 <= j < entries.len() ==> (#[trigger] entries[j]).slot != slot) ==> {
            &&& slot == 0 ==> configs.last().parity_p is None
            &&& slot == 29 ==> configs.last().parity_q is None
            &&& configs.last().dev(slot) is None
        },
{
    if 0 <= k < entries.len() && entries[k].slot == slot && (forall|j: int|
        k < j < entries.len() ==> (#[trigger] entries[j]).slot != slot) {
        lemma_built_slot(configs, entries, entries.len() as int, k);
    }
    if forall|j: int| 0 <= j < entries.len() ==> (#[trigger] entries[j]).slot != slot {
        lemma_built_no_slot(configs, entries, entries.len() as int, slot);
    }
}

/// A layout lists each of its data disks once, in slot order, and nothing else.
pub proof fn law_layout_lists_its_data_disks(config: ArrayConfig)
    ensures
        forall|i: int, j: int|
            0 <= i < j < config.disks().len() ==> (#[trigger] config.disks()[i]).0 < (
            #[trigger] config.disks()[j]).0,
        forall|i: int|
            0 <= i < config.disks().len() ==> {
                &&& config.data_devs@.contains_key((#[trigger] config.disks()[i]).0)
                &&& config.data_devs@[config.disks()[i].0] == config.disks()[i].1
            },
        forall|slot: u64| #[trigger]
            config.data_devs@.contains_key(slot) ==> exists|i: int|
                0 <= i < config.disks().len() && (#[trigger] config.disks()[i]).0 == slot,
{
    config::law_disks_are_listed(config);
    assert forall|slot: u64| #[trigger] config.data_devs@.contains_key(slot) implies exists|i: int|
        0 <= i < config.disks().len() && (#[trigger] config.disks()[i]).0 == slot by {
        assert(config::has_slot(config.disks(), slot));
    }
}

/// The offset of a path is the one listed last for it, and 0 for a path that is
/// not listed.
pub proof fn law_last_listed_offset_counts(config: ArrayConfig, p: Seq<char>, k: int)
    ensures
        0 <= k < config.rdev_offsets@.len() && path::same_path(config.rdev_offsets@[k].0@, p) && (
        forall|j: int|
            k < j < config.rdev_offsets@.len() ==> !path::same_path(
                (#[trigger] config.rdev_offsets@[j]).0@,
                p,
            )) ==> config.offset(p) == config.rdev_offsets@[k].1,
        (forall|j: int|
            0 <= j < config.rdev_offsets@.len() ==> !path::same_path(
                (#[trigger] config.rdev_offsets@[j]).0@,
                p,
            )) ==> config.offset(p) == 0,
{
    lemma_offset_in(config.rdev_offsets@, p, k);
}

proof fn lemma_offset_in(offsets: Seq<(String, u64)>, p: Seq<char>, k: int)
    ensures
        0 <= k < offsets.len() && path::same_path(offsets[k].0@, p) && (forall|j: int|
            k < j < offsets.len() ==> !path::same_path((#[trigger] offsets[j]).0@, p))
            ==> config::offset_in(offsets, p) == offsets[k].1,
        (forall|j: int|
            0 <= j < offsets.len() ==> !path::same_path((#[trigger] offsets[j]).0@, p))
            ==> config::offset_in(offsets, p) == 0,
    decreases offsets.len(),
{
    if offsets.len() > 0 {
        let front = offsets.drop_last();
        lemma_offset_in(front, p, k);
        assert(offsets.last() == offsets[offsets.len() - 1]);
        assert forall|j: int| 0 <= j < front.len() implies front[j] == #[trigger] offsets[j] by {}
    }
}

} // verus!
