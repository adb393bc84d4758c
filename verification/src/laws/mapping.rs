//! Chunks: where a logical address lies, and which profiles can be mapped.

use vstd::prelude::*;

use crate::btrfs::chunk;
use crate::btrfs::chunk::{ChunkMap, ChunkRecord, MapEntry};

verus! {

/// The address lies in the chunk.
pub open spec fn in_chunk(rec: ChunkRecord, logical: u64) -> bool {
    rec.logical <= logical < rec.logical + rec.chunk.length
}

/// `at` is where stripe `c` of the chunk has the address: as far behind the start
/// of the stripe as the address is behind the start of the chunk.
pub open spec fn stripe_has(rec: ChunkRecord, c: int, logical: u64, at: (u64, u64)) -> bool {
    &&& at.0 == rec.chunk.stripes@[c].devid
    &&& at.1 == rec.chunk.stripes@[c].offset + (logical - rec.logical)
}

/// The entry is the chunk's: its start, end, type and stripes.
pub open spec fn maps_chunk(e: MapEntry, rec: ChunkRecord) -> bool {
    &&& e.begin == rec.logical
    &&& e.end == rec.logical + rec.chunk.length
    &&& e.ty == rec.chunk.ty
    &&& e.stripes@ == rec.chunk.stripes@
}

/// Of chunks that do not overlap, the one that an address lies in answers for it:
/// every copy is on its stripe's device, as far behind the stripe's start as the
/// address is behind the chunk's.
pub proof fn law_address_maps_into_its_chunk(
    recs: Seq<ChunkRecord>,
    map: ChunkMap,
    k: int,
    logical: u64,
    i: int,
    c: int,
    at: (u64, u64),
)
    requires
        chunk::all_inserted(Seq::empty(), recs, map@),
        0 <= k < recs.len(),
        in_chunk(recs[k], logical),
        forall|m: int| 0 <= m < recs.len() && m != k ==> !in_chunk(#[trigger] recs[m], logical),
    ensures
        !map.unmapped(logical),
        map.found(logical, i) ==> maps_chunk(map@[i], recs[k]),
        map.found(logical, i) && 0 <= c < recs[k].chunk.stripes@.len() && chunk::is_copy(
            at,
            map@[i].copies(logical)[c],
        ) ==> stripe_has(recs[k], c, logical, at),
{
    chunk::law_map_holds_its_records(Seq::empty(), recs, map@);
    let own = choose|own: int|
        0 <= own < map@.len() && chunk::entry_for(#[trigger] map@[own], recs[k]);
    assert(map@[own].covers(logical));
    if map.found(logical, i) {
        let e = map@[i];
        assert(!Seq::<MapEntry>::empty().contains(e));
        let m = choose|m: int| 0 <= m < recs.len() && chunk::entry_for(map@[i], #[trigger] recs[m]);
        assert(in_chunk(recs[m], logical));
        assert(m == k);
    }
}

/// An address is mapped if and only if it lies in some chunk.
pub proof fn law_address_is_mapped_iff_in_a_chunk(
    recs: Seq<ChunkRecord>,
    map: ChunkMap,
    logical: u64,
)
    requires
        chunk::all_inserted(Seq::empty(), recs, map@),
    ensures
        map.unmapped(logical) <==> forall|k: int|
            0 <= k < recs.len() ==> !in_chunk(#[trigger] recs[k], logical),
{
    chunk::law_map_holds_its_records(Seq::empty(), recs, map@);
    if map.unmapped(logical) {
        assert forall|k: int| 0 <= k < recs.len() implies !in_chunk(#[trigger] recs[k], logical) by {
            let own = choose|own: int|
                0 <= own < map@.len() && chunk::entry_for(#[trigger] map@[own], recs[k]);
            assert(!map@[own].covers(logical));
        }
    }
    if forall|k: int| 0 <= k < recs.len() ==> !in_chunk(#[trigger] recs[k], logical) {
        assert forall|j: int| 0 <= j < map@.len() implies !(#[trigger] map@[j]).covers(
            logical,
        ) by {
            assert(!Seq::<MapEntry>::empty().contains(map@[j]));
            let m = choose|m: int|
                0 <= m < recs.len() && chunk::entry_for(map@[j], #[trigger] recs[m]);
            assert(!in_chunk(recs[m], logical));
        }
    }
}

/// The eight profile bits of a chunk's type, from bit 3 on.
pub open spec fn profile_bits(ty: u64) -> int {
    (ty as int / 8) % 256
}

/// A chunk is refused if and only if it holds data (bit 0) and its profile bits
/// are neither none (SINGLE) nor just the third (DUP).
pub proof fn law_striped_data_is_refused(e: MapEntry)
    ensures
        chunk::bad_data_profile(e) <==> {
            &&& e.ty % 2 == 1
            &&& profile_bits(e.ty) != 0
            &&& profile_bits(e.ty) != 4
        },
{
    let ty = e.ty;
    assert(ty & 0x7f8 == ((ty / 8) % 256) * 8) by (bit_vector);
    assert(ty & 0x1 == ty % 2) by (bit_vector);
}

/// A profile's name goes by its one bit.
pub proof fn law_profile_has_its_name(ty: u64)
    ensures
        profile_bits(ty) == 0 ==> chunk::profile_name_of(ty) == "SINGLE"@,
        profile_bits(ty) == 1 ==> chunk::profile_name_of(ty) == "RAID0"@,
        profile_bits(ty) == 2 ==> chunk::profile_name_of(ty) == "RAID1"@,
        profile_bits(ty) == 4 ==> chunk::profile_name_of(ty) == "DUP"@,
        profile_bits(ty) == 8 ==> chunk::profile_name_of(ty) == "RAID10"@,
        profile_bits(ty) == 16 ==> chunk::profile_name_of(ty) == "RAID5"@,
        profile_bits(ty) == 32 ==> chunk::profile_name_of(ty) == "RAID6"@,
        profile_bits(ty) == 64 ==> chunk::profile_name_of(ty) == "RAID1C3"@,
        profile_bits(ty) == 128 ==> chunk::profile_name_of(ty) == "RAID1C4"@,
{
    assert(ty & 0x7f8 == ((ty / 8) % 256) * 8) by (bit_vector);
}

} // verus!
