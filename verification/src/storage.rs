//! The stable structures that the records and the identifier counter live in.
//!
//! Both are structures of `ic_stable_structures` over a virtual memory of a
//! memory manager. Verus cannot be told of these types, whose parameters are
//! bound by traits it does not know, so each is held in a struct that it does
//! not look into. What a structure holds has a name here, and what each call
//! does to it is stated over that name and taken on trust.
//!
//! The field of each struct is public: the program that owns the stable
//! memory opens the structure there and hands it over. The memory is taken
//! to be reserved for the structure, as the crate asks, and to hold nothing
//! but what was stored through it.

use crate::codec::MAX_RECORD_SIZE;
use ic_stable_structures::memory_manager::VirtualMemory;
use ic_stable_structures::storable::Blob;
use ic_stable_structures::{Cell, DefaultMemoryImpl, StableBTreeMap};
use vstd::prelude::*;

verus! {

/// The cell that holds the identifier counter.
#[verifier::external_body]
pub struct IdCell {
    pub cell: Cell<u64, VirtualMemory<DefaultMemoryImpl>>,
}

/// An ordered map from identifiers to stored values of at most
/// `MAX_RECORD_SIZE` bytes each.
#[verifier::external_body]
pub struct RecordMap {
    pub map: StableBTreeMap<u64, Blob<1024>, VirtualMemory<DefaultMemoryImpl>>,
}

/// The value that a cell holds.
pub uninterp spec fn cell_value(cell: IdCell) -> u64;

/// The entries that a map holds: the bytes stored under each key.
pub uninterp spec fn map_entries(map: RecordMap) -> Map<u64, Seq<u8>>;

/// Whether `listing` holds each entry of `entries` once, by ascending key.
pub open spec fn lists_in_key_order<V>(listing: Seq<(u64, V)>, entries: Map<u64, V>) -> bool {
    &&& forall|i: int, j: int|
        0 <= i < j < listing.len() ==> (#[trigger] listing[i]).0 < (#[trigger] listing[j]).0
    &&& forall|i: int|
        0 <= i < listing.len() ==> entries.contains_pair(
            (#[trigger] listing[i]).0,
            listing[i].1,
        )
    &&& forall|key: u64| #[trigger]
        entries.contains_key(key) ==> exists|i: int|
            0 <= i < listing.len() && (#[trigger] listing[i]).0 == key
}

/// A listing of stored values as contracts see it.
pub open spec fn raw_entries(listing: Seq<(u64, Vec<u8>)>) -> Seq<(u64, Seq<u8>)> {
    listing.map_values(|entry: (u64, Vec<u8>)| (entry.0, entry.1@))
}

/// `Cell::get`: the value in the cell.
#[verifier::external_body]
pub(crate) fn cell_get(cell: &IdCell) -> (value: u64)
    ensures
        value == cell_value(*cell),
{
    *cell.cell.get()
}

/// `Cell::set`: the cell then holds `value`, and the value it held comes back.
///
/// `set` fails only where the memory has to grow and cannot. It grows the
/// memory only where that has no page yet or the value does not fit in its
/// pages. A cell that exists has written its header, so its memory has a page,
/// and the eight bytes of a `u64` fit in it: the call does not fail.
#[verifier::external_body]
pub(crate) fn cell_set(cell: &mut IdCell, value: u64) -> (previous: u64)
    ensures
        previous == cell_value(*old(cell)),
        cell_value(*final(cell)) == value,
{
    cell.cell.set(value).expect("cannot write the identifier counter")
}

/// `StableBTreeMap::get`: the bytes stored under `key`, if any are.
#[verifier::external_body]
pub(crate) fn map_get(map: &RecordMap, key: u64) -> (value: Option<Vec<u8>>)
    ensures
        match value {
            Some(bytes) => map_entries(*map).contains_pair(key, bytes@),
            None => !map_entries(*map).contains_key(key),
        },
{
    map.map.get(&key).map(|blob| blob.as_slice().to_vec())
}

/// `StableBTreeMap::insert`: `value` is then stored under `key`, in place of
/// what was stored there, and every other entry is as it was.
///
/// The map stores a `Blob`, which holds up to `MAX_RECORD_SIZE` bytes: longer
/// values are left out. The call aborts where the stable memory is exhausted.
#[verifier::external_body]
pub(crate) fn map_insert(map: &mut RecordMap, key: u64, value: &Vec<u8>)
    requires
        value@.len() <= MAX_RECORD_SIZE,
    ensures
        map_entries(*final(map)) == map_entries(*old(map)).insert(key, value@),
{
    map.map.insert(key, Blob::try_from(value.as_slice()).unwrap());
}

/// `StableBTreeMap::remove`: nothing is then stored under `key`, every other
/// entry is as it was, and the result says whether anything was stored there.
#[verifier::external_body]
pub(crate) fn map_remove(map: &mut RecordMap, key: u64) -> (removed: bool)
    ensures
        removed == map_entries(*old(map)).contains_key(key),
        map_entries(*final(map)) == map_entries(*old(map)).remove(key),
{
    map.map.remove(&key).is_some()
}

/// `StableBTreeMap::iter`: every entry of the map, by ascending key.
#[verifier::external_body]
pub(crate) fn map_iter(map: &RecordMap) -> (listing: Vec<(u64, Vec<u8>)>)
    ensures
        lists_in_key_order(raw_entries(listing@), map_entries(*map)),
{
    map.map.iter().map(|(key, blob)| (key, blob.as_slice().to_vec())).collect()
}

} // verus!
