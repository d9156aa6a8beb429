//! The key directory: `polars_utils`' insertion-ordered map from pre-hashed
//! byte strings to a value, here the ordinal of the key's bucket.
//!
//! Nothing in this file is proved. Verus sees the map as an opaque value and
//! believes the contracts below, each of which restates what the map's source
//! shows. Like the contracts that vstd gives to `Vec`, they are silent on
//! memory: a map that cannot get the memory it asks for stops the program.

use polars_utils::idx_map::bytes_idx_map::{BytesIndexMap, Entry};
use polars_utils::IdxSize;
use vstd::prelude::*;

verus! {

#[verifier::external_type_specification]
#[verifier::external_body]
#[verifier::reject_recursive_types(V)]
pub struct ExBytesIndexMap<V>(BytesIndexMap<V>);

/// What a directory holds: one `(hash, key, value)` triple per stored key, in
/// the order in which the keys were inserted.
pub uninterp spec fn map_entries(m: BytesIndexMap<IdxSize>) -> Seq<(u64, Seq<u8>, IdxSize)>;

/// Whether the triple `e` was stored under `(hash, key)`. The map compares
/// the hash and the key bytes, both.
pub open spec fn entry_matches(e: (u64, Seq<u8>, IdxSize), hash: u64, key: Seq<u8>) -> bool {
    e.0 == hash && e.1 == key
}

/// `BytesIndexMap::new`: a directory without entries.
#[verifier::external_body]
pub(crate) fn map_new() -> (m: BytesIndexMap<IdxSize>)
    ensures
        map_entries(m) == Seq::<(u64, Seq<u8>, IdxSize)>::empty(),
{
    BytesIndexMap::new()
}

/// `BytesIndexMap::reserve`: makes room for `additional` more entries, and
/// leaves the entries as they are.
#[verifier::external_body]
pub(crate) fn map_reserve(m: &mut BytesIndexMap<IdxSize>, additional: usize)
    ensures
        map_entries(*final(m)) == map_entries(*old(m)),
{
    m.reserve(additional)
}

/// `BytesIndexMap::len`: the number of entries. The map reports it as an
/// `IdxSize`, so the count has to fit one.
#[verifier::external_body]
pub(crate) fn map_len(m: &BytesIndexMap<IdxSize>) -> (n: IdxSize)
    requires
        map_entries(*m).len() <= IdxSize::MAX,
    ensures
        n == map_entries(*m).len(),
{
    m.len()
}

/// `BytesIndexMap::get`: the value of an entry stored under `(hash, key)`,
/// or `None` when no entry is stored under it.
#[verifier::external_body]
pub(crate) fn map_get(m: &BytesIndexMap<IdxSize>, hash: u64, key: &[u8]) -> (r: Option<IdxSize>)
    ensures
        match r {
            Some(v) => exists|i: int|
                0 <= i < map_entries(*m).len() && entry_matches(
                    #[trigger] map_entries(*m)[i],
                    hash,
                    key@,
                ) && map_entries(*m)[i].2 == v,
            None => forall|i: int|
                0 <= i < map_entries(*m).len() ==> !entry_matches(
                    #[trigger] map_entries(*m)[i],
                    hash,
                    key@,
                ),
        },
{
    m.get(hash, key).copied()
}

/// `BytesIndexMap::entry`, followed by `OccupiedEntry::into_mut` or
/// `VacantEntry::insert`. Where an entry is stored under `(hash, key)` its
/// value comes back and the directory stays as it is. Where none is, the
/// triple `(hash, key, value)` is appended and `None` comes back.
///
/// The map numbers its entries and measures its keys in `IdxSize`, and stops
/// the program where either does not fit: hence the two bounds. It copies the
/// key bytes into buffers of its own, each twice as large as the one before.
#[verifier::external_body]
pub(crate) fn map_get_or_insert(
    m: &mut BytesIndexMap<IdxSize>,
    hash: u64,
    key: &[u8],
    value: IdxSize,
) -> (r: Option<IdxSize>)
    requires
        map_entries(*old(m)).len() <= IdxSize::MAX,
        key@.len() <= IdxSize::MAX,
    ensures
        match r {
            Some(v) => map_entries(*final(m)) == map_entries(*old(m)) && exists|i: int|
                0 <= i < map_entries(*old(m)).len() && entry_matches(
                    #[trigger] map_entries(*old(m))[i],
                    hash,
                    key@,
                ) && map_entries(*old(m))[i].2 == v,
            None => map_entries(*final(m)) == map_entries(*old(m)).push((hash, key@, value))
                && forall|i: int|
                0 <= i < map_entries(*old(m)).len() ==> !entry_matches(
                    #[trigger] map_entries(*old(m))[i],
                    hash,
                    key@,
                ),
        },
{
    match m.entry(hash, key) {
        Entry::Occupied(o) => Some(*o.into_mut()),
        Entry::Vacant(v) => {
            v.insert(value);
            None
        },
    }
}

} // verus!
