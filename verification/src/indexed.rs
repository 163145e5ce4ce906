//! Insertion-ordered hash collections, keyed by integers.
//!
//! The sets and maps are those of the `indexmap` crate. Verus sees them as
//! opaque values; what they hold is named by [`set_items`] and
//! [`map_entries`], and each operation used on them is stated over those
//! names, as the crate documents it. These statements are taken on trust.

use crate::fn_item::FnTable;
use crate::seqs::push_new;
use indexmap::IndexMap;
use indexmap::IndexSet;
use vstd::prelude::*;

verus! {

/// `indexmap::IndexSet`, as a type of which nothing is seen but what the
/// functions below state.
#[verifier::external_type_specification]
#[verifier::external_body]
#[verifier::reject_recursive_types(T)]
#[verifier::reject_recursive_types(S)]
pub struct ExIndexSet<T, S>(IndexSet<T, S>);

/// `indexmap::IndexMap`, as a type of which nothing is seen but what the
/// functions below state.
#[verifier::external_type_specification]
#[verifier::external_body]
#[verifier::reject_recursive_types(K)]
#[verifier::reject_recursive_types(V)]
#[verifier::reject_recursive_types(S)]
pub struct ExIndexMap<K, V, S>(IndexMap<K, V, S>);

/// The values that an `IndexSet` holds, in its order: that in which they
/// were inserted, or the last sort has left them.
pub uninterp spec fn set_items(s: IndexSet<u64>) -> Seq<u64>;

/// The entries that an `IndexMap` holds, in its order: each key with the
/// values of the set stored under it.
pub uninterp spec fn map_entries(m: IndexMap<u64, IndexSet<u64>>) -> Seq<(u64, Seq<u64>)>;

/// The keys of the entries, in order.
pub open spec fn keys_of(entries: Seq<(u64, Seq<u64>)>) -> Seq<u64> {
    Seq::new(entries.len(), |i: int| entries[i].0)
}

/// Some entry has the key `key`.
pub open spec fn has_key(entries: Seq<(u64, Seq<u64>)>, key: u64) -> bool {
    exists|i: int| 0 <= i < entries.len() && (#[trigger] entries[i]).0 == key
}

/// The entry at `i` has the key `key` and the items `items`.
pub open spec fn entry_at(entries: Seq<(u64, Seq<u64>)>, i: int, key: u64, items: Seq<u64>) -> bool {
    0 <= i < entries.len() && entries[i] == (key, items)
}

/// `after` holds the items of `before`, ascending by display name, and items
/// of one name in the order that they had.
pub open spec fn sorted_by_name(table: &FnTable, before: Seq<u64>, after: Seq<u64>) -> bool {
    &&& after.to_multiset() == before.to_multiset()
    &&& forall|i: int, j: int|
        0 <= i < j < after.len() ==> table.name_le(#[trigger] after[i], #[trigger] after[j])
    &&& forall|p: int, q: int|
        0 <= p < q < before.len() && table.name(#[trigger] before[p]) == table.name(
            #[trigger] before[q],
        ) ==> exists|i: int, j: int|
            0 <= i < j < after.len() && #[trigger] after[i] == before[p] && #[trigger] after[j]
                == before[q]
}

/// `IndexSet::new`: a set without values.
#[verifier::external_body]
pub(crate) fn set_new() -> (s: IndexSet<u64>)
    ensures
        set_items(s) == Seq::<u64>::empty(),
{
    IndexSet::new()
}

/// `IndexSet::len`: the number of values.
#[verifier::external_body]
pub(crate) fn set_len(s: &IndexSet<u64>) -> (n: usize)
    ensures
        n == set_items(*s).len(),
{
    s.len()
}

/// `IndexSet::get_index`: the value at a place of the order, for the places
/// below the length.
#[verifier::external_body]
pub(crate) fn set_get_index(s: &IndexSet<u64>, index: usize) -> (value: Option<u64>)
    ensures
        value == if index < set_items(*s).len() {
            Some(set_items(*s)[index as int])
        } else {
            None
        },
{
    s.get_index(index).copied()
}

/// `IndexSet::contains`: whether the value is in the set.
#[verifier::external_body]
pub(crate) fn set_contains(s: &IndexSet<u64>, value: u64) -> (found: bool)
    ensures
        found == set_items(*s).contains(value),
{
    s.contains(&value)
}

/// `IndexSet::insert`: a value that the set lacks goes to the end and `true`
/// is returned; one that it has leaves the set and its order as they were.
#[verifier::external_body]
pub(crate) fn set_insert(s: &mut IndexSet<u64>, value: u64) -> (fresh: bool)
    ensures
        fresh == !set_items(*old(s)).contains(value),
        set_items(*final(s)) == push_new(set_items(*old(s)), value),
{
    s.insert(value)
}

/// `IndexSet::sort_by` with the order of display names: the same values,
/// ascending, by a stable sort. The comparison handed over is a total
/// order of the names ([`crate::laws::lemma_name_order`]), on values that
/// are all in the table.
#[verifier::external_body]
pub(crate) fn set_sort_by_name(s: &mut IndexSet<u64>, table: &FnTable)
    requires
        forall|i: int| 0 <= i < set_items(*old(s)).len() ==> table.has(#[trigger] set_items(*old(s))[i]),
    ensures
        sorted_by_name(table, set_items(*old(s)), set_items(*final(s))),
{
    s.sort_by(|a, b| table.name_order(*a, *b))
}

/// `IndexMap::new`: a map without entries.
#[verifier::external_body]
pub(crate) fn map_new() -> (m: IndexMap<u64, IndexSet<u64>>)
    ensures
        map_entries(m) == Seq::<(u64, Seq<u64>)>::empty(),
{
    IndexMap::new()
}

/// `IndexMap::len`: the number of entries.
#[verifier::external_body]
pub(crate) fn map_len(m: &IndexMap<u64, IndexSet<u64>>) -> (n: usize)
    ensures
        n == map_entries(*m).len(),
{
    m.len()
}

/// `IndexMap::get_index`: the key and the set at a place of the order, for
/// the places below the length.
#[verifier::external_body]
pub(crate) fn map_get_index(m: &IndexMap<u64, IndexSet<u64>>, index: usize) -> (entry: Option<
    (u64, &IndexSet<u64>),
>)
    ensures
        match entry {
            Some((key, set)) => entry_at(map_entries(*m), index as int, key, set_items(*set)),
            None => index >= map_entries(*m).len(),
        },
{
    m.get_index(index).map(|(key, set)| (*key, set))
}

/// `IndexMap::get`: the set stored under the key, if the map has the key.
#[verifier::external_body]
pub(crate) fn map_get(m: &IndexMap<u64, IndexSet<u64>>, key: u64) -> (found: Option<&IndexSet<u64>>)
    ensures
        match found {
            Some(set) => exists|i: int| entry_at(map_entries(*m), i, key, set_items(*set)),
            None => !has_key(map_entries(*m), key),
        },
{
    m.get(&key)
}

/// `IndexMap::get_mut`: the set stored under the key, for change in place.
/// The entry keeps its key and its place, and the other entries stay as
/// they are.
#[verifier::external_body]
pub(crate) fn map_get_mut(m: &mut IndexMap<u64, IndexSet<u64>>, key: u64) -> (found: Option<
    &mut IndexSet<u64>,
>)
    ensures
        match found {
            Some(set) => exists|i: int|
                {
                    &&& entry_at(map_entries(*old(m)), i, key, set_items(*set))
                    &&& map_entries(*final(m)) == map_entries(*old(m)).update(
                        i,
                        (key, set_items(*final(set))),
                    )
                },
            None => !has_key(map_entries(*old(m)), key) && map_entries(*final(m)) == map_entries(
                *old(m),
            ),
        },
{
    m.get_mut(&key)
}

/// `IndexMap::insert`: under a key that the map lacks the entry goes to the
/// end; under one that it has the new set takes the old one's place.
#[verifier::external_body]
pub(crate) fn map_insert(m: &mut IndexMap<u64, IndexSet<u64>>, key: u64, set: IndexSet<u64>)
    ensures
        !has_key(map_entries(*old(m)), key) ==> map_entries(*final(m)) == map_entries(
            *old(m),
        ).push((key, set_items(set))),
        has_key(map_entries(*old(m)), key) ==> exists|i: int|
            {
                &&& 0 <= i < map_entries(*old(m)).len()
                &&& (#[trigger] map_entries(*old(m))[i]).0 == key
                &&& map_entries(*final(m)) == map_entries(*old(m)).update(i, (key, set_items(set)))
            },
{
    let _ = m.insert(key, set);
}

/// `IndexMap::sort_by` with the order of the keys' display names: the same
/// entries, each key with its set, ascending by a stable sort. The
/// comparison handed over is a total order of the names
/// ([`crate::laws::lemma_name_order`]), on keys that are all in the table.
#[verifier::external_body]
pub(crate) fn map_sort_by_name(m: &mut IndexMap<u64, IndexSet<u64>>, table: &FnTable)
    requires
        forall|i: int|
            0 <= i < map_entries(*old(m)).len() ==> table.has((#[trigger] map_entries(*old(m))[i]).0),
    ensures
        sorted_by_name(table, keys_of(map_entries(*old(m))), keys_of(map_entries(*final(m)))),
        forall|i: int|
            0 <= i < map_entries(*final(m)).len() ==> map_entries(*old(m)).contains(
                #[trigger] map_entries(*final(m))[i],
            ),
{
    m.sort_by(|a, _, b, _| table.name_order(*a, *b))
}

} // verus!
