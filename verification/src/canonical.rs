//! The canonical order of an adjacency map: rows by the display name of
//! their key, and the items of each row by display name.

use crate::adjacency::{
    distinct_items, distinct_keys, lemma_keys_of, lemma_row_unique, links, no_empty_rows, row,
    row_index, Adjacency,
};
use crate::fn_item::FnTable;
use crate::indexed::{has_key, keys_of, sorted_by_name};
use vstd::prelude::*;

verus! {

/// The items stand in ascending order of display name.
pub open spec fn ascending(table: &FnTable, items: Seq<u64>) -> bool {
    forall|i: int, j: int|
        0 <= i < j < items.len() ==> table.name_le(#[trigger] items[i], #[trigger] items[j])
}

/// Rows and items are in canonical order.
pub open spec fn canonical(table: &FnTable, adj: Adjacency) -> bool {
    &&& ascending(table, keys_of(adj))
    &&& forall|i: int| 0 <= i < adj.len() ==> ascending(table, (#[trigger] adj[i]).1)
}

/// `after` is `before` brought into canonical order by stable sorts: the
/// same keys, each with the items it had.
pub open spec fn canonical_of(table: &FnTable, before: Adjacency, after: Adjacency) -> bool {
    &&& sorted_by_name(table, keys_of(before), keys_of(after))
    &&& forall|i: int|
        0 <= i < after.len() ==> sorted_by_name(
            table,
            row(before, (#[trigger] after[i]).0),
            after[i].1,
        )
}

/// A sort keeps the items: as many, the same ones, and none twice where
/// none was there twice.
pub proof fn lemma_sorted_same_items(table: &FnTable, before: Seq<u64>, after: Seq<u64>)
    requires
        sorted_by_name(table, before, after),
    ensures
        after.len() == before.len(),
        forall|x: u64| #[trigger] after.contains(x) <==> before.contains(x),
        before.no_duplicates() ==> after.no_duplicates(),
        ascending(table, after),
{
    before.to_multiset_ensures();
    after.to_multiset_ensures();
    assert forall|x: u64| #[trigger] after.contains(x) <==> before.contains(x) by {
        assert(after.to_multiset().count(x) == before.to_multiset().count(x));
    }
    if before.no_duplicates() {
        before.lemma_multiset_has_no_duplicates();
        after.lemma_multiset_has_no_duplicates_conv();
    }
}

/// Bringing a map into canonical order changes neither its keys nor its
/// links.
pub proof fn lemma_canonical_of(table: &FnTable, before: Adjacency, after: Adjacency)
    requires
        canonical_of(table, before, after),
        distinct_keys(before),
        distinct_items(before),
    ensures
        after.len() == before.len(),
        distinct_keys(after),
        distinct_items(after),
        canonical(table, after),
        no_empty_rows(before) ==> no_empty_rows(after),
        forall|key: u64| #[trigger] has_key(after, key) <==> has_key(before, key),
        forall|key: u64, item: u64| #[trigger] links(after, key, item) <==> links(before, key, item),
        forall|i: int, item: u64|
            0 <= i < after.len() ==> ((#[trigger] after[i]).1.contains(item) <==> #[trigger] links(
                before,
                after[i].0,
                item,
            )),
{
    lemma_keys_of(before);
    lemma_keys_of(after);
    lemma_sorted_same_items(table, keys_of(before), keys_of(after));
    assert forall|i: int| 0 <= i < after.len() implies {
        &&& has_key(before, (#[trigger] after[i]).0)
        &&& after[i].1.no_duplicates()
        &&& after[i].1.len() == row(before, after[i].0).len()
        &&& ascending(table, after[i].1)
        &&& forall|item: u64|
            after[i].1.contains(item) <==> #[trigger] links(before, after[i].0, item)
    } by {
        let key = after[i].0;
        assert(keys_of(after)[i] == key);
        assert(keys_of(after).contains(key));
        let j = row_index(before, key);
        lemma_row_unique(before, j, key);
        lemma_sorted_same_items(table, row(before, key), after[i].1);
        assert(before[j].1.no_duplicates());
        assert forall|item: u64|
            after[i].1.contains(item) <==> #[trigger] links(before, key, item) by {
            crate::adjacency::lemma_links_row(before, key, item);
        }
    }
    assert forall|key: u64| #[trigger] has_key(after, key) <==> has_key(before, key) by {
        assert(keys_of(after).contains(key) <==> keys_of(before).contains(key));
    }
    assert forall|key: u64, item: u64| #[trigger]
        links(after, key, item) <==> links(before, key, item) by {
        if links(after, key, item) {
            let i = choose|i: int|
                0 <= i < after.len() && (#[trigger] after[i]).0 == key && after[i].1.contains(item);
            assert(links(before, after[i].0, item));
        }
        if links(before, key, item) {
            let j = choose|j: int|
                0 <= j < before.len() && (#[trigger] before[j]).0 == key && before[j].1.contains(item);
            assert(has_key(before, key));
            assert(keys_of(before).contains(key));
            assert(keys_of(after).contains(key));
            assert(has_key(after, key));
            let i = row_index(after, key);
            assert(links(before, after[i].0, item));
            assert(after[i].1.contains(item));
        }
    }
    if no_empty_rows(before) {
        assert forall|i: int| 0 <= i < after.len() implies (#[trigger] after[i]).1.len() > 0 by {
            let key = after[i].0;
            let j = row_index(before, key);
            lemma_row_unique(before, j, key);
            assert(before[j].1.len() > 0);
        }
    }
}

} // verus!
