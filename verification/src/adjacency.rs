//! The model of an adjacency map: a sequence of rows, each a node with the
//! nodes it is linked to, in the order in which the rows were entered.

use crate::indexed::{has_key, keys_of};
use crate::seqs::push_new;
use vstd::prelude::*;

verus! {

/// The rows of an adjacency map, in order: each a key with its items.
pub type Adjacency = Seq<(u64, Seq<u64>)>;

/// Some row of `key` holds `item`.
pub open spec fn links(adj: Adjacency, key: u64, item: u64) -> bool {
    exists|i: int| 0 <= i < adj.len() && (#[trigger] adj[i]).0 == key && adj[i].1.contains(item)
}

/// No two rows have the same key.
pub open spec fn distinct_keys(adj: Adjacency) -> bool {
    forall|i: int, j: int| 0 <= i < j < adj.len() ==> (#[trigger] adj[i]).0 != (#[trigger] adj[j]).0
}

/// No row holds an item twice.
pub open spec fn distinct_items(adj: Adjacency) -> bool {
    forall|i: int| 0 <= i < adj.len() ==> (#[trigger] adj[i]).1.no_duplicates()
}

/// Every row holds an item.
pub open spec fn no_empty_rows(adj: Adjacency) -> bool {
    forall|i: int| 0 <= i < adj.len() ==> (#[trigger] adj[i]).1.len() > 0
}

/// The place of the row of `key`.
pub open spec fn row_index(adj: Adjacency, key: u64) -> int {
    choose|i: int| 0 <= i < adj.len() && (#[trigger] adj[i]).0 == key
}

/// The items of the row of `key`; none where there is no such row.
pub open spec fn row(adj: Adjacency, key: u64) -> Seq<u64> {
    if has_key(adj, key) {
        adj[row_index(adj, key)].1
    } else {
        Seq::empty()
    }
}

/// `adj` with `item` entered under `key`: at the end of the row of `key`
/// unless the row has it, or as a new last row.
pub open spec fn with_link(adj: Adjacency, key: u64, item: u64) -> Adjacency {
    if has_key(adj, key) {
        let i = row_index(adj, key);
        adj.update(i, (key, push_new(adj[i].1, item)))
    } else {
        adj.push((key, seq![item]))
    }
}

/// The rows of `before` are still there, at their places, and each has
/// grown at its end at most.
pub open spec fn grows_to(before: Adjacency, after: Adjacency) -> bool {
    &&& before.len() <= after.len()
    &&& forall|i: int|
        0 <= i < before.len() ==> (#[trigger] after[i]).0 == before[i].0 && before[i].1.is_prefix_of(
            after[i].1,
        )
}

/// What has grown twice has grown.
pub proof fn lemma_grows_to_transitive(a: Adjacency, b: Adjacency, c: Adjacency)
    requires
        grows_to(a, b),
        grows_to(b, c),
    ensures
        grows_to(a, c),
{
    assert forall|i: int| 0 <= i < a.len() implies (#[trigger] c[i]).0 == a[i].0 && a[i].1.is_prefix_of(
        c[i].1,
    ) by {
        assert(b[i].0 == a[i].0 && a[i].1.is_prefix_of(b[i].1));
        assert(c[i].0 == b[i].0 && b[i].1.is_prefix_of(c[i].1));
        assert(c[i].1.take(a[i].1.len() as int) =~= b[i].1.take(a[i].1.len() as int));
    }
}

/// A map has grown to itself.
pub proof fn lemma_grows_to_itself(a: Adjacency)
    ensures
        grows_to(a, a),
{
    assert forall|i: int| 0 <= i < a.len() implies (#[trigger] a[i]).0 == a[i].0 && a[i].1.is_prefix_of(
        a[i].1,
    ) by {
        assert(a[i].1.take(a[i].1.len() as int) =~= a[i].1);
    }
}

/// A new last row adds its links and no others.
pub proof fn lemma_push_row(adj: Adjacency, key: u64, items: Seq<u64>)
    requires
        distinct_keys(adj),
        distinct_items(adj),
        !has_key(adj, key),
        items.no_duplicates(),
    ensures
        distinct_keys(adj.push((key, items))),
        distinct_items(adj.push((key, items))),
        forall|a: u64, b: u64| #[trigger]
            links(adj.push((key, items)), a, b) <==> links(adj, a, b) || (a == key && items.contains(b)),
        forall|a: u64| #[trigger]
            has_key(adj.push((key, items)), a) <==> has_key(adj, a) || a == key,
{
    let next = adj.push((key, items));
    let n = adj.len() as int;
    assert forall|p: int, q: int| 0 <= p < q < next.len() implies (#[trigger] next[p]).0 != (
    #[trigger] next[q]).0 by {
        if q < n {
            assert(adj[p].0 != adj[q].0);
        } else {
            assert(adj[p].0 != key);
        }
    }
    assert forall|p: int| 0 <= p < next.len() implies (#[trigger] next[p]).1.no_duplicates() by {
        if p < n {
            assert(adj[p].1.no_duplicates());
        }
    }
    assert forall|a: u64, b: u64| links(next, a, b) <==> links(adj, a, b) || (a == key
        && items.contains(b)) by {
        if links(next, a, b) {
            let p = choose|p: int|
                0 <= p < next.len() && (#[trigger] next[p]).0 == a && next[p].1.contains(b);
            if p < n {
                assert(adj[p].0 == a && adj[p].1.contains(b));
            }
        }
        if links(adj, a, b) {
            let p = choose|p: int|
                0 <= p < adj.len() && (#[trigger] adj[p]).0 == a && adj[p].1.contains(b);
            assert(next[p].0 == a && next[p].1.contains(b));
        }
        if a == key && items.contains(b) {
            assert(next[n].0 == a && next[n].1.contains(b));
        }
    }
    assert forall|a: u64| has_key(next, a) <==> has_key(adj, a) || a == key by {
        if has_key(next, a) {
            let p = choose|p: int| 0 <= p < next.len() && (#[trigger] next[p]).0 == a;
            if p < n {
                assert(adj[p].0 == a);
            }
        }
        if has_key(adj, a) {
            let p = row_index(adj, a);
            assert(next[p].0 == a);
        }
        if a == key {
            assert(next[n].0 == a);
        }
    }
}

/// Rows that stay in front keep their keys.
pub proof fn lemma_prefix_keeps_keys(before: Adjacency, after: Adjacency, key: u64)
    requires
        before.is_prefix_of(after),
        has_key(before, key),
    ensures
        has_key(after, key),
{
    let i = row_index(before, key);
    assert(after[i] == before[i]);
}

/// Where keys are distinct, a row with the key is the row of the key.
pub proof fn lemma_row_unique(adj: Adjacency, i: int, key: u64)
    requires
        distinct_keys(adj),
        0 <= i < adj.len(),
        adj[i].0 == key,
    ensures
        has_key(adj, key),
        row_index(adj, key) == i,
        row(adj, key) == adj[i].1,
{
    let j = row_index(adj, key);
    assert(0 <= j < adj.len() && adj[j].0 == key);
    if i < j {
        assert(adj[i].0 != adj[j].0);
    }
    if j < i {
        assert(adj[j].0 != adj[i].0);
    }
}

/// Where keys are distinct, the links of a key are the items of its row.
pub proof fn lemma_links_row(adj: Adjacency, key: u64, item: u64)
    requires
        distinct_keys(adj),
    ensures
        links(adj, key, item) <==> row(adj, key).contains(item),
{
    if links(adj, key, item) {
        let i = choose|i: int|
            0 <= i < adj.len() && (#[trigger] adj[i]).0 == key && adj[i].1.contains(item);
        lemma_row_unique(adj, i, key);
    }
    if row(adj, key).contains(item) {
        assert(has_key(adj, key));
        let i = row_index(adj, key);
        assert(adj[i].0 == key && adj[i].1.contains(item));
    }
}

/// The keys of a map are the keys of its rows, in their order.
pub proof fn lemma_keys_of(adj: Adjacency)
    ensures
        keys_of(adj).len() == adj.len(),
        forall|i: int| 0 <= i < adj.len() ==> (#[trigger] keys_of(adj)[i]) == adj[i].0,
        forall|key: u64| keys_of(adj).contains(key) <==> has_key(adj, key),
        distinct_keys(adj) <==> keys_of(adj).no_duplicates(),
{
    let keys = keys_of(adj);
    assert forall|key: u64| keys.contains(key) <==> has_key(adj, key) by {
        if keys.contains(key) {
            let i = choose|i: int| 0 <= i < keys.len() && keys[i] == key;
            assert(adj[i].0 == key);
        }
        if has_key(adj, key) {
            let i = row_index(adj, key);
            assert(keys[i] == key);
        }
    }
    if distinct_keys(adj) {
        assert forall|i: int, j: int| 0 <= i < keys.len() && 0 <= j < keys.len() && i != j implies keys[i]
            != keys[j] by {
            if i < j {
                assert(adj[i].0 != adj[j].0);
            } else {
                assert(adj[j].0 != adj[i].0);
            }
        }
    }
    if keys.no_duplicates() {
        assert forall|i: int, j: int| 0 <= i < j < adj.len() implies (#[trigger] adj[i]).0 != (
        #[trigger] adj[j]).0 by {
            assert(keys[i] != keys[j]);
        }
    }
}

/// What entering a link does: the links of before and the new one, rows
/// kept in place, keys and items still distinct.
pub proof fn lemma_with_link(adj: Adjacency, key: u64, item: u64)
    requires
        distinct_keys(adj),
        distinct_items(adj),
    ensures
        distinct_keys(with_link(adj, key, item)),
        distinct_items(with_link(adj, key, item)),
        grows_to(adj, with_link(adj, key, item)),
        forall|a: u64, b: u64| #[trigger]
            links(with_link(adj, key, item), a, b) <==> links(adj, a, b) || (a == key && b == item),
        forall|a: u64| #[trigger]
            has_key(with_link(adj, key, item), a) <==> has_key(adj, a) || a == key,
        no_empty_rows(adj) ==> no_empty_rows(with_link(adj, key, item)),
{
    let next = with_link(adj, key, item);
    if has_key(adj, key) {
        let i = row_index(adj, key);
        let grown = push_new(adj[i].1, item);
        crate::seqs::lemma_push_new_no_duplicates(adj[i].1, item);
        assert forall|p: int, q: int| 0 <= p < q < next.len() implies (#[trigger] next[p]).0 != (
        #[trigger] next[q]).0 by {
            assert(adj[p].0 != adj[q].0);
        }
        assert forall|p: int| 0 <= p < next.len() implies (#[trigger] next[p]).1.no_duplicates() by {
            if p != i {
                assert(adj[p].1.no_duplicates());
            }
        }
        assert forall|p: int| 0 <= p < adj.len() implies (#[trigger] next[p]).0 == adj[p].0
            && adj[p].1.is_prefix_of(next[p].1) by {
            if p == i {
                if !adj[i].1.contains(item) {
                    assert(grown.take(adj[i].1.len() as int) =~= adj[i].1);
                }
            }
        }
        assert forall|a: u64, b: u64| links(next, a, b) <==> links(adj, a, b) || (a == key && b
            == item) by {
            if links(next, a, b) {
                let p = choose|p: int|
                    0 <= p < next.len() && (#[trigger] next[p]).0 == a && next[p].1.contains(b);
                if p == i {
                    if b != item {
                        assert(adj[i].0 == a && adj[i].1.contains(b));
                    }
                } else {
                    assert(adj[p].0 == a && adj[p].1.contains(b));
                }
            }
            if links(adj, a, b) {
                let p = choose|p: int|
                    0 <= p < adj.len() && (#[trigger] adj[p]).0 == a && adj[p].1.contains(b);
                assert(next[p].0 == a && next[p].1.contains(b));
            }
            if a == key && b == item {
                assert(next[i].0 == a && next[i].1.contains(b));
            }
        }
        assert forall|a: u64| has_key(next, a) <==> has_key(adj, a) || a == key by {
            if has_key(next, a) {
                let p = choose|p: int| 0 <= p < next.len() && (#[trigger] next[p]).0 == a;
                assert(adj[p].0 == a);
            }
            if has_key(adj, a) {
                let p = row_index(adj, a);
                assert(next[p].0 == a);
            }
        }
        if no_empty_rows(adj) {
            assert forall|p: int| 0 <= p < next.len() implies (#[trigger] next[p]).1.len() > 0 by {
                if p == i {
                    assert(next[i].1.contains(item));
                } else {
                    assert(adj[p].1.len() > 0);
                }
            }
        }
    } else {
        let n = adj.len() as int;
        assert(seq![item][0] == item);
        assert forall|p: int, q: int| 0 <= p < q < next.len() implies (#[trigger] next[p]).0 != (
        #[trigger] next[q]).0 by {
            if q < n {
                assert(adj[p].0 != adj[q].0);
            } else {
                assert(adj[p].0 != key);
            }
        }
        assert forall|p: int| 0 <= p < next.len() implies (#[trigger] next[p]).1.no_duplicates() by {
            if p < n {
                assert(adj[p].1.no_duplicates());
            }
        }
        assert forall|p: int| 0 <= p < adj.len() implies (#[trigger] next[p]).0 == adj[p].0
            && adj[p].1.is_prefix_of(next[p].1) by {
            assert(adj[p].1.take(adj[p].1.len() as int) =~= adj[p].1);
        }
        assert forall|a: u64, b: u64| links(next, a, b) <==> links(adj, a, b) || (a == key && b
            == item) by {
            if links(next, a, b) {
                let p = choose|p: int|
                    0 <= p < next.len() && (#[trigger] next[p]).0 == a && next[p].1.contains(b);
                if p < n {
                    assert(adj[p].0 == a && adj[p].1.contains(b));
                }
            }
            if links(adj, a, b) {
                let p = choose|p: int|
                    0 <= p < adj.len() && (#[trigger] adj[p]).0 == a && adj[p].1.contains(b);
                assert(next[p].0 == a && next[p].1.contains(b));
            }
            if a == key && b == item {
                assert(next[n].0 == a && next[n].1.contains(b));
            }
        }
        assert forall|a: u64| has_key(next, a) <==> has_key(adj, a) || a == key by {
            if has_key(next, a) {
                let p = choose|p: int| 0 <= p < next.len() && (#[trigger] next[p]).0 == a;
                if p < n {
                    assert(adj[p].0 == a);
                }
            }
            if has_key(adj, a) {
                let p = row_index(adj, a);
                assert(next[p].0 == a);
            }
            if a == key {
                assert(next[n].0 == a);
            }
        }
        if no_empty_rows(adj) {
            assert forall|p: int| 0 <= p < next.len() implies (#[trigger] next[p]).1.len() > 0 by {
                if p < n {
                    assert(adj[p].1.len() > 0);
                }
            }
        }
    }
}

/// Distinct numbers below a bound are no more than the bound.
pub proof fn lemma_distinct_below(s: Seq<u64>, bound: nat)
    requires
        s.no_duplicates(),
        forall|i: int| 0 <= i < s.len() ==> (#[trigger] s[i]) < bound,
    ensures
        s.len() <= bound,
    decreases bound,
{
    if bound == 0 {
        if s.len() > 0 {
            assert(s[0] < bound);
        }
    } else {
        let top = (bound - 1) as u64;
        if s.contains(top) {
            let i = choose|i: int| 0 <= i < s.len() && s[i] == top;
            let rest = s.remove(i);
            assert forall|p: int, q: int| 0 <= p < rest.len() && 0 <= q < rest.len() && p != q implies rest[p]
                != rest[q] by {
                let pp = if p < i { p } else { p + 1 };
                let qq = if q < i { q } else { q + 1 };
                assert(rest[p] == s[pp] && rest[q] == s[qq]);
            }
            assert forall|p: int| 0 <= p < rest.len() implies (#[trigger] rest[p]) < (bound - 1) as nat by {
                let pp = if p < i { p } else { p + 1 };
                assert(rest[p] == s[pp]);
                assert(s[pp] != s[i]);
            }
            lemma_distinct_below(rest, (bound - 1) as nat);
        } else {
            assert forall|p: int| 0 <= p < s.len() implies (#[trigger] s[p]) < (bound - 1) as nat by {
                assert(s.contains(s[p]));
            }
            lemma_distinct_below(s, (bound - 1) as nat);
        }
    }
}

} // verus!
