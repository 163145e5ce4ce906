//! The order in which a depth-first search finds its walks, and what it has
//! found when it has tried some of the items of a row.

use crate::adjacency::{row, Adjacency};
use crate::fn_item::FnId;
use vstd::prelude::*;

verus! {

/// The walks that a list of paths holds.
pub open spec fn walks(paths: Seq<Vec<FnId>>) -> Seq<Seq<FnId>> {
    Seq::new(paths.len(), |i: int| paths[i]@)
}

/// `path` begins with `stem` and goes on after it.
pub open spec fn continues(stem: Seq<FnId>, path: Seq<FnId>) -> bool {
    stem.len() < path.len() && stem.is_prefix_of(path)
}

/// The two walks are the same up to place `d`, where `a` goes on with the
/// item at `i` of the row and `b` with the item at `j`.
pub open spec fn forks_at(adj: Adjacency, a: Seq<FnId>, b: Seq<FnId>, d: int, i: int, j: int) -> bool {
    &&& 0 < d < a.len()
    &&& d < b.len()
    &&& a.take(d) == b.take(d)
    &&& 0 <= i < row(adj, a[d - 1]).len()
    &&& 0 <= j < row(adj, a[d - 1]).len()
    &&& row(adj, a[d - 1])[i] == a[d]
    &&& row(adj, a[d - 1])[j] == b[d]
}

/// A search that tries the items of each row in their order finds `a`
/// before `b`: where the two part, `a` takes the earlier item.
pub open spec fn found_before(adj: Adjacency, a: Seq<FnId>, b: Seq<FnId>) -> bool {
    exists|d: int, i: int, j: int| #[trigger] forks_at(adj, a, b, d, i, j) && i < j
}

/// The walks are in the order of the search.
pub open spec fn in_search_order(adj: Adjacency, found: Seq<Seq<FnId>>) -> bool {
    forall|k: int, l: int|
        0 <= k < l < found.len() ==> found_before(adj, #[trigger] found[k], #[trigger] found[l])
}

/// `found` holds the walks of `valid` that begin with `stem`, in the order
/// of the search.
pub open spec fn explored(
    adj: Adjacency,
    valid: Set<Seq<FnId>>,
    stem: Seq<FnId>,
    found: Seq<Seq<FnId>>,
) -> bool {
    &&& forall|k: int|
        0 <= k < found.len() ==> valid.contains(#[trigger] found[k]) && stem.is_prefix_of(found[k])
    &&& forall|walk: Seq<FnId>| #[trigger]
        valid.contains(walk) && stem.is_prefix_of(walk) ==> found.contains(walk)
    &&& in_search_order(adj, found)
}

/// `found` holds the walks of `valid` that continue `stem` with an item of
/// `tried`, in the order of the search.
pub open spec fn searched(
    adj: Adjacency,
    valid: Set<Seq<FnId>>,
    stem: Seq<FnId>,
    tried: Seq<FnId>,
    found: Seq<Seq<FnId>>,
) -> bool {
    &&& forall|k: int|
        0 <= k < found.len() ==> valid.contains(#[trigger] found[k]) && continues(stem, found[k])
            && tried.contains(found[k][stem.len() as int])
    &&& forall|walk: Seq<FnId>| #[trigger]
        valid.contains(walk) && continues(stem, walk) && tried.contains(walk[stem.len() as int])
            ==> found.contains(walk)
    &&& in_search_order(adj, found)
}

/// Walks of which one is found before the other differ, where no row holds
/// an item twice.
pub proof fn lemma_found_before_differs(adj: Adjacency, a: Seq<FnId>, b: Seq<FnId>)
    requires
        found_before(adj, a, b),
        forall|key: FnId| #[trigger] row(adj, key).no_duplicates(),
    ensures
        a != b,
{
    let (d, i, j) = choose|d: int, i: int, j: int| #[trigger] forks_at(adj, a, b, d, i, j) && i < j;
    assert(row(adj, a[d - 1]).no_duplicates());
    assert(a[d] != b[d]);
}

/// Before any item is tried, nothing is found.
pub proof fn lemma_searched_none(adj: Adjacency, valid: Set<Seq<FnId>>, stem: Seq<FnId>)
    ensures
        searched(adj, valid, stem, Seq::<FnId>::empty(), Seq::<Seq<FnId>>::empty()),
{
}

/// Trying one item more adds what that item gives, behind what was found.
pub proof fn lemma_searched_more(
    adj: Adjacency,
    valid: Set<Seq<FnId>>,
    stem: Seq<FnId>,
    items: Seq<FnId>,
    j: int,
    found: Seq<Seq<FnId>>,
    more: Seq<Seq<FnId>>,
)
    requires
        stem.len() > 0,
        items == row(adj, stem.last()),
        0 <= j < items.len(),
        searched(adj, valid, stem, items.take(j), found),
        searched(adj, valid, stem, seq![items[j]], more),
    ensures
        searched(adj, valid, stem, items.take(j + 1), found + more),
{
    let at = stem.len() as int;
    let tried = items.take(j);
    let tried2 = items.take(j + 1);
    let one = seq![items[j]];
    let all = found + more;
    assert(tried2 =~= tried.push(items[j]));
    assert(tried2[j] == items[j]);
    assert forall|x: FnId| tried.contains(x) implies tried2.contains(x) by {
        let i = choose|i: int| 0 <= i < tried.len() && tried[i] == x;
        assert(tried2[i] == x);
    }
    assert forall|x: FnId| one.contains(x) implies x == items[j] by {
        let i = choose|i: int| 0 <= i < one.len() && one[i] == x;
    }
    assert(one[0] == items[j]);
    assert forall|k: int| 0 <= k < all.len() implies valid.contains(#[trigger] all[k]) && continues(
        stem,
        all[k],
    ) && tried2.contains(all[k][at]) by {
        if k < found.len() {
            assert(all[k] == found[k]);
        } else {
            assert(all[k] == more[k - found.len()]);
            assert(one.contains(more[k - found.len()][at]));
        }
    }
    assert forall|walk: Seq<FnId>| #[trigger]
        valid.contains(walk) && continues(stem, walk) && tried2.contains(
            walk[at],
        ) implies all.contains(walk) by {
        let i = choose|i: int| 0 <= i < tried2.len() && tried2[i] == walk[at];
        if i < j {
            assert(tried[i] == walk[at]);
            assert(found.contains(walk));
            let k = choose|k: int| 0 <= k < found.len() && found[k] == walk;
            assert(all[k] == walk);
        } else {
            assert(one.contains(walk[at]));
            assert(more.contains(walk));
            let k = choose|k: int| 0 <= k < more.len() && more[k] == walk;
            assert(all[found.len() + k] == walk);
        }
    }
    assert forall|k: int, l: int| 0 <= k < l < all.len() implies found_before(
        adj,
        #[trigger] all[k],
        #[trigger] all[l],
    ) by {
        if l < found.len() {
            assert(all[k] == found[k] && all[l] == found[l]);
        } else if k >= found.len() {
            assert(all[k] == more[k - found.len()] && all[l] == more[l - found.len()]);
        } else {
            let a = found[k];
            let b = more[l - found.len()];
            assert(all[k] == a && all[l] == b);
            let i = choose|i: int| 0 <= i < tried.len() && tried[i] == a[at];
            assert(items[i] == a[at]);
            assert(one.contains(b[at]));
            assert(a.take(at) == stem && b.take(at) == stem);
            assert(a.take(at)[at - 1] == a[at - 1]);
            assert(forks_at(adj, a, b, at, i, j));
        }
    }
}

/// What an item gives is what continues the stem that the item makes
/// longer.
pub proof fn lemma_branch_explored(
    adj: Adjacency,
    valid: Set<Seq<FnId>>,
    stem: Seq<FnId>,
    item: FnId,
    more: Seq<Seq<FnId>>,
)
    requires
        explored(adj, valid, stem.push(item), more),
    ensures
        searched(adj, valid, stem, seq![item], more),
{
    let at = stem.len() as int;
    let longer = stem.push(item);
    let one = seq![item];
    assert(one[0] == item);
    assert(longer.take(at) =~= stem);
    assert forall|k: int| 0 <= k < more.len() implies valid.contains(#[trigger] more[k]) && continues(
        stem,
        more[k],
    ) && one.contains(more[k][at]) by {
        let walk = more[k];
        assert(walk.take(at + 1) == longer);
        assert(walk.take(at) =~= walk.take(at + 1).take(at));
        assert(walk[at] == walk.take(at + 1)[at]);
    }
    assert forall|walk: Seq<FnId>| #[trigger]
        valid.contains(walk) && continues(stem, walk) && one.contains(walk[at]) implies more.contains(
        walk,
    ) by {
        let i = choose|i: int| 0 <= i < one.len() && one[i] == walk[at];
        assert(walk.take(at) == stem);
        assert forall|x: int| 0 <= x < at + 1 implies walk.take(at + 1)[x] == longer[x] by {
            if x < at {
                assert(walk.take(at)[x] == walk[x]);
            }
        }
        assert(walk.take(at + 1) =~= longer);
    }
}

/// An item that gives one walk.
pub proof fn lemma_branch_single(
    adj: Adjacency,
    valid: Set<Seq<FnId>>,
    stem: Seq<FnId>,
    item: FnId,
    whole: Seq<FnId>,
)
    requires
        valid.contains(whole),
        continues(stem, whole),
        whole[stem.len() as int] == item,
        forall|walk: Seq<FnId>| #[trigger]
            valid.contains(walk) && continues(stem, walk) && walk[stem.len() as int] == item ==> walk
                == whole,
    ensures
        searched(adj, valid, stem, seq![item], seq![whole]),
{
    let one = seq![item];
    let more = seq![whole];
    assert(one[0] == item);
    assert(more[0] == whole);
    assert forall|walk: Seq<FnId>| #[trigger]
        valid.contains(walk) && continues(stem, walk) && one.contains(
            walk[stem.len() as int],
        ) implies more.contains(walk) by {
        let i = choose|i: int| 0 <= i < one.len() && one[i] == walk[stem.len() as int];
    }
}

/// An item that gives no walk.
pub proof fn lemma_branch_empty(adj: Adjacency, valid: Set<Seq<FnId>>, stem: Seq<FnId>, item: FnId)
    requires
        forall|walk: Seq<FnId>| #[trigger]
            valid.contains(walk) && continues(stem, walk) ==> walk[stem.len() as int] != item,
    ensures
        searched(adj, valid, stem, seq![item], Seq::<Seq<FnId>>::empty()),
{
    let one = seq![item];
    assert forall|walk: Seq<FnId>| #[trigger]
        valid.contains(walk) && continues(stem, walk) && one.contains(
            walk[stem.len() as int],
        ) implies Seq::<Seq<FnId>>::empty().contains(walk) by {
        let i = choose|i: int| 0 <= i < one.len() && one[i] == walk[stem.len() as int];
    }
}

/// When all items of the row are tried, everything that begins with the
/// stem is found, where each such walk goes on with an item of the row.
pub proof fn lemma_searched_all(
    adj: Adjacency,
    valid: Set<Seq<FnId>>,
    stem: Seq<FnId>,
    items: Seq<FnId>,
    found: Seq<Seq<FnId>>,
)
    requires
        searched(adj, valid, stem, items, found),
        forall|walk: Seq<FnId>| #[trigger]
            valid.contains(walk) && stem.is_prefix_of(walk) ==> continues(stem, walk)
                && items.contains(walk[stem.len() as int]),
    ensures
        explored(adj, valid, stem, found),
{
}

/// The walks behind the first `n` of a list that has grown at its end.
pub proof fn lemma_walks_grown(before: Seq<Vec<FnId>>, after: Seq<Vec<FnId>>, n: int)
    requires
        0 <= n <= before.len(),
        before.is_prefix_of(after),
    ensures
        walks(after).skip(n) == walks(before).skip(n) + walks(after).skip(before.len() as int),
{
    assert forall|i: int| 0 <= i < before.len() implies after[i] == before[i] by {
        assert(after.take(before.len() as int)[i] == after[i]);
    }
    assert(walks(after).skip(n) =~= walks(before).skip(n) + walks(after).skip(before.len() as int));
}

} // verus!
