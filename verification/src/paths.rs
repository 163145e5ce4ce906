//! Queries over a call graph: reachability and the enumeration of call
//! paths, forwards and backwards. Each query keeps track of where it has
//! been, so a cyclic graph is walked in bounded time.

use crate::adjacency::{lemma_distinct_below, lemma_links_row, row, Adjacency};
use crate::call_graph::{CallGraph, GraphView};
use crate::fn_item::FnId;
use crate::indexed::{has_key, set_get_index, set_insert, set_items, set_len, set_new};
use crate::search::{
    continues, explored, found_before, lemma_branch_empty, lemma_branch_explored,
    lemma_branch_single, lemma_found_before_differs, lemma_searched_all, lemma_searched_more,
    lemma_searched_none, lemma_walks_grown, searched, walks,
};
use vstd::prelude::*;

verus! {

impl GraphView {
    /// Each function of `walk` is recorded as calling the next one.
    pub open spec fn is_walk(self, walk: Seq<FnId>) -> bool {
        &&& walk.len() > 0
        &&& forall|i: int| 0 <= i < walk.len() - 1 ==> self.calls(#[trigger] walk[i], walk[i + 1])
    }

    /// `stop` can be reached from `start` by one recorded call or more.
    pub open spec fn connects(self, start: FnId, stop: FnId) -> bool {
        exists|walk: Seq<FnId>| #[trigger]
            self.is_walk(walk) && walk.len() >= 2 && walk[0] == start && walk.last() == stop
    }

    /// `path` is a call path from `start` to `stop`: a walk between the two
    /// that passes through `stop` nowhere before its end and comes back to
    /// no function that it has left.
    pub open spec fn is_call_path(self, start: FnId, stop: FnId, path: Seq<FnId>) -> bool {
        &&& path.len() >= 2
        &&& path[0] == start
        &&& path.last() == stop
        &&& self.is_walk(path)
        &&& forall|i: int| 0 < i < path.len() - 1 ==> #[trigger] path[i] != stop
        &&& path.drop_last().no_duplicates()
    }

    /// `stem` can be the beginning of a call path to `stop`.
    pub open spec fn is_stem(self, stop: FnId, stem: Seq<FnId>) -> bool {
        &&& self.is_walk(stem)
        &&& forall|i: int| 0 < i < stem.len() ==> #[trigger] stem[i] != stop
        &&& stem.no_duplicates()
    }

    /// Each function of `stem` is recorded as called by the next one, and
    /// none occurs twice.
    pub open spec fn is_back_stem(self, stem: Seq<FnId>) -> bool {
        &&& stem.len() > 0
        &&& forall|i: int|
            0 <= i < stem.len() - 1 ==> self.called_by(#[trigger] stem[i], stem[i + 1])
        &&& stem.no_duplicates()
    }

    /// `path` leads from `sink` back to a root, a function without a
    /// recorded caller: it names `sink` first, then a caller of each
    /// function named, and no function twice.
    pub open spec fn is_back_path(self, sink: FnId, path: Seq<FnId>) -> bool {
        &&& self.is_back_stem(path)
        &&& path[0] == sink
        &&& !has_key(self.backward, path.last())
    }

    /// The call paths from `start` to `stop`.
    pub open spec fn call_paths(self, start: FnId, stop: FnId) -> Set<Seq<FnId>> {
        Set::new(|path: Seq<FnId>| self.is_call_path(start, stop, path))
    }

    /// The paths from `sink` back to a root.
    pub open spec fn back_paths(self, sink: FnId) -> Set<Seq<FnId>> {
        Set::new(|path: Seq<FnId>| self.is_back_path(sink, path))
    }

    /// A recorded call connects the caller to the callee.
    pub proof fn lemma_connects_by_call(self, caller: FnId, callee: FnId)
        requires
            self.calls(caller, callee),
        ensures
            self.connects(caller, callee),
    {
        let walk = seq![caller, callee];
        assert(self.is_walk(walk) && walk.len() >= 2 && walk[0] == caller && walk.last() == callee);
    }

    /// What is connected to a caller is connected to its callee.
    pub proof fn lemma_connects_one_more(self, start: FnId, via: FnId, stop: FnId)
        requires
            self.connects(start, via),
            self.calls(via, stop),
        ensures
            self.connects(start, stop),
    {
        let walk = choose|walk: Seq<FnId>| #[trigger]
            self.is_walk(walk) && walk.len() >= 2 && walk[0] == start && walk.last() == via;
        let longer = walk.push(stop);
        assert forall|i: int| 0 <= i < longer.len() - 1 implies self.calls(
            #[trigger] longer[i],
            longer[i + 1],
        ) by {
            if i < walk.len() - 1 {
                assert(self.calls(walk[i], walk[i + 1]));
            }
        }
        assert(self.is_walk(longer) && longer.len() >= 2 && longer[0] == start && longer.last()
            == stop);
    }

    /// A set of functions that holds the callees of `start` and, with each
    /// function, its callees, holds every function of a walk from `start`
    /// but perhaps the first.
    proof fn lemma_walk_stays_in(self, seen: Seq<FnId>, start: FnId, walk: Seq<FnId>, upto: int)
        requires
            self.is_walk(walk),
            walk[0] == start,
            1 <= upto < walk.len(),
            forall|v: FnId, c: FnId|
                (v == start || seen.contains(v)) && #[trigger] self.calls(v, c) ==> seen.contains(c),
        ensures
            seen.contains(walk[upto]),
        decreases upto,
    {
        if upto > 1 {
            self.lemma_walk_stays_in(seen, start, walk, upto - 1);
        }
        assert(self.calls(walk[upto - 1], walk[upto - 1 + 1]));
    }
}

/// Whether `node` is on `path`.
fn on_path(path: &Vec<FnId>, node: FnId) -> (found: bool)
    ensures
        found == path@.contains(node),
{
    let mut i: usize = 0;
    while i < path.len()
        invariant
            i <= path@.len(),
            forall|j: int| 0 <= j < i ==> path@[j] != node,
        decreases path@.len() - i,
    {
        if path[i] == node {
            return true;
        }
        i = i + 1;
    }
    false
}

/// A copy of `path`.
fn copy_of(path: &Vec<FnId>) -> (copy: Vec<FnId>)
    ensures
        copy@ == path@,
{
    let mut copy: Vec<FnId> = Vec::new();
    let mut i: usize = 0;
    while i < path.len()
        invariant
            i <= path@.len(),
            copy@ == path@.take(i as int),
        decreases path@.len() - i,
    {
        copy.push(path[i]);
        proof {
            assert(path@.take(i + 1) =~= path@.take(i as int).push(path@[i as int]));
        }
        i = i + 1;
    }
    proof {
        assert(path@.take(i as int) =~= path@);
    }
    copy
}

/// A copy of `path` with `node` at its end.
fn path_with(path: &Vec<FnId>, node: FnId) -> (longer: Vec<FnId>)
    ensures
        longer@ == path@.push(node),
{
    let mut longer = copy_of(path);
    longer.push(node);
    longer
}

/// A backward stem by one function longer.
proof fn lemma_longer_back_stem(view: GraphView, stem: Seq<FnId>, next: FnId)
    requires
        view.is_back_stem(stem),
        view.called_by(stem.last(), next),
        !stem.contains(next),
    ensures
        view.is_back_stem(stem.push(next)),
{
    let longer = stem.push(next);
    assert forall|i: int| 0 <= i < longer.len() - 1 implies view.called_by(
        #[trigger] longer[i],
        longer[i + 1],
    ) by {
        if i < stem.len() - 1 {
            assert(view.called_by(stem[i], stem[i + 1]));
        }
    }
    assert forall|i: int, j: int| 0 <= i < longer.len() && 0 <= j < longer.len() && i != j implies longer[i]
        != longer[j] by {
        if i < stem.len() && j < stem.len() {
            assert(stem[i] != stem[j]);
        } else if i < stem.len() {
            assert(stem.contains(stem[i]));
        } else {
            assert(stem.contains(stem[j]));
        }
    }
}

/// A stem by one function longer.
proof fn lemma_longer_stem(view: GraphView, stop: FnId, stem: Seq<FnId>, next: FnId)
    requires
        view.is_stem(stop, stem),
        view.calls(stem.last(), next),
        next != stop,
        !stem.contains(next),
    ensures
        view.is_stem(stop, stem.push(next)),
{
    let longer = stem.push(next);
    assert forall|i: int| 0 <= i < longer.len() - 1 implies view.calls(
        #[trigger] longer[i],
        longer[i + 1],
    ) by {
        if i < stem.len() - 1 {
            assert(view.calls(stem[i], stem[i + 1]));
        }
    }
    assert forall|i: int, j: int| 0 <= i < longer.len() && 0 <= j < longer.len() && i != j implies longer[i]
        != longer[j] by {
        if i < stem.len() && j < stem.len() {
            assert(stem[i] != stem[j]);
        } else if i < stem.len() {
            assert(stem.contains(stem[i]));
        } else {
            assert(stem.contains(stem[j]));
        }
    }
}

/// The one call path that continues a stem with the end itself is the
/// stem with the end.
proof fn lemma_only_the_call(view: GraphView, first: FnId, stop: FnId, stem: Seq<FnId>)
    requires
        stem.len() > 0,
        stem[0] == first,
        view.is_stem(stop, stem),
        view.calls(stem.last(), stop),
    ensures
        view.call_paths(first, stop).contains(stem.push(stop)),
        continues(stem, stem.push(stop)),
        stem.push(stop)[stem.len() as int] == stop,
        forall|walk: Seq<FnId>| #[trigger]
            view.call_paths(first, stop).contains(walk) && continues(stem, walk) && walk[stem.len() as int]
                == stop ==> walk == stem.push(stop),
{
    let at = stem.len() as int;
    let longer = stem.push(stop);
    assert(longer.drop_last() =~= stem);
    assert(longer.take(at) =~= stem);
    assert forall|i: int| 0 <= i < longer.len() - 1 implies view.calls(
        #[trigger] longer[i],
        longer[i + 1],
    ) by {
        if i < stem.len() - 1 {
            assert(view.calls(stem[i], stem[i + 1]));
        }
    }
    assert forall|i: int| 0 < i < longer.len() - 1 implies #[trigger] longer[i] != stop by {
        assert(stem[i] != stop);
    }
    assert(view.is_call_path(first, stop, longer));
    assert forall|walk: Seq<FnId>| #[trigger]
        view.call_paths(first, stop).contains(walk) && continues(stem, walk) && walk[at]
            == stop implies walk == longer by {
        if walk.len() > at + 1 {
            assert(walk[at] != stop);
        }
        assert(walk.take(at) == stem);
        assert forall|i: int| 0 <= i < walk.len() implies walk[i] == longer[i] by {
            if i < at {
                assert(walk.take(at)[i] == walk[i]);
            }
        }
        assert(walk =~= longer);
    }
}

/// No call path goes on into a function that is on it and is not its end.
proof fn lemma_no_way_back(view: GraphView, first: FnId, stop: FnId, stem: Seq<FnId>, callee: FnId)
    requires
        stem.contains(callee),
        callee != stop,
    ensures
        forall|walk: Seq<FnId>| #[trigger]
            view.call_paths(first, stop).contains(walk) && continues(stem, walk) ==> walk[stem.len() as int]
                != callee,
{
    let at = stem.len() as int;
    assert forall|walk: Seq<FnId>| #[trigger]
        view.call_paths(first, stop).contains(walk) && continues(stem, walk) implies walk[at]
        != callee by {
        if walk[at] == callee {
            assert(walk.take(at) == stem);
            let i = choose|i: int| 0 <= i < stem.len() && stem[i] == callee;
            assert(walk.take(at)[i] == walk[i]);
            let front = walk.drop_last();
            assert(front[i] == walk[i]);
            assert(front[at] == walk[at]);
        }
    }
}

/// No path back goes on into a function that is on it.
proof fn lemma_no_way_round(view: GraphView, first: FnId, stem: Seq<FnId>, caller: FnId)
    requires
        stem.contains(caller),
    ensures
        forall|walk: Seq<FnId>| #[trigger]
            view.back_paths(first).contains(walk) && continues(stem, walk) ==> walk[stem.len() as int]
                != caller,
{
    let at = stem.len() as int;
    assert forall|walk: Seq<FnId>| #[trigger]
        view.back_paths(first).contains(walk) && continues(stem, walk) implies walk[at] != caller by {
        if walk[at] == caller {
            assert(walk.take(at) == stem);
            let i = choose|i: int| 0 <= i < stem.len() && stem[i] == caller;
            assert(walk.take(at)[i] == walk[i]);
        }
    }
}

/// A stem is no longer than the table, but for its first function.
proof fn lemma_stem_bounded(stem: Seq<FnId>, bound: nat)
    requires
        stem.no_duplicates(),
        forall|i: int| 0 < i < stem.len() ==> (#[trigger] stem[i]) < bound,
    ensures
        stem.len() <= bound + 1,
{
    if stem.len() > 0 {
        let tail = stem.subrange(1, stem.len() as int);
        assert forall|i: int, j: int| 0 <= i < tail.len() && 0 <= j < tail.len() && i != j implies tail[i]
            != tail[j] by {
            assert(tail[i] == stem[i + 1] && tail[j] == stem[j + 1]);
        }
        assert forall|i: int| 0 <= i < tail.len() implies (#[trigger] tail[i]) < bound by {
            assert(tail[i] == stem[i + 1]);
        }
        lemma_distinct_below(tail, bound);
    }
}

/// A list of paths that has grown at its end twice has grown at its end.
proof fn lemma_prefix_twice(a: Seq<Vec<FnId>>, b: Seq<Vec<FnId>>, c: Seq<Vec<FnId>>)
    requires
        a.is_prefix_of(b),
        b.is_prefix_of(c),
    ensures
        a.is_prefix_of(c),
{
    assert(c.take(a.len() as int) =~= b.take(a.len() as int));
}

/// What a finished search says of the list of paths, in plain words: the
/// paths are those of `valid` that begin with `stem`, each once, in the
/// order of the search.
proof fn lemma_explored_plain(
    adj: Adjacency,
    valid: Set<Seq<FnId>>,
    stem: Seq<FnId>,
    paths: Seq<Vec<FnId>>,
)
    requires
        explored(adj, valid, stem, walks(paths)),
        forall|key: FnId| #[trigger] row(adj, key).no_duplicates(),
    ensures
        forall|k: int| 0 <= k < paths.len() ==> valid.contains((#[trigger] paths[k])@),
        forall|walk: Seq<FnId>| #[trigger]
            valid.contains(walk) && stem.is_prefix_of(walk) ==> exists|k: int|
                0 <= k < paths.len() && (#[trigger] paths[k])@ == walk,
        forall|k: int, l: int|
            0 <= k < l < paths.len() ==> (#[trigger] paths[k])@ != (#[trigger] paths[l])@,
        forall|k: int, l: int|
            0 <= k < l < paths.len() ==> found_before(adj, (#[trigger] paths[k])@, (#[trigger] paths[l])@),
{
    let found = walks(paths);
    assert forall|k: int| 0 <= k < paths.len() implies valid.contains((#[trigger] paths[k])@) by {
        assert(found[k] == paths[k]@);
    }
    assert forall|walk: Seq<FnId>| #[trigger]
        valid.contains(walk) && stem.is_prefix_of(walk) implies exists|k: int|
        0 <= k < paths.len() && (#[trigger] paths[k])@ == walk by {
        assert(found.contains(walk));
        let k = choose|k: int| 0 <= k < found.len() && found[k] == walk;
        assert(paths[k]@ == walk);
    }
    assert forall|k: int, l: int| 0 <= k < l < paths.len() implies found_before(
        adj,
        (#[trigger] paths[k])@,
        (#[trigger] paths[l])@,
    ) && paths[k]@ != paths[l]@ by {
        assert(found_before(adj, found[k], found[l]));
        lemma_found_before_differs(adj, found[k], found[l]);
    }
}

/// No row of a map whose rows hold each item once holds an item twice.
proof fn lemma_rows_distinct(adj: Adjacency)
    requires
        crate::adjacency::distinct_items(adj),
    ensures
        forall|key: FnId| #[trigger] row(adj, key).no_duplicates(),
{
    assert forall|key: FnId| #[trigger] row(adj, key).no_duplicates() by {
        if has_key(adj, key) {
            let i = crate::adjacency::row_index(adj, key);
            assert(adj[i].1.no_duplicates());
        }
    }
}

impl CallGraph {
    /// Every call path from `start` to `stop`, each once, in the order in
    /// which a depth-first search finds them. A walk ends where it meets
    /// `stop`, and does not go on into a function that is on it already.
    pub fn call_path(&self, start: FnId, stop: FnId) -> (paths: Vec<Vec<FnId>>)
        requires
            self.wf(),
        ensures
            forall|k: int|
                0 <= k < paths@.len() ==> self@.is_call_path(start, stop, (#[trigger] paths@[k])@),
            forall|path: Seq<FnId>| #[trigger]
                self@.is_call_path(start, stop, path) ==> exists|k: int|
                    0 <= k < paths@.len() && (#[trigger] paths@[k])@ == path,
            forall|k: int, l: int|
                0 <= k < l < paths@.len() ==> (#[trigger] paths@[k])@ != (#[trigger] paths@[l])@,
            forall|k: int, l: int|
                0 <= k < l < paths@.len() ==> found_before(
                    self@.forward,
                    (#[trigger] paths@[k])@,
                    (#[trigger] paths@[l])@,
                ),
    {
        let mut path: Vec<FnId> = Vec::new();
        let mut v_path: Vec<Vec<FnId>> = Vec::new();
        path.push(start);
        proof {
            assert(path@ =~= seq![start]);
            assert(path@[0] == start);
        }
        self.add_call_path(stop, &mut path, &mut v_path);
        proof {
            let valid = self@.call_paths(start, stop);
            assert(walks(v_path@).skip(0) =~= walks(v_path@));
            lemma_rows_distinct(self@.forward);
            lemma_explored_plain(self@.forward, valid, seq![start], v_path@);
            assert forall|found: Seq<FnId>| #[trigger]
                self@.is_call_path(start, stop, found) implies exists|k: int|
                0 <= k < v_path@.len() && (#[trigger] v_path@[k])@ == found by {
                assert(found.take(1) =~= seq![start]);
                assert(valid.contains(found) && seq![start].is_prefix_of(found));
            }
            assert forall|k: int| 0 <= k < v_path@.len() implies self@.is_call_path(
                start,
                stop,
                (#[trigger] v_path@[k])@,
            ) by {
                assert(valid.contains(v_path@[k]@));
            }
        }
        v_path
    }

    /// Adds to `v_path` every call path to `stop` that begins with `path`.
    fn add_call_path(&self, stop: FnId, path: &mut Vec<FnId>, v_path: &mut Vec<Vec<FnId>>)
        requires
            self.inv(),
            old(path)@.len() > 0,
            self@.is_stem(stop, old(path)@),
            forall|i: int| 0 < i < old(path)@.len() ==> self.table().has(#[trigger] old(path)@[i]),
        ensures
            final(path)@ == old(path)@,
            old(v_path)@.is_prefix_of(final(v_path)@),
            explored(
                self@.forward,
                self@.call_paths(old(path)@[0], stop),
                old(path)@,
                walks(final(v_path)@).skip(old(v_path)@.len() as int),
            ),
        decreases self.table()@.len() + 1 - old(path)@.len(),
    {
        let ghost view = self@;
        let ghost adj = view.forward;
        let ghost stem = path@;
        let ghost found0 = v_path@;
        let ghost n0 = found0.len() as int;
        let ghost first = stem[0];
        let ghost valid = view.call_paths(first, stop);
        let ghost at = stem.len() as int;
        let ghost bound = self.table()@.len();
        let cur = path[path.len() - 1];
        proof {
            lemma_stem_bounded(stem, bound);
            assert(found0.take(n0) =~= found0);
        }
        match self.callees_of(cur) {
            Some(callees) => {
                let ghost items = set_items(*callees);
                let n = set_len(callees);
                let mut j: usize = 0;
                proof {
                    lemma_searched_none(adj, valid, stem);
                    assert(walks(v_path@).skip(n0) =~= Seq::<Seq<FnId>>::empty());
                    assert(items.take(0) =~= Seq::<FnId>::empty());
                    lemma_rows_distinct(adj);
                }
                while j < n
                    invariant
                        j <= n,
                        n == items.len(),
                        items == set_items(*callees),
                        items == row(adj, cur),
                        items.no_duplicates(),
                        view.expanded(cur),
                        self.inv(),
                        view == self@,
                        adj == view.forward,
                        valid == view.call_paths(first, stop),
                        bound == self.table()@.len(),
                        stem == old(path)@,
                        found0 == old(v_path)@,
                        n0 == found0.len(),
                        path@ == stem,
                        at == stem.len(),
                        at > 0,
                        first == stem[0],
                        cur == stem.last(),
                        view.is_stem(stop, stem),
                        stem.len() <= bound + 1,
                        forall|i: int| 0 < i < stem.len() ==> self.table().has(#[trigger] stem[i]),
                        found0.is_prefix_of(v_path@),
                        searched(adj, valid, stem, items.take(j as int), walks(v_path@).skip(n0)),
                    decreases n - j,
                {
                    let ghost found1 = v_path@;
                    let callee = match set_get_index(callees, j) {
                        Some(callee) => callee,
                        None => {
                            return ;
                        },
                    };
                    proof {
                        assert(items.contains(callee));
                        lemma_links_row(adj, cur, callee);
                        self.lemma_nodes_known(cur, callee);
                    }
                    if callee == stop {
                        let whole = path_with(path, callee);
                        v_path.push(whole);
                        proof {
                            assert(found1.is_prefix_of(v_path@)) by {
                                assert(v_path@.take(found1.len() as int) =~= found1);
                            }
                            assert(walks(v_path@).skip(found1.len() as int) =~= seq![whole@]);
                            lemma_only_the_call(view, first, stop, stem);
                            lemma_branch_single(adj, valid, stem, callee, whole@);
                        }
                    } else if !on_path(path, callee) {
                        proof {
                            lemma_longer_stem(view, stop, stem, callee);
                            lemma_stem_bounded(stem.push(callee), bound);
                        }
                        path.push(callee);
                        self.add_call_path(stop, path, v_path);
                        let _ = path.pop();
                        proof {
                            assert(path@ =~= stem);
                            assert(stem.push(callee)[0] == first);
                            lemma_branch_explored(
                                adj,
                                valid,
                                stem,
                                callee,
                                walks(v_path@).skip(found1.len() as int),
                            );
                        }
                    } else {
                        proof {
                            lemma_no_way_back(view, first, stop, stem, callee);
                            lemma_branch_empty(adj, valid, stem, callee);
                            assert(walks(v_path@).skip(found1.len() as int) =~= Seq::<
                                Seq<FnId>,
                            >::empty());
                            assert(found1.take(found1.len() as int) =~= found1);
                        }
                    }
                    proof {
                        lemma_prefix_twice(found0, found1, v_path@);
                        lemma_walks_grown(found1, v_path@, n0);
                        lemma_searched_more(
                            adj,
                            valid,
                            stem,
                            items,
                            j as int,
                            walks(found1).skip(n0),
                            walks(v_path@).skip(found1.len() as int),
                        );
                    }
                    j = j + 1;
                }
                proof {
                    assert(items.take(j as int) =~= items);
                    assert forall|walk: Seq<FnId>| #[trigger]
                        valid.contains(walk) && stem.is_prefix_of(walk) implies continues(stem, walk)
                        && items.contains(walk[at]) by {
                        assert(walk.take(at) == stem);
                        assert(walk.take(at)[at - 1] == walk[at - 1]);
                        if walk.len() == at {
                            assert(walk =~= stem);
                            assert(stem[at - 1] == stop);
                            if at > 1 {
                                assert(stem[at - 1] != stop);
                            }
                        }
                        assert(view.calls(walk[at - 1], walk[at - 1 + 1]));
                        lemma_links_row(adj, cur, walk[at]);
                    }
                    lemma_searched_all(adj, valid, stem, items, walks(v_path@).skip(n0));
                }
            },
            None => {
                proof {
                    assert(walks(v_path@).skip(n0) =~= Seq::<Seq<FnId>>::empty());
                    assert forall|walk: Seq<FnId>| #[trigger]
                        valid.contains(walk) implies !stem.is_prefix_of(walk) by {
                        if stem.is_prefix_of(walk) {
                            assert(walk.take(at) == stem);
                            assert(walk.take(at)[at - 1] == walk[at - 1]);
                            if walk.len() == at {
                                assert(walk =~= stem);
                                if at > 1 {
                                    assert(stem[at - 1] != stop);
                                }
                            }
                            assert(view.calls(walk[at - 1], walk[at - 1 + 1]));
                            self.lemma_nodes_known(cur, walk[at]);
                        }
                    }
                }
            },
        }
    }

    /// Every path from `sink` back to a root, each once, `sink` named
    /// first, in the order in which a depth-first search finds them. A walk
    /// does not go on into a function that is on it already.
    pub fn backtrace(&self, sink: FnId) -> (paths: Vec<Vec<FnId>>)
        requires
            self.wf(),
        ensures
            forall|k: int| 0 <= k < paths@.len() ==> self@.is_back_path(sink, (#[trigger] paths@[k])@),
            forall|path: Seq<FnId>| #[trigger]
                self@.is_back_path(sink, path) ==> exists|k: int|
                    0 <= k < paths@.len() && (#[trigger] paths@[k])@ == path,
            forall|k: int, l: int|
                0 <= k < l < paths@.len() ==> (#[trigger] paths@[k])@ != (#[trigger] paths@[l])@,
            forall|k: int, l: int|
                0 <= k < l < paths@.len() ==> found_before(
                    self@.backward,
                    (#[trigger] paths@[k])@,
                    (#[trigger] paths@[l])@,
                ),
    {
        let mut path: Vec<FnId> = Vec::new();
        let mut v_path: Vec<Vec<FnId>> = Vec::new();
        path.push(sink);
        proof {
            assert(path@ =~= seq![sink]);
            assert(path@[0] == sink);
        }
        self.add_back_path(&mut path, &mut v_path);
        proof {
            let valid = self@.back_paths(sink);
            assert(walks(v_path@).skip(0) =~= walks(v_path@));
            lemma_rows_distinct(self@.backward);
            lemma_explored_plain(self@.backward, valid, seq![sink], v_path@);
            assert forall|found: Seq<FnId>| #[trigger]
                self@.is_back_path(sink, found) implies exists|k: int|
                0 <= k < v_path@.len() && (#[trigger] v_path@[k])@ == found by {
                assert(found.take(1) =~= seq![sink]);
                assert(valid.contains(found) && seq![sink].is_prefix_of(found));
            }
            assert forall|k: int| 0 <= k < v_path@.len() implies self@.is_back_path(
                sink,
                (#[trigger] v_path@[k])@,
            ) by {
                assert(valid.contains(v_path@[k]@));
            }
        }
        v_path
    }

    /// Adds to `v_path` every path back to a root that begins with `path`.
    fn add_back_path(&self, path: &mut Vec<FnId>, v_path: &mut Vec<Vec<FnId>>)
        requires
            self.inv(),
            self@.is_back_stem(old(path)@),
            forall|i: int| 0 < i < old(path)@.len() ==> self.table().has(#[trigger] old(path)@[i]),
        ensures
            final(path)@ == old(path)@,
            old(v_path)@.is_prefix_of(final(v_path)@),
            explored(
                self@.backward,
                self@.back_paths(old(path)@[0]),
                old(path)@,
                walks(final(v_path)@).skip(old(v_path)@.len() as int),
            ),
        decreases self.table()@.len() + 1 - old(path)@.len(),
    {
        let ghost view = self@;
        let ghost adj = view.backward;
        let ghost stem = path@;
        let ghost found0 = v_path@;
        let ghost n0 = found0.len() as int;
        let ghost first = stem[0];
        let ghost valid = view.back_paths(first);
        let ghost at = stem.len() as int;
        let ghost bound = self.table()@.len();
        let cur = path[path.len() - 1];
        proof {
            lemma_stem_bounded(stem, bound);
            assert(found0.take(n0) =~= found0);
        }
        match self.callers_of(cur) {
            Some(callers) => {
                let ghost items = set_items(*callers);
                let n = set_len(callers);
                let mut j: usize = 0;
                proof {
                    lemma_searched_none(adj, valid, stem);
                    assert(walks(v_path@).skip(n0) =~= Seq::<Seq<FnId>>::empty());
                    assert(items.take(0) =~= Seq::<FnId>::empty());
                    lemma_rows_distinct(adj);
                }
                while j < n
                    invariant
                        j <= n,
                        n == items.len(),
                        items == set_items(*callers),
                        items == row(adj, cur),
                        items.no_duplicates(),
                        has_key(adj, cur),
                        self.inv(),
                        view == self@,
                        adj == view.backward,
                        valid == view.back_paths(first),
                        bound == self.table()@.len(),
                        stem == old(path)@,
                        found0 == old(v_path)@,
                        n0 == found0.len(),
                        path@ == stem,
                        at == stem.len(),
                        at > 0,
                        first == stem[0],
                        cur == stem.last(),
                        view.is_back_stem(stem),
                        stem.len() <= bound + 1,
                        forall|i: int| 0 < i < stem.len() ==> self.table().has(#[trigger] stem[i]),
                        found0.is_prefix_of(v_path@),
                        searched(adj, valid, stem, items.take(j as int), walks(v_path@).skip(n0)),
                    decreases n - j,
                {
                    let ghost found1 = v_path@;
                    let caller = match set_get_index(callers, j) {
                        Some(caller) => caller,
                        None => {
                            return ;
                        },
                    };
                    proof {
                        assert(items.contains(caller));
                        lemma_links_row(adj, cur, caller);
                        self.lemma_nodes_known(caller, cur);
                    }
                    if !on_path(path, caller) {
                        proof {
                            lemma_longer_back_stem(view, stem, caller);
                            lemma_stem_bounded(stem.push(caller), bound);
                        }
                        path.push(caller);
                        self.add_back_path(path, v_path);
                        let _ = path.pop();
                        proof {
                            assert(path@ =~= stem);
                            assert(stem.push(caller)[0] == first);
                            lemma_branch_explored(
                                adj,
                                valid,
                                stem,
                                caller,
                                walks(v_path@).skip(found1.len() as int),
                            );
                        }
                    } else {
                        proof {
                            lemma_no_way_round(view, first, stem, caller);
                            lemma_branch_empty(adj, valid, stem, caller);
                            assert(walks(v_path@).skip(found1.len() as int) =~= Seq::<
                                Seq<FnId>,
                            >::empty());
                            assert(found1.take(found1.len() as int) =~= found1);
                        }
                    }
                    proof {
                        lemma_prefix_twice(found0, found1, v_path@);
                        lemma_walks_grown(found1, v_path@, n0);
                        lemma_searched_more(
                            adj,
                            valid,
                            stem,
                            items,
                            j as int,
                            walks(found1).skip(n0),
                            walks(v_path@).skip(found1.len() as int),
                        );
                    }
                    j = j + 1;
                }
                proof {
                    assert(items.take(j as int) =~= items);
                    assert forall|walk: Seq<FnId>| #[trigger]
                        valid.contains(walk) && stem.is_prefix_of(walk) implies continues(stem, walk)
                        && items.contains(walk[at]) by {
                        assert(walk.take(at) == stem);
                        assert(walk.take(at)[at - 1] == walk[at - 1]);
                        if walk.len() == at {
                            assert(walk =~= stem);
                        }
                        assert(view.called_by(walk[at - 1], walk[at - 1 + 1]));
                        lemma_links_row(adj, cur, walk[at]);
                    }
                    lemma_searched_all(adj, valid, stem, items, walks(v_path@).skip(n0));
                }
            },
            None => {
                let whole = copy_of(path);
                v_path.push(whole);
                proof {
                    assert(v_path@.take(n0) =~= found0);
                    let found = walks(v_path@).skip(n0);
                    assert(found =~= seq![stem]);
                    assert(found[0] == stem);
                    assert(stem.take(at) =~= stem);
                    assert(view.is_back_path(first, stem));
                    assert forall|walk: Seq<FnId>| #[trigger]
                        valid.contains(walk) && stem.is_prefix_of(walk) implies found.contains(
                        walk,
                    ) by {
                        assert(walk.take(at) == stem);
                        if walk.len() > at {
                            assert(walk.take(at)[at - 1] == walk[at - 1]);
                            assert(view.called_by(walk[at - 1], walk[at - 1 + 1]));
                            let i = choose|i: int|
                                0 <= i < adj.len() && (#[trigger] adj[i]).0 == cur && adj[i].1.contains(
                                    walk[at],
                                );
                            assert(has_key(adj, cur));
                        }
                        assert(walk =~= stem);
                    }
                }
            },
        }
    }

    /// Whether `stop` can be reached from `start` through one call or more.
    /// The search goes depth first and enters no function twice.
    pub fn reachable(&self, start: FnId, stop: FnId) -> (found: bool)
        requires
            self.wf(),
        ensures
            found == self@.connects(start, stop),
    {
        let ghost view = self@;
        let ghost bound = self.table()@.len();
        let mut seen = set_new();
        let mut stack: Vec<FnId> = Vec::new();
        stack.push(start);
        proof {
            assert(stack@[0] == start);
            assert(stack@.contains(start));
        }
        while stack.len() > 0
            invariant
                self.inv(),
                view == self@,
                bound == self.table()@.len(),
                set_items(seen).no_duplicates(),
                forall|i: int|
                    0 <= i < set_items(seen).len() ==> {
                        &&& (#[trigger] set_items(seen)[i]) < bound
                        &&& set_items(seen)[i] != stop
                        &&& view.connects(start, set_items(seen)[i])
                    },
                forall|i: int|
                    0 <= i < stack@.len() ==> (#[trigger] stack@[i]) == start || set_items(
                        seen,
                    ).contains(stack@[i]),
                forall|v: FnId, c: FnId|
                    (v == start || set_items(seen).contains(v)) && !stack@.contains(v)
                        && #[trigger] view.calls(v, c) ==> set_items(seen).contains(c),
            decreases bound - set_items(seen).len(), stack@.len(),
        {
            proof {
                lemma_distinct_below(set_items(seen), bound);
            }
            let ghost seen0 = set_items(seen);
            let ghost stack0 = stack@;
            let node = match stack.pop() {
                Some(node) => node,
                None => {
                    return false;
                },
            };
            let ghost rest = stack@;
            proof {
                assert(stack0[stack0.len() - 1] == node);
                assert(rest =~= stack0.drop_last());
                assert forall|v: FnId| v != node && !rest.contains(v) implies !stack0.contains(v) by {
                    if stack0.contains(v) {
                        let i = choose|i: int| 0 <= i < stack0.len() && stack0[i] == v;
                        assert(rest[i] == v);
                    }
                }
                assert forall|i: int| 0 <= i < rest.len() implies (#[trigger] rest[i]) == start
                    || seen0.contains(rest[i]) by {
                    assert(rest[i] == stack0[i]);
                }
            }
            match self.callees_of(node) {
                Some(callees) => {
                    let n = set_len(callees);
                    let mut k: usize = 0;
                    while k < n
                        invariant
                            k <= n,
                            n == set_items(*callees).len(),
                            self.inv(),
                            view == self@,
                            bound == self.table()@.len(),
                            node == start || seen0.contains(node),
                            set_items(*callees) == view.callees(node),
                            view.expanded(node),
                            set_items(seen).no_duplicates(),
                            seen0.len() <= set_items(seen).len(),
                            set_items(seen).len() == seen0.len() ==> stack@ == rest,
                            forall|x: FnId| seen0.contains(x) ==> set_items(seen).contains(x),
                            forall|i: int|
                                0 <= i < set_items(seen).len() ==> {
                                    &&& (#[trigger] set_items(seen)[i]) < bound
                                    &&& set_items(seen)[i] != stop
                                    &&& view.connects(start, set_items(seen)[i])
                                },
                            forall|i: int|
                                0 <= i < stack@.len() ==> (#[trigger] stack@[i]) == start || set_items(
                                    seen,
                                ).contains(stack@[i]),
                            forall|v: FnId, c: FnId|
                                (v == start || set_items(seen).contains(v)) && !stack@.contains(v) && v
                                    != node && #[trigger] view.calls(v, c) ==> set_items(seen).contains(
                                    c,
                                ),
                            forall|j: int|
                                0 <= j < k ==> set_items(seen).contains(
                                    #[trigger] set_items(*callees)[j],
                                ),
                        decreases n - k,
                    {
                        let ghost seen1 = set_items(seen);
                        let ghost stack1 = stack@;
                        let callee = match set_get_index(callees, k) {
                            Some(callee) => callee,
                            None => {
                                return false;
                            },
                        };
                        proof {
                            assert(view.callees(node).contains(callee));
                            lemma_links_row(view.forward, node, callee);
                            if node == start {
                                view.lemma_connects_by_call(start, callee);
                            } else {
                                let i = choose|i: int| 0 <= i < seen1.len() && seen1[i] == node;
                                assert(view.connects(start, seen1[i]));
                                view.lemma_connects_one_more(start, node, callee);
                            }
                            self.lemma_nodes_known(node, callee);
                        }
                        if callee == stop {
                            return true;
                        }
                        if set_insert(&mut seen, callee) {
                            stack.push(callee);
                        }
                        proof {
                            let seen2 = set_items(seen);
                            let stack2 = stack@;
                            crate::seqs::lemma_push_new_no_duplicates(seen1, callee);
                            assert forall|i: int| 0 <= i < seen2.len() implies {
                                &&& (#[trigger] seen2[i]) < bound
                                &&& seen2[i] != stop
                                &&& view.connects(start, seen2[i])
                            } by {
                                if i < seen1.len() {
                                    assert(seen2[i] == seen1[i]);
                                }
                            }
                            assert forall|i: int| 0 <= i < stack2.len() implies (#[trigger] stack2[i])
                                == start || seen2.contains(stack2[i]) by {
                                if i < stack1.len() {
                                    assert(stack2[i] == stack1[i]);
                                }
                            }
                            assert forall|v: FnId, c: FnId|
                                (v == start || seen2.contains(v)) && !stack2.contains(v) && v != node
                                    && #[trigger] view.calls(v, c) implies seen2.contains(c) by {
                                if !stack1.contains(v) {
                                    if v != start && !seen1.contains(v) {
                                        assert(v == callee);
                                        assert(stack2[stack2.len() - 1] == callee);
                                    }
                                } else {
                                    let i = choose|i: int| 0 <= i < stack1.len() && stack1[i] == v;
                                    assert(stack2[i] == v);
                                }
                            }
                            assert forall|j: int| 0 <= j < k + 1 implies seen2.contains(
                                #[trigger] set_items(*callees)[j],
                            ) by {}
                        }
                        k = k + 1;
                    }
                    proof {
                        let seen2 = set_items(seen);
                        assert forall|c: FnId| #[trigger] view.calls(node, c) implies seen2.contains(
                            c,
                        ) by {
                            lemma_links_row(view.forward, node, c);
                            let j = choose|j: int|
                                0 <= j < view.callees(node).len() && view.callees(node)[j] == c;
                            assert(seen2.contains(set_items(*callees)[j]));
                        }
                    }
                },
                None => {
                    proof {
                        assert forall|c: FnId| !#[trigger] view.calls(node, c) by {
                            if view.calls(node, c) {
                                let i = choose|i: int|
                                    0 <= i < view.forward.len() && (#[trigger] view.forward[i]).0
                                        == node && view.forward[i].1.contains(c);
                                assert(has_key(view.forward, node));
                            }
                        }
                    }
                },
            }
            proof {
                lemma_distinct_below(set_items(seen), bound);
            }
        }
        proof {
            let seen2 = set_items(seen);
            if view.connects(start, stop) {
                let walk = choose|walk: Seq<FnId>| #[trigger]
                    view.is_walk(walk) && walk.len() >= 2 && walk[0] == start && walk.last() == stop;
                assert forall|v: FnId, c: FnId|
                    (v == start || seen2.contains(v)) && #[trigger] view.calls(v, c) implies seen2.contains(
                    c,
                ) by {
                    assert(!stack@.contains(v));
                }
                view.lemma_walk_stays_in(seen2, start, walk, walk.len() - 1);
                let i = choose|i: int| 0 <= i < seen2.len() && seen2[i] == stop;
                assert(seen2[i] != stop);
            }
        }
        false
    }
}

} // verus!
