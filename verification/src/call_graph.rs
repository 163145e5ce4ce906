//! The call graph of a unit: who calls whom, and who is called by whom.

use crate::adjacency::{
    distinct_items, distinct_keys, grows_to, lemma_distinct_below, lemma_grows_to_itself,
    lemma_grows_to_transitive, lemma_keys_of, lemma_prefix_keeps_keys, lemma_push_row,
    lemma_row_unique, lemma_with_link, links, no_empty_rows, row, row_index, with_link, Adjacency,
};
use crate::canonical::{canonical_of, lemma_canonical_of, lemma_sorted_same_items};
use crate::fn_item::{distinct_callees, lemma_distinct_callees, FnId, FnItem, FnTable};
use crate::growth::{
    add_row, lemma_linked_back_one, lemma_linked_back_twice, linked_back, visit, visit_each,
};
use crate::indexed::{
    entry_at, has_key, keys_of, map_entries, map_get, map_get_index, map_get_mut, map_insert,
    map_len, map_new, map_sort_by_name, set_get_index, set_insert, set_items, set_len, set_new,
    set_sort_by_name, sorted_by_name,
};
use crate::seqs::push_new;
use indexmap::IndexMap;
use indexmap::IndexSet;
use vstd::prelude::*;

verus! {

/// What a call graph holds: for each expanded function the functions it
/// calls directly, and for each called function its direct callers.
pub struct GraphView {
    pub forward: Adjacency,
    pub backward: Adjacency,
}

impl GraphView {
    /// `node` has been expanded: its callees are recorded.
    pub open spec fn expanded(self, node: FnId) -> bool {
        has_key(self.forward, node)
    }

    /// `caller` is recorded as calling `callee`.
    pub open spec fn calls(self, caller: FnId, callee: FnId) -> bool {
        links(self.forward, caller, callee)
    }

    /// `callee` is recorded as called by `caller`.
    pub open spec fn called_by(self, callee: FnId, caller: FnId) -> bool {
        links(self.backward, callee, caller)
    }

    /// The recorded callees of `node`, in their order.
    pub open spec fn callees(self, node: FnId) -> Seq<FnId> {
        row(self.forward, node)
    }

    /// The recorded callers of `node`, in their order.
    pub open spec fn callers(self, node: FnId) -> Seq<FnId> {
        row(self.backward, node)
    }

    /// The row at `i` is the first whose function has the display name
    /// `name`.
    pub open spec fn first_named(self, table: FnTable, name: Seq<char>, i: int) -> bool {
        &&& 0 <= i < self.forward.len()
        &&& table.name(self.forward[i].0) == name
        &&& forall|j: int| 0 <= j < i ==> table.name((#[trigger] self.forward[j]).0) != name
    }

    /// The first expanded function, in the order of the rows, whose display
    /// name is `name`.
    pub open spec fn lookup(self, table: FnTable, name: Seq<char>) -> Option<FnId> {
        if exists|i: int| self.first_named(table, name, i) {
            Some(self.forward[choose|i: int| self.first_named(table, name, i)].0)
        } else {
            None
        }
    }

    /// Every recorded callee has been expanded itself.
    pub open spec fn closed(self) -> bool {
        forall|i: int, callee: FnId|
            0 <= i < self.forward.len() && (#[trigger] self.forward[i]).1.contains(callee)
                ==> #[trigger] has_key(self.forward, callee)
    }
}

/// The rows of a map as plain values.
pub open spec fn rows_of(rows: Seq<(FnId, Vec<FnId>)>) -> Adjacency {
    Seq::new(rows.len(), |i: int| (rows[i].0, rows[i].1@))
}

/// The call graph over the definitions of a table.
pub struct CallGraph {
    table: FnTable,
    edges: IndexMap<u64, IndexSet<u64>>,
    back_edges: IndexMap<u64, IndexSet<u64>>,
}

impl View for CallGraph {
    type V = GraphView;

    closed spec fn view(&self) -> GraphView {
        GraphView { forward: map_entries(self.edges), backward: map_entries(self.back_edges) }
    }
}

impl CallGraph {
    /// The table whose definitions the graph is about.
    pub closed spec fn table(&self) -> FnTable {
        self.table
    }

    /// The graph records, for the functions expanded so far, exactly the
    /// direct calls that their bodies make, each once and in both
    /// directions.
    pub open spec fn inv(&self) -> bool {
        let fw = self@.forward;
        let bw = self@.backward;
        &&& self.table().wf()
        &&& distinct_keys(fw)
        &&& distinct_items(fw)
        &&& distinct_keys(bw)
        &&& distinct_items(bw)
        &&& no_empty_rows(bw)
        &&& forall|i: int| 0 <= i < fw.len() ==> self.table().has((#[trigger] fw[i]).0)
        &&& forall|i: int, callee: FnId|
            0 <= i < fw.len() ==> ((#[trigger] fw[i]).1.contains(callee) <==> #[trigger] self.table().calls(
                fw[i].0,
                callee,
            ))
        &&& forall|caller: FnId, callee: FnId|
            #[trigger] links(bw, callee, caller) <==> #[trigger] links(fw, caller, callee)
    }

    /// [`Self::inv`], and nothing is left to expand: every recorded callee
    /// has its own entry.
    pub open spec fn wf(&self) -> bool {
        self.inv() && self@.closed()
    }

    /// A graph over `table` in which nothing is expanded yet.
    pub fn new(table: FnTable) -> (graph: CallGraph)
        requires
            table.wf(),
        ensures
            graph.wf(),
            graph.table() == table,
            graph@.forward.len() == 0,
            graph@.backward.len() == 0,
    {
        CallGraph { table, edges: map_new(), back_edges: map_new() }
    }

    /// The table whose definitions the graph is about.
    pub fn fn_table(&self) -> (table: &FnTable)
        ensures
            *table == self.table(),
    {
        &self.table
    }

    /// The row at `i` is as an expansion from `root` leaves it: its function
    /// can be reached from `root`, its callees stand in the order of their
    /// first reference, and each of them is expanded.
    pub open spec fn fresh_row(&self, root: FnId, i: int) -> bool {
        let fw = self@.forward;
        &&& self.table().reaches(root, fw[i].0)
        &&& fw[i].1 == self.table().callees(fw[i].0)
        &&& forall|callee: FnId| fw[i].1.contains(callee) ==> #[trigger] has_key(fw, callee)
    }

    /// Enters `node` with its callees, and `node` as a caller of each.
    fn record(&mut self, node: FnId, set: IndexSet<u64>, list: &Vec<FnId>)
        requires
            old(self).inv(),
            old(self).table().has(node),
            !old(self)@.expanded(node),
            set_items(set) == old(self).table().callees(node),
            list@ == set_items(set),
        ensures
            final(self).inv(),
            final(self).table() == old(self).table(),
            final(self)@.forward == old(self)@.forward.push((node, list@)),
            final(self)@.backward == add_row(old(self)@.backward, node, list@),
            grows_to(old(self)@.backward, final(self)@.backward),
    {
        let ghost fw = self@.forward;
        let ghost bw0 = self@.backward;
        proof {
            lemma_grows_to_itself(bw0);
        }
        let mut k: usize = 0;
        while k < list.len()
            invariant
                k <= list@.len(),
                self.table == old(self).table,
                self.edges == old(self).edges,
                bw0 == old(self)@.backward,
                distinct_keys(map_entries(self.back_edges)),
                distinct_items(map_entries(self.back_edges)),
                no_empty_rows(map_entries(self.back_edges)),
                grows_to(bw0, map_entries(self.back_edges)),
                map_entries(self.back_edges) == add_row(bw0, node, list@.take(k as int)),
                forall|a: u64, b: u64| #[trigger]
                    links(map_entries(self.back_edges), a, b) <==> links(bw0, a, b) || (b == node
                        && list@.take(k as int).contains(a)),
            decreases list@.len() - k,
        {
            let ghost bw = map_entries(self.back_edges);
            let callee = list[k];
            add_link(&mut self.back_edges, callee, node);
            proof {
                let next = map_entries(self.back_edges);
                lemma_with_link(bw, callee, node);
                lemma_grows_to_transitive(bw0, bw, next);
                let shorter = list@.take(k as int);
                let longer = list@.take(k + 1);
                assert(longer =~= shorter.push(callee));
                assert(longer.drop_last() =~= shorter);
                assert forall|a: u64, b: u64| #[trigger]
                    links(next, a, b) <==> links(bw0, a, b) || (b == node && longer.contains(a)) by {
                    assert(next == with_link(bw, callee, node));
                    assert(links(next, a, b) <==> links(bw, a, b) || (a == callee && b == node));
                    assert(links(bw, a, b) <==> links(bw0, a, b) || (b == node && shorter.contains(a)));
                    assert(longer[k as int] == callee);
                    if shorter.contains(a) {
                        let j = choose|j: int| 0 <= j < shorter.len() && shorter[j] == a;
                        assert(longer[j] == a);
                    }
                    if longer.contains(a) {
                        let j = choose|j: int| 0 <= j < longer.len() && longer[j] == a;
                        if j < k {
                            assert(shorter[j] == a);
                        }
                    }
                }
            }
            k = k + 1;
        }
        map_insert(&mut self.edges, node, set);
        proof {
            let items = list@;
            let bw = self@.backward;
            let next = self@.forward;
            assert(list@.take(k as int) =~= list@);
            assert(next == fw.push((node, items)));
            lemma_distinct_callees(self.table@[node as int].operands());
            lemma_push_row(fw, node, items);
            assert forall|i: int| 0 <= i < next.len() implies self.table().has((#[trigger] next[i]).0) by {
                if i < fw.len() {
                    assert(self.table().has(fw[i].0));
                }
            }
            assert forall|i: int, callee: FnId| 0 <= i < next.len() implies ((#[trigger] next[i]).1.contains(
                callee,
            ) <==> #[trigger] self.table().calls(next[i].0, callee)) by {
                if i < fw.len() {
                    assert(fw[i].1.contains(callee) <==> self.table().calls(fw[i].0, callee));
                }
            }
            assert forall|caller: FnId, callee: FnId| #[trigger]
                links(bw, callee, caller) <==> #[trigger] links(next, caller, callee) by {
                assert(links(bw0, callee, caller) <==> links(fw, caller, callee));
            }
        }
    }

    /// The graph can hold no more rows than the table has definitions.
    proof fn lemma_rows_bounded(&self)
        requires
            self.inv(),
        ensures
            self@.forward.len() <= self.table()@.len(),
    {
        let fw = self@.forward;
        lemma_keys_of(fw);
        assert forall|i: int| 0 <= i < keys_of(fw).len() implies (#[trigger] keys_of(fw)[i])
            < self.table()@.len() by {
            assert(self.table().has(fw[i].0));
        }
        lemma_distinct_below(keys_of(fw), self.table()@.len());
    }

    /// Expands `node` and, depth first, what it calls, as far as that is
    /// not expanded yet.
    fn expand(&mut self, node: FnId, Ghost(fuel): Ghost<nat>)
        requires
            old(self).inv(),
            fuel + old(self)@.forward.len() >= old(self).table()@.len(),
        ensures
            final(self).inv(),
            final(self).table() == old(self).table(),
            old(self)@.forward.is_prefix_of(final(self)@.forward),
            grows_to(old(self)@.backward, final(self)@.backward),
            !old(self).table().has(node) || old(self)@.expanded(node) ==> final(self)@ == old(self)@,
            old(self).table().has(node) ==> final(self)@.expanded(node),
            forall|i: int|
                old(self)@.forward.len() <= i < final(self)@.forward.len() ==> #[trigger] final(self).fresh_row(node, i),
            keys_of(final(self)@.forward) == visit(
                old(self).table(),
                keys_of(old(self)@.forward),
                node,
                fuel,
            ),
            final(self)@.backward == linked_back(
                old(self)@.backward,
                final(self)@.forward.skip(old(self)@.forward.len() as int),
            ),
        decreases old(self).table()@.len() - old(self)@.forward.len(),
    {
        let ghost start = self@;
        let ghost table = self.table;
        let ghost done = keys_of(start.forward);
        proof {
            lemma_grows_to_itself(start.backward);
            self.lemma_rows_bounded();
            lemma_keys_of(start.forward);
            assert(start.forward.skip(start.forward.len() as int) =~= Seq::<(FnId, Seq<FnId>)>::empty());
            if fuel == 0 && table.has(node) && !done.contains(node) {
                let more = done.push(node);
                assert forall|i: int, j: int| 0 <= i < more.len() && 0 <= j < more.len() && i
                    != j implies more[i] != more[j] by {
                    if i < done.len() && j < done.len() {
                        assert(done[i] != done[j]);
                    } else if i < done.len() {
                        assert(done.contains(done[i]));
                    } else {
                        assert(done.contains(done[j]));
                    }
                }
                assert forall|i: int| 0 <= i < more.len() implies (#[trigger] more[i]) < table@.len() by {
                    if i < done.len() {
                        assert(table.has(start.forward[i].0));
                    }
                }
                lemma_distinct_below(more, table@.len());
            }
        }
        let (set, list) = match self.table.get(node) {
            Some(item) => direct_callees(item),
            None => {
                return ;
            },
        };
        if map_get(&self.edges, node).is_some() {
            return ;
        }
        proof {
            assert(!done.contains(node));
            assert(fuel > 0);
        }
        self.record(node, set, &list);
        let ghost first = start.forward.len() as int;
        let ghost linked = self@.backward;
        proof {
            assert(self@.forward[first] == (node, list@));
            assert(self@.forward.take(first) =~= start.forward);
            lemma_keys_of(self@.forward);
            assert(keys_of(self@.forward) =~= done.push(node));
            assert(list@.take(0) =~= Seq::<FnId>::empty());
            assert(self@.forward.skip(first + 1) =~= Seq::<(FnId, Seq<FnId>)>::empty());
        }
        let mut k: usize = 0;
        while k < list.len()
            invariant
                k <= list@.len(),
                self.inv(),
                self.table == table,
                table == old(self).table,
                start == old(self)@,
                table.wf(),
                table.has(node),
                list@ == table.callees(node),
                first == start.forward.len(),
                start.forward.push((node, list@)).is_prefix_of(self@.forward),
                grows_to(start.backward, self@.backward),
                forall|j: int| 0 <= j < k ==> has_key(self@.forward, #[trigger] list@[j]),
                forall|i: int| first < i < self@.forward.len() ==> #[trigger] self.fresh_row(node, i),
                fuel > 0,
                fuel + first >= table@.len(),
                done == keys_of(start.forward),
                linked == add_row(start.backward, node, list@),
                keys_of(self@.forward) == visit_each(
                    table,
                    done.push(node),
                    list@.take(k as int),
                    (fuel - 1) as nat,
                ),
                self@.backward == linked_back(linked, self@.forward.skip(first + 1)),
            decreases list@.len() - k,
        {
            let ghost before = self@;
            let ghost graph = *self;
            let callee = list[k];
            proof {
                self.lemma_rows_bounded();
                assert(table.calls(node, callee));
                table.lemma_callee_known(node, callee);
            }
            self.expand(callee, Ghost((fuel - 1) as nat));
            proof {
                let after = self@;
                lemma_grows_to_transitive(start.backward, before.backward, after.backward);
                assert(list@.take(k + 1).drop_last() =~= list@.take(k as int));
                assert(list@.take(k + 1).last() == callee);
                lemma_linked_back_twice(
                    linked,
                    before.forward.skip(first + 1),
                    after.forward.skip(before.forward.len() as int),
                );
                assert(before.forward.skip(first + 1) + after.forward.skip(
                    before.forward.len() as int,
                ) =~= after.forward.skip(first + 1)) by {
                    assert forall|i: int| 0 <= i < before.forward.len() implies after.forward[i]
                        == before.forward[i] by {
                        assert(after.forward.take(before.forward.len() as int)[i] == after.forward[i]);
                    }
                }
                assert(after.forward.take(first + 1) =~= before.forward.take(first + 1));
                assert forall|j: int| 0 <= j < k + 1 implies has_key(
                    after.forward,
                    #[trigger] list@[j],
                ) by {
                    if j < k {
                        lemma_prefix_keeps_keys(before.forward, after.forward, list@[j]);
                    }
                }
                assert forall|i: int| first < i < after.forward.len() implies #[trigger] self.fresh_row(
                    node,
                    i,
                ) by {
                    if i < before.forward.len() {
                        assert(after.forward[i] == before.forward[i]);
                        assert(graph.fresh_row(node, i));
                        assert forall|c: FnId| after.forward[i].1.contains(c) implies #[trigger] has_key(
                            after.forward,
                            c,
                        ) by {
                            assert(has_key(before.forward, c));
                            lemma_prefix_keeps_keys(before.forward, after.forward, c);
                        }
                    } else {
                        assert(self.fresh_row(callee, i));
                        table.lemma_reaches_after_call(node, callee, after.forward[i].0);
                    }
                }
            }
            k = k + 1;
        }
        proof {
            let after = self@;
            assert(after.forward[first] == start.forward.push((node, list@))[first]);
            assert(after.forward.take(first) =~= start.forward);
            assert(has_key(after.forward, node));
            table.lemma_reaches_itself(node);
            assert forall|c: FnId| after.forward[first].1.contains(c) implies #[trigger] has_key(
                after.forward,
                c,
            ) by {
                let j = choose|j: int| 0 <= j < list@.len() && list@[j] == c;
                assert(has_key(after.forward, list@[j]));
            }
            assert(self.fresh_row(node, first));
            assert(list@.take(k as int) =~= list@);
            assert(!done.contains(node));
            let row = seq![(node, list@)];
            lemma_linked_back_one(start.backward, node, list@);
            lemma_linked_back_twice(start.backward, row, after.forward.skip(first + 1));
            assert(row + after.forward.skip(first + 1) =~= after.forward.skip(first));
        }
    }

    /// What is expanded in a graph with nothing left to expand is expanded
    /// together with all that it reaches.
    pub proof fn lemma_closed_reaches(&self, from: FnId, to: FnId)
        requires
            self.wf(),
            self@.expanded(from),
            self.table().reaches(from, to),
        ensures
            self@.expanded(to),
    {
        let path = choose|path: Seq<FnId>| #[trigger]
            self.table().is_chain(path) && path[0] == from && path.last() == to;
        self.lemma_closed_chain(path, path.len() - 1);
    }

    proof fn lemma_closed_chain(&self, path: Seq<FnId>, upto: int)
        requires
            self.wf(),
            self.table().is_chain(path),
            self@.expanded(path[0]),
            0 <= upto < path.len(),
        ensures
            self@.expanded(path[upto]),
        decreases upto,
    {
        if upto > 0 {
            self.lemma_closed_chain(path, upto - 1);
            let fw = self@.forward;
            let i = row_index(fw, path[upto - 1]);
            assert(self.table().calls(path[upto - 1], path[upto - 1 + 1]));
            assert(fw[i].1.contains(path[upto]));
        }
    }

    /// Reach crate function items as entries: expands `fn_item` and, depth
    /// first, everything that it reaches and that is not expanded yet. A
    /// function that is expanded already, or that the table does not know,
    /// leaves the graph as it is.
    pub fn reach_in_depth(&mut self, fn_item: FnId)
        requires
            old(self).wf(),
        ensures
            final(self).wf(),
            final(self).table() == old(self).table(),
            old(self)@.forward.is_prefix_of(final(self)@.forward),
            grows_to(old(self)@.backward, final(self)@.backward),
            !old(self).table().has(fn_item) || old(self)@.expanded(fn_item) ==> final(self)@ == old(self)@,
            forall|node: FnId| #[trigger]
                final(self)@.expanded(node) <==> old(self)@.expanded(node) || (old(self).table().has(
                    fn_item,
                ) && old(self).table().reaches(fn_item, node)),
            forall|i: int|
                old(self)@.forward.len() <= i < final(self)@.forward.len() ==> (
                #[trigger] final(self)@.forward[i]).1 == old(self).table().callees(
                    final(self)@.forward[i].0,
                ),
            keys_of(final(self)@.forward) == visit(
                old(self).table(),
                keys_of(old(self)@.forward),
                fn_item,
                old(self).table()@.len(),
            ),
            final(self)@.backward == linked_back(
                old(self)@.backward,
                final(self)@.forward.skip(old(self)@.forward.len() as int),
            ),
    {
        let ghost start = self@;
        self.expand(fn_item, Ghost(self.table@.len()));
        proof {
            let after = self@;
            let fw = after.forward;
            assert forall|i: int, callee: FnId|
                0 <= i < fw.len() && (#[trigger] fw[i]).1.contains(callee) implies #[trigger] has_key(
                fw,
                callee,
            ) by {
                if i < start.forward.len() {
                    assert(fw[i] == start.forward[i]);
                    assert(has_key(start.forward, callee));
                    lemma_prefix_keeps_keys(start.forward, fw, callee);
                } else {
                    assert(self.fresh_row(fn_item, i));
                }
            }
            assert forall|node: FnId| #[trigger]
                after.expanded(node) <==> start.expanded(node) || (self.table().has(fn_item)
                    && self.table().reaches(fn_item, node)) by {
                if after.expanded(node) {
                    let i = row_index(fw, node);
                    if i < start.forward.len() {
                        assert(start.forward[i] == fw[i]);
                    } else {
                        assert(self.fresh_row(fn_item, i));
                    }
                }
                if start.expanded(node) {
                    lemma_prefix_keeps_keys(start.forward, fw, node);
                }
                if self.table().has(fn_item) && self.table().reaches(fn_item, node) {
                    self.lemma_closed_reaches(fn_item, node);
                }
            }
            assert forall|i: int| start.forward.len() <= i < fw.len() implies (#[trigger] fw[i]).1
                == self.table().callees(fw[i].0) by {
                assert(self.fresh_row(fn_item, i));
            }
        }
    }

    /// Sort keys and values by fn names: both maps are brought into
    /// canonical order. What the graph records stays the same.
    pub fn sort(&mut self)
        requires
            old(self).wf(),
        ensures
            final(self).wf(),
            final(self).table() == old(self).table(),
            canonical_of(&old(self).table(), old(self)@.forward, final(self)@.forward),
            canonical_of(&old(self).table(), old(self)@.backward, final(self)@.backward),
    {
        let ghost fw = self@.forward;
        let ghost bw = self@.backward;
        proof {
            assert forall|i: int, item: u64|
                0 <= i < fw.len() && (#[trigger] fw[i]).1.contains(item) implies #[trigger] self.table.has(
                item,
            ) by {
                assert(self.table().calls(fw[i].0, item));
                self.table.lemma_callee_known(fw[i].0, item);
            }
            assert forall|i: int| 0 <= i < bw.len() implies self.table.has((#[trigger] bw[i]).0) by {
                assert(bw[i].1.len() > 0);
                assert(bw[i].1.contains(bw[i].1[0]));
                assert(links(bw, bw[i].0, bw[i].1[0]));
                assert(links(fw, bw[i].1[0], bw[i].0));
                let j = choose|j: int|
                    0 <= j < fw.len() && (#[trigger] fw[j]).0 == bw[i].1[0] && fw[j].1.contains(
                        bw[i].0,
                    );
                assert(self.table.has(bw[i].0));
            }
            assert forall|i: int, item: u64|
                0 <= i < bw.len() && (#[trigger] bw[i]).1.contains(item) implies #[trigger] self.table.has(
                item,
            ) by {
                assert(links(bw, bw[i].0, item));
                assert(links(fw, item, bw[i].0));
                let j = choose|j: int|
                    0 <= j < fw.len() && (#[trigger] fw[j]).0 == item && fw[j].1.contains(bw[i].0);
                assert(self.table.has(fw[j].0));
            }
        }
        sort_rows(&mut self.edges, &self.table);
        sort_rows(&mut self.back_edges, &self.table);
        proof {
            let table = &self.table;
            let fw2 = self@.forward;
            let bw2 = self@.backward;
            lemma_canonical_of(table, fw, fw2);
            lemma_canonical_of(table, bw, bw2);
            assert forall|i: int| 0 <= i < fw2.len() implies self.table().has((#[trigger] fw2[i]).0) by {
                assert(has_key(fw2, fw2[i].0));
                let j = row_index(fw, fw2[i].0);
                assert(self.table().has(fw[j].0));
            }
            assert forall|i: int, callee: FnId| 0 <= i < fw2.len() implies ((#[trigger] fw2[i]).1.contains(
                callee,
            ) <==> #[trigger] self.table().calls(fw2[i].0, callee)) by {
                assert(has_key(fw2, fw2[i].0));
                let j = row_index(fw, fw2[i].0);
                lemma_row_unique(fw, j, fw2[i].0);
                assert(fw2[i].1.contains(callee) <==> links(fw, fw2[i].0, callee));
                crate::adjacency::lemma_links_row(fw, fw2[i].0, callee);
                assert(fw[j].1.contains(callee) <==> self.table().calls(fw[j].0, callee));
            }
            assert forall|caller: FnId, callee: FnId| #[trigger]
                links(bw2, callee, caller) <==> #[trigger] links(fw2, caller, callee) by {
                assert(links(bw, callee, caller) <==> links(fw, caller, callee));
            }
            assert forall|i: int, callee: FnId|
                0 <= i < fw2.len() && (#[trigger] fw2[i]).1.contains(callee) implies #[trigger] has_key(
                fw2,
                callee,
            ) by {
                assert(links(fw, fw2[i].0, callee));
                let j = choose|j: int|
                    0 <= j < fw.len() && (#[trigger] fw[j]).0 == fw2[i].0 && fw[j].1.contains(callee);
                assert(has_key(fw, callee));
            }
        }
    }

    /// Search FnItem/DefId: the first expanded function with the display
    /// name `fn_name`, if there is one.
    pub fn get_fn_item(&self, fn_name: &str) -> (found: Option<FnId>)
        requires
            self.wf(),
        ensures
            found == self@.lookup(self.table(), fn_name@),
    {
        let n = map_len(&self.edges);
        let mut i: usize = 0;
        while i < n
            invariant
                i <= n,
                n == self@.forward.len(),
                self.inv(),
                forall|j: int|
                    0 <= j < i ==> self.table().name((#[trigger] self@.forward[j]).0) != fn_name@,
            decreases n - i,
        {
            if let Some((key, _)) = map_get_index(&self.edges, i) {
                proof {
                    assert(self.table().has(self@.forward[i as int].0));
                }
                if let Some(item) = self.table.get(key) {
                    if item.is(fn_name) {
                        proof {
                            assert(self@.first_named(self.table(), fn_name@, i as int));
                            let c = choose|c: int| self@.first_named(self.table(), fn_name@, c);
                            if c < i {
                                assert(self.table().name(self@.forward[c].0) != fn_name@);
                            }
                            if i < c {
                                assert(self.table().name(self@.forward[i as int].0) != fn_name@);
                            }
                        }
                        return Some(key);
                    }
                }
            }
            i = i + 1;
        }
        proof {
            assert forall|c: int| !self@.first_named(self.table(), fn_name@, c) by {
                if 0 <= c < n {
                    assert(self.table().name(self@.forward[c].0) != fn_name@);
                }
            }
        }
        None
    }

    /// The recorded callees of `node`, where it is expanded.
    pub(crate) fn callees_of(&self, node: FnId) -> (found: Option<&IndexSet<u64>>)
        requires
            self.inv(),
        ensures
            match found {
                Some(set) => self@.expanded(node) && set_items(*set) == self@.callees(node),
                None => !self@.expanded(node),
            },
    {
        let found = map_get(&self.edges, node);
        proof {
            if let Some(set) = found {
                let i = choose|i: int| entry_at(self@.forward, i, node, set_items(*set));
                lemma_row_unique(self@.forward, i, node);
            }
        }
        found
    }

    /// The recorded callers of `node`, where it has any.
    pub(crate) fn callers_of(&self, node: FnId) -> (found: Option<&IndexSet<u64>>)
        requires
            self.inv(),
        ensures
            match found {
                Some(set) => has_key(self@.backward, node) && set_items(*set) == self@.callers(node),
                None => !has_key(self@.backward, node),
            },
    {
        let found = map_get(&self.back_edges, node);
        proof {
            if let Some(set) = found {
                let i = choose|i: int| entry_at(self@.backward, i, node, set_items(*set));
                lemma_row_unique(self@.backward, i, node);
            }
        }
        found
    }

    /// Every function that the graph mentions is a definition of the table.
    pub proof fn lemma_nodes_known(&self, caller: FnId, callee: FnId)
        requires
            self.inv(),
            self@.calls(caller, callee) || self@.called_by(callee, caller),
        ensures
            self@.calls(caller, callee),
            self@.called_by(callee, caller),
            self@.expanded(caller),
            has_key(self@.backward, callee),
            self.table().calls(caller, callee),
            self.table().has(caller),
            self.table().has(callee),
    {
        let fw = self@.forward;
        assert(links(self@.backward, callee, caller) <==> links(fw, caller, callee));
        let i = choose|i: int| 0 <= i < fw.len() && (#[trigger] fw[i]).0 == caller && fw[i].1.contains(callee);
        assert(self.table().calls(fw[i].0, callee));
        self.table().lemma_callee_known(caller, callee);
        let bw = self@.backward;
        let j = choose|j: int| 0 <= j < bw.len() && (#[trigger] bw[j]).0 == callee && bw[j].1.contains(caller);
    }

    /// The callees of each expanded function, row by row.
    pub fn forward(&self) -> (rows: Vec<(FnId, Vec<FnId>)>)
        ensures
            rows_of(rows@) == self@.forward,
    {
        rows_in(&self.edges)
    }

    /// The callers of each called function, row by row.
    pub fn backward(&self) -> (rows: Vec<(FnId, Vec<FnId>)>)
        ensures
            rows_of(rows@) == self@.backward,
    {
        rows_in(&self.back_edges)
    }
}

/// The direct callees of a function, each once, in the order of their
/// first reference.
fn direct_callees(item: &FnItem) -> (found: (IndexSet<u64>, Vec<FnId>))
    ensures
        set_items(found.0) == item.callees(),
        found.1@ == item.callees(),
{
    let mut set = set_new();
    let mut list: Vec<FnId> = Vec::new();
    match &item.body {
        Some(body) => {
            let mut k: usize = 0;
            while k < body.operands.len()
                invariant
                    k <= body.operands@.len(),
                    set_items(set) == distinct_callees(body.operands@.take(k as int)),
                    list@ == set_items(set),
                decreases body.operands@.len() - k,
            {
                proof {
                    assert(body.operands@.take(k + 1).drop_last() =~= body.operands@.take(k as int));
                }
                match body.operands[k].callee {
                    Some(callee) => {
                        if set_insert(&mut set, callee) {
                            list.push(callee);
                        }
                    },
                    None => {},
                }
                k = k + 1;
            }
            proof {
                assert(body.operands@.take(k as int) =~= body.operands@);
            }
        },
        None => {},
    }
    (set, list)
}

/// Enters `item` under `key`: into the set that the map has for `key`, or
/// into a new one.
pub(crate) fn add_link(map: &mut IndexMap<u64, IndexSet<u64>>, key: u64, item: u64)
    requires
        distinct_keys(map_entries(*old(map))),
    ensures
        map_entries(*final(map)) == with_link(map_entries(*old(map)), key, item),
{
    let ghost before = map_entries(*map);
    match map_get_mut(map, key) {
        Some(items) => {
            let ghost had = set_items(*items);
            let _ = set_insert(items, item);
            proof {
                let grown = push_new(had, item);
                let i = choose|i: int|
                    {
                        &&& entry_at(before, i, key, had)
                        &&& map_entries(*map) == before.update(i, (key, grown))
                    };
                lemma_row_unique(before, i, key);
            }
        },
        None => {
            let mut items = set_new();
            let _ = set_insert(&mut items, item);
            assert(set_items(items) =~= seq![item]);
            map_insert(map, key, items);
        },
    }
}

/// The rows of a map, copied out.
fn rows_in(map: &IndexMap<u64, IndexSet<u64>>) -> (rows: Vec<(FnId, Vec<FnId>)>)
    ensures
        rows_of(rows@) == map_entries(*map),
{
    let ghost adj = map_entries(*map);
    let mut rows: Vec<(FnId, Vec<FnId>)> = Vec::new();
    let n = map_len(map);
    let mut i: usize = 0;
    while i < n
        invariant
            i <= n,
            n == adj.len(),
            adj == map_entries(*map),
            rows_of(rows@) == adj.take(i as int),
        decreases n - i,
    {
        let ghost had = rows@;
        if let Some((key, set)) = map_get_index(map, i) {
            let mut items: Vec<FnId> = Vec::new();
            let m = set_len(set);
            let mut j: usize = 0;
            while j < m
                invariant
                    j <= m,
                    m == set_items(*set).len(),
                    items@ == set_items(*set).take(j as int),
                decreases m - j,
            {
                if let Some(item) = set_get_index(set, j) {
                    items.push(item);
                }
                proof {
                    let all = set_items(*set);
                    assert(all.take(j + 1) =~= all.take(j as int).push(all[j as int]));
                }
                j = j + 1;
            }
            proof {
                assert(set_items(*set).take(j as int) =~= set_items(*set));
            }
            rows.push((key, items));
            proof {
                assert(rows_of(rows@) =~= rows_of(had).push(adj[i as int]));
                assert(adj.take(i + 1) =~= adj.take(i as int).push(adj[i as int]));
            }
        }
        i = i + 1;
    }
    proof {
        assert(adj.take(i as int) =~= adj);
    }
    rows
}

/// Brings a map into canonical order: the rows by the display name of
/// their key, then the items of each row.
fn sort_rows(m: &mut IndexMap<u64, IndexSet<u64>>, table: &FnTable)
    requires
        distinct_keys(map_entries(*old(m))),
        forall|i: int|
            0 <= i < map_entries(*old(m)).len() ==> table.has((#[trigger] map_entries(*old(m))[i]).0),
        forall|i: int, item: u64|
            0 <= i < map_entries(*old(m)).len() && (#[trigger] map_entries(*old(m))[i]).1.contains(item)
                ==> #[trigger] table.has(item),
    ensures
        canonical_of(table, map_entries(*old(m)), map_entries(*final(m))),
{
    let ghost before = map_entries(*m);
    map_sort_by_name(m, table);
    let ghost mid = map_entries(*m);
    proof {
        lemma_keys_of(before);
        lemma_keys_of(mid);
        lemma_sorted_same_items(table, keys_of(before), keys_of(mid));
    }
    let n = map_len(m);
    let mut i: usize = 0;
    while i < n
        invariant
            i <= n,
            n == mid.len(),
            map_entries(*m).len() == n,
            distinct_keys(mid),
            forall|j: int| 0 <= j < n ==> before.contains(#[trigger] mid[j]),
            forall|j: int, item: u64|
                0 <= j < before.len() && (#[trigger] before[j]).1.contains(item) ==> #[trigger] table.has(
                    item,
                ),
            forall|j: int| 0 <= j < n ==> (#[trigger] map_entries(*m)[j]).0 == mid[j].0,
            forall|j: int|
                0 <= j < i ==> sorted_by_name(table, mid[j].1, (#[trigger] map_entries(*m)[j]).1),
            forall|j: int| i <= j < n ==> (#[trigger] map_entries(*m)[j]).1 == mid[j].1,
        decreases n - i,
    {
        let ghost cur = map_entries(*m);
        let key = match map_get_index(m, i) {
            Some((key, _)) => key,
            None => {
                return ;
            },
        };
        proof {
            assert(cur[i as int].0 == key);
            assert forall|p: int, q: int| 0 <= p < q < cur.len() implies (#[trigger] cur[p]).0 != (
            #[trigger] cur[q]).0 by {
                assert(mid[p].0 != mid[q].0);
            }
        }
        match map_get_mut(m, key) {
            Some(set) => {
                let ghost items = set_items(*set);
                proof {
                    assert(exists|p: int| entry_at(cur, p, key, items));
                    let p = choose|p: int| entry_at(cur, p, key, items);
                    lemma_row_unique(cur, p, key);
                    lemma_row_unique(cur, i as int, key);
                    assert(items == mid[i as int].1);
                    let q = choose|q: int| 0 <= q < before.len() && before[q] == mid[i as int];
                    assert forall|x: int| 0 <= x < items.len() implies table.has(#[trigger] items[x]) by {
                        assert(before[q].1.contains(items[x]));
                    }
                }
                set_sort_by_name(set, table);
                proof {
                    let next = map_entries(*m);
                    let sorted = set_items(*set);
                    let p = choose|p: int|
                        {
                            &&& entry_at(cur, p, key, items)
                            &&& next == cur.update(p, (key, sorted))
                        };
                    lemma_row_unique(cur, p, key);
                    lemma_row_unique(cur, i as int, key);
                    assert forall|j: int| 0 <= j < i + 1 implies sorted_by_name(
                        table,
                        mid[j].1,
                        (#[trigger] next[j]).1,
                    ) by {
                        if j < i {
                            assert(next[j] == cur[j]);
                        }
                    }
                }
            },
            None => {
                proof {
                    assert(cur[i as int].0 == key);
                    assert(has_key(cur, key));
                }
            },
        }
        i = i + 1;
    }
    proof {
        let after = map_entries(*m);
        lemma_keys_of(after);
        assert(keys_of(after) =~= keys_of(mid));
        assert forall|j: int| 0 <= j < after.len() implies sorted_by_name(
            table,
            row(before, (#[trigger] after[j]).0),
            after[j].1,
        ) by {
            let q = choose|q: int| 0 <= q < before.len() && before[q] == mid[j];
            lemma_row_unique(before, q, mid[j].0);
        }
    }
}

} // verus!
