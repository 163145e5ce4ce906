//! Where in a caller's body a failure sink can be reached from: the
//! operations that refer to a function on some call path to the sink, and
//! that lie within the body.

use crate::adjacency::{
    distinct_items, distinct_keys, lemma_with_link, links, with_link, Adjacency,
};
use crate::call_graph::{add_link, CallGraph, GraphView};
use crate::detect::Detect;
use crate::diagnostics::{lemma_spans_of, spans_of, with_spots, PanicSpots, SpanSet, SpotsView};
use crate::fn_item::{Body, FnId, FnTable, Operand};
use crate::indexed::{
    map_entries, map_get_index, map_len, map_new, set_contains, set_get_index,
    set_insert, set_items, set_len, set_new,
};
use crate::seqs::{lemma_merge_new, lemma_merge_new_step, lemma_push_new_contains, merge_new};
use crate::span::Span;
use indexmap::IndexMap;
use indexmap::IndexSet;
use vstd::prelude::*;

verus! {

impl GraphView {
    /// `node` is on some call path from `entry` to `sink`.
    pub open spec fn on_call_path(self, entry: FnId, sink: FnId, node: FnId) -> bool {
        exists|path: Seq<FnId>| #[trigger] self.is_call_path(entry, sink, path) && path.contains(node)
    }

    /// The functions on the call paths from `entry` to `sink`.
    pub open spec fn may_reach(self, entry: FnId, sink: FnId) -> Set<FnId> {
        Set::new(|node: FnId| self.on_call_path(entry, sink, node))
    }
}

/// The operation refers to a function of `may` and lies within `body`.
pub open spec fn qualifies(op: Operand, body: Span, may: Set<FnId>) -> bool {
    match op.callee {
        Some(callee) => may.contains(callee) && body.encloses(op.span),
        None => false,
    }
}

/// The spans of the qualifying operations, packed, and grouped by the
/// function referred to: a group for each function in the order of its
/// first qualifying reference, and in each group the spans in the order of
/// the operations, each once.
pub open spec fn grouped(ops: Seq<Operand>, body: Span, may: Set<FnId>) -> Adjacency
    decreases ops.len(),
{
    if ops.len() == 0 {
        Seq::empty()
    } else {
        let front = grouped(ops.drop_last(), body, may);
        let op = ops.last();
        if qualifies(op, body, may) {
            with_link(front, op.callee.unwrap(), op.span.spec_key())
        } else {
            front
        }
    }
}

/// The items of all rows, row after row, each item once.
pub open spec fn flat(adj: Adjacency) -> Seq<u64>
    decreases adj.len(),
{
    if adj.len() == 0 {
        Seq::empty()
    } else {
        merge_new(flat(adj.drop_last()), adj.last().1)
    }
}

/// The witness spans of a body: the spans of its qualifying operations,
/// group after group, each span once.
pub open spec fn witnesses(ops: Seq<Operand>, body: Span, may: Set<FnId>) -> Seq<Span> {
    spans_of(flat(grouped(ops, body, may)))
}

/// The groups hold the spans of the qualifying operations, each under the
/// function that the operation refers to, and nothing twice.
pub proof fn lemma_grouped(ops: Seq<Operand>, body: Span, may: Set<FnId>)
    ensures
        distinct_keys(grouped(ops, body, may)),
        distinct_items(grouped(ops, body, may)),
        forall|callee: FnId, key: u64| #[trigger]
            links(grouped(ops, body, may), callee, key) <==> exists|k: int|
                0 <= k < ops.len() && qualifies(#[trigger] ops[k], body, may) && ops[k].callee == Some(
                    callee,
                ) && ops[k].span.spec_key() == key,
    decreases ops.len(),
{
    let all = grouped(ops, body, may);
    if ops.len() == 0 {
        assert forall|callee: FnId, key: u64| !#[trigger] links(all, callee, key) by {}
    } else {
        let front_ops = ops.drop_last();
        let front = grouped(front_ops, body, may);
        let op = ops.last();
        lemma_grouped(front_ops, body, may);
        if qualifies(op, body, may) {
            lemma_with_link(front, op.callee.unwrap(), op.span.spec_key());
        }
        assert forall|callee: FnId, key: u64| #[trigger]
            links(all, callee, key) <==> exists|k: int|
                0 <= k < ops.len() && qualifies(#[trigger] ops[k], body, may) && ops[k].callee == Some(
                    callee,
                ) && ops[k].span.spec_key() == key by {
            if links(front, callee, key) {
                let k = choose|k: int|
                    0 <= k < front_ops.len() && qualifies(#[trigger] front_ops[k], body, may)
                        && front_ops[k].callee == Some(callee) && front_ops[k].span.spec_key() == key;
                assert(ops[k] == front_ops[k]);
            }
            if exists|k: int|
                0 <= k < ops.len() && qualifies(#[trigger] ops[k], body, may) && ops[k].callee == Some(
                    callee,
                ) && ops[k].span.spec_key() == key {
                let k = choose|k: int|
                    0 <= k < ops.len() && qualifies(#[trigger] ops[k], body, may) && ops[k].callee
                        == Some(callee) && ops[k].span.spec_key() == key;
                if k < front_ops.len() {
                    assert(front_ops[k] == ops[k]);
                    assert(links(front, callee, key));
                }
            }
            if qualifies(op, body, may) && op.callee == Some(callee) && op.span.spec_key() == key {
                assert(ops[ops.len() - 1] == op);
            }
        }
    }
}

/// The flat list holds the items of the rows, each once.
pub proof fn lemma_flat(adj: Adjacency)
    ensures
        flat(adj).no_duplicates(),
        forall|item: u64| #[trigger]
            flat(adj).contains(item) <==> exists|i: int|
                0 <= i < adj.len() && (#[trigger] adj[i]).1.contains(item),
    decreases adj.len(),
{
    if adj.len() == 0 {
    } else {
        let front = adj.drop_last();
        lemma_flat(front);
        lemma_merge_new(flat(front), adj.last().1);
        assert forall|item: u64| #[trigger]
            flat(adj).contains(item) <==> exists|i: int|
                0 <= i < adj.len() && (#[trigger] adj[i]).1.contains(item) by {
            if flat(front).contains(item) {
                let i = choose|i: int| 0 <= i < front.len() && (#[trigger] front[i]).1.contains(item);
                assert(adj[i] == front[i]);
            }
            if adj.last().1.contains(item) {
                assert(adj[adj.len() - 1].1.contains(item));
            }
            if exists|i: int| 0 <= i < adj.len() && (#[trigger] adj[i]).1.contains(item) {
                let i = choose|i: int| 0 <= i < adj.len() && (#[trigger] adj[i]).1.contains(item);
                if i < front.len() {
                    assert(front[i] == adj[i]);
                }
            }
        }
    }
}

/// The witness spans are the spans of the qualifying operations, each once.
pub proof fn lemma_witnesses(ops: Seq<Operand>, body: Span, may: Set<FnId>)
    ensures
        witnesses(ops, body, may).no_duplicates(),
        forall|span: Span| #[trigger]
            witnesses(ops, body, may).contains(span) <==> exists|k: int|
                0 <= k < ops.len() && qualifies(#[trigger] ops[k], body, may) && ops[k].span == span,
{
    let adj = grouped(ops, body, may);
    lemma_grouped(ops, body, may);
    lemma_flat(adj);
    lemma_spans_of(flat(adj));
    assert forall|span: Span| #[trigger]
        witnesses(ops, body, may).contains(span) <==> exists|k: int|
            0 <= k < ops.len() && qualifies(#[trigger] ops[k], body, may) && ops[k].span == span by {
        let key = span.spec_key();
        if flat(adj).contains(key) {
            let i = choose|i: int| 0 <= i < adj.len() && (#[trigger] adj[i]).1.contains(key);
            assert(links(adj, adj[i].0, key));
            let k = choose|k: int|
                0 <= k < ops.len() && qualifies(#[trigger] ops[k], body, may) && ops[k].callee == Some(
                    adj[i].0,
                ) && ops[k].span.spec_key() == key;
            Span::lemma_key_injective(ops[k].span, span);
        }
        if exists|k: int|
            0 <= k < ops.len() && qualifies(#[trigger] ops[k], body, may) && ops[k].span == span {
            let k = choose|k: int|
                0 <= k < ops.len() && qualifies(#[trigger] ops[k], body, may) && ops[k].span == span;
            let callee = ops[k].callee.unwrap();
            assert(links(adj, callee, key));
            let i = choose|i: int|
                0 <= i < adj.len() && (#[trigger] adj[i]).0 == callee && adj[i].1.contains(key);
        }
    }
}

/// Nothing qualifies where no function may reach the sink.
pub proof fn lemma_no_witnesses(ops: Seq<Operand>, body: Span, may: Set<FnId>)
    requires
        forall|node: FnId| !may.contains(node),
    ensures
        grouped(ops, body, may).len() == 0,
        witnesses(ops, body, may).len() == 0,
    decreases ops.len(),
{
    if ops.len() > 0 {
        lemma_no_witnesses(ops.drop_last(), body, may);
    }
}

/// The records after one entry was examined against one sink: the witnesses
/// in the entry's body are handed in under the entry. An entry without a
/// resident body changes nothing.
pub open spec fn located(
    view: GraphView,
    table: FnTable,
    records: Seq<SpotsView>,
    entry: FnId,
    sink: FnId,
) -> Seq<SpotsView> {
    match table.body(entry) {
        Some(body) => with_spots(
            records,
            entry,
            table@[entry as int].span,
            body.span,
            witnesses(body.operands@, body.span, view.may_reach(entry, sink)),
        ),
        None => records,
    }
}

/// The records after one entry was examined against each sink in turn.
pub open spec fn located_all(
    view: GraphView,
    table: FnTable,
    records: Seq<SpotsView>,
    entry: FnId,
    sinks: Seq<FnId>,
) -> Seq<SpotsView>
    decreases sinks.len(),
{
    if sinks.len() == 0 {
        records
    } else {
        located(
            view,
            table,
            located_all(view, table, records, entry, sinks.drop_last()),
            entry,
            sinks.last(),
        )
    }
}

/// The records of a pass: each entry in turn, examined against each sink.
pub open spec fn report(view: GraphView, table: FnTable, entries: Seq<FnId>, sinks: Seq<FnId>) -> Seq<
    SpotsView,
>
    decreases entries.len(),
{
    if entries.len() == 0 {
        Seq::empty()
    } else {
        located_all(
            view,
            table,
            report(view, table, entries.drop_last(), sinks),
            entries.last(),
            sinks,
        )
    }
}

/// Without a sink there is nothing to report.
pub proof fn lemma_report_without_sinks(view: GraphView, table: FnTable, entries: Seq<FnId>)
    ensures
        report(view, table, entries, Seq::empty()).len() == 0,
    decreases entries.len(),
{
    if entries.len() > 0 {
        lemma_report_without_sinks(view, table, entries.drop_last());
    }
}

/// The search for witnesses in one body.
struct LocalPanicSpot {
    caller_body: Span,
    fn_may_panic: IndexSet<u64>,
    panic_spots: IndexMap<u64, IndexSet<u64>>,
}

impl LocalPanicSpot {
    /// The functions that may reach the sink.
    spec fn may(&self) -> Set<FnId> {
        Set::new(|node: FnId| set_items(self.fn_may_panic).contains(node))
    }

    /// A search in the body at `body` for references to the functions on
    /// `path`.
    fn new(path: &Vec<Vec<FnId>>, body: Span) -> (local: LocalPanicSpot)
        ensures
            local.caller_body == body,
            map_entries(local.panic_spots).len() == 0,
            forall|node: FnId|
                local.may().contains(node) <==> exists|k: int|
                    0 <= k < path@.len() && (#[trigger] path@[k])@.contains(node),
    {
        let mut fn_may_panic = set_new();
        let mut k: usize = 0;
        while k < path.len()
            invariant
                k <= path@.len(),
                forall|node: FnId| #[trigger]
                    set_items(fn_may_panic).contains(node) <==> exists|l: int|
                        0 <= l < k && (#[trigger] path@[l])@.contains(node),
            decreases path@.len() - k,
        {
            let ghost had = set_items(fn_may_panic);
            let one = &path[k];
            let mut i: usize = 0;
            while i < one.len()
                invariant
                    i <= one@.len(),
                    0 <= k < path@.len(),
                    one == &path@[k as int],
                    forall|node: FnId| #[trigger]
                        set_items(fn_may_panic).contains(node) <==> had.contains(node) || one@.take(
                            i as int,
                        ).contains(node),
                decreases one@.len() - i,
            {
                let ghost mid = set_items(fn_may_panic);
                let _ = set_insert(&mut fn_may_panic, one[i]);
                proof {
                    let shorter = one@.take(i as int);
                    let longer = one@.take(i + 1);
                    assert(longer =~= shorter.push(one@[i as int]));
                    lemma_push_new_contains(mid, one@[i as int]);
                    assert forall|node: FnId| #[trigger]
                        set_items(fn_may_panic).contains(node) <==> had.contains(node)
                            || longer.contains(node) by {
                        assert(set_items(fn_may_panic).contains(node) <==> node == one@[i as int]
                            || mid.contains(node));
                        assert(mid.contains(node) <==> had.contains(node) || shorter.contains(node));
                        assert(longer[i as int] == one@[i as int]);
                        if shorter.contains(node) {
                            let x = choose|x: int| 0 <= x < shorter.len() && shorter[x] == node;
                            assert(longer[x] == node);
                        }
                        if longer.contains(node) {
                            let x = choose|x: int| 0 <= x < longer.len() && longer[x] == node;
                            if x < i {
                                assert(shorter[x] == node);
                            }
                        }
                    }
                }
                i = i + 1;
            }
            proof {
                assert(one@.take(i as int) =~= one@);
                assert forall|node: FnId| #[trigger]
                    set_items(fn_may_panic).contains(node) <==> exists|l: int|
                        0 <= l < k + 1 && (#[trigger] path@[l])@.contains(node) by {
                    assert(had.contains(node) <==> exists|l: int|
                        0 <= l < k && (#[trigger] path@[l])@.contains(node));
                    if had.contains(node) {
                        let l = choose|l: int| 0 <= l < k && (#[trigger] path@[l])@.contains(node);
                        assert(path@[l]@.contains(node));
                    }
                    if one@.contains(node) {
                        assert(path@[k as int]@.contains(node));
                    }
                }
            }
            k = k + 1;
        }
        LocalPanicSpot { caller_body: body, fn_may_panic, panic_spots: map_new() }
    }

    /// Whether `span` lies within the body.
    fn contains(&self, span: Span) -> (inside: bool)
        ensures
            inside == self.caller_body.encloses(span),
    {
        crate::span::contains_span(self.caller_body, span)
    }

    /// Records the span of an operation that qualifies.
    fn check_panic_spot(&mut self, op: &Operand)
        requires
            distinct_keys(map_entries(old(self).panic_spots)),
        ensures
            final(self).caller_body == old(self).caller_body,
            final(self).fn_may_panic == old(self).fn_may_panic,
            map_entries(final(self).panic_spots) == if qualifies(
                *op,
                old(self).caller_body,
                old(self).may(),
            ) {
                with_link(map_entries(old(self).panic_spots), op.callee.unwrap(), op.span.spec_key())
            } else {
                map_entries(old(self).panic_spots)
            },
    {
        if let Some(fn_def) = op.callee {
            if set_contains(&self.fn_may_panic, fn_def) && self.contains(op.span) {
                add_link(&mut self.panic_spots, fn_def, op.span.key());
            }
        }
    }

    /// Walks the operations of the body, each once.
    fn visit_body(&mut self, body: &Body)
        requires
            map_entries(old(self).panic_spots).len() == 0,
        ensures
            final(self).caller_body == old(self).caller_body,
            final(self).fn_may_panic == old(self).fn_may_panic,
            map_entries(final(self).panic_spots) == grouped(
                body.operands@,
                old(self).caller_body,
                old(self).may(),
            ),
    {
        let ghost span = self.caller_body;
        let ghost may = self.may();
        let mut k: usize = 0;
        while k < body.operands.len()
            invariant
                k <= body.operands@.len(),
                self.caller_body == span,
                self.fn_may_panic == old(self).fn_may_panic,
                may == self.may(),
                map_entries(self.panic_spots) == grouped(body.operands@.take(k as int), span, may),
            decreases body.operands@.len() - k,
        {
            proof {
                lemma_grouped(body.operands@.take(k as int), span, may);
                assert(body.operands@.take(k + 1).drop_last() =~= body.operands@.take(k as int));
            }
            self.check_panic_spot(&body.operands[k]);
            k = k + 1;
        }
        proof {
            assert(body.operands@.take(k as int) =~= body.operands@);
        }
    }

    /// The spans found, group after group, each once.
    fn panic_spots(self) -> (found: SpanSet)
        ensures
            found.wf(),
            found@ == spans_of(flat(map_entries(self.panic_spots))),
    {
        let ghost adj = map_entries(self.panic_spots);
        let mut keys = set_new();
        let n = map_len(&self.panic_spots);
        let mut i: usize = 0;
        while i < n
            invariant
                i <= n,
                n == adj.len(),
                adj == map_entries(self.panic_spots),
                set_items(keys) == flat(adj.take(i as int)),
            decreases n - i,
        {
            let ghost had = set_items(keys);
            if let Some((_, group)) = map_get_index(&self.panic_spots, i) {
                let ghost row = set_items(*group);
                let m = set_len(group);
                let mut j: usize = 0;
                while j < m
                    invariant
                        j <= m,
                        m == row.len(),
                        row == set_items(*group),
                        set_items(keys) == merge_new(had, row.take(j as int)),
                    decreases m - j,
                {
                    if let Some(key) = set_get_index(group, j) {
                        let _ = set_insert(&mut keys, key);
                        proof {
                            lemma_merge_new_step(had, row, j as int);
                        }
                    }
                    j = j + 1;
                }
                proof {
                    assert(row.take(j as int) =~= row);
                    assert(adj.take(i + 1).drop_last() =~= adj.take(i as int));
                    assert(adj.take(i + 1).last() == adj[i as int]);
                }
            }
            i = i + 1;
        }
        proof {
            assert(adj.take(i as int) =~= adj);
            lemma_flat(adj);
        }
        SpanSet::from_keys(keys)
    }
}

impl CallGraph {
    /// Examines one entry against one sink: where call paths lead from the
    /// entry to the sink, the witnesses in the entry's body are handed in.
    fn locate(&self, entry: FnId, sink: FnId, spots: &mut PanicSpots)
        requires
            self.wf(),
            old(spots).wf(),
        ensures
            final(spots).wf(),
            final(spots)@ == located(self@, self.table(), old(spots)@, entry, sink),
    {
        let item = match self.fn_table().get(entry) {
            Some(item) => item,
            None => {
                return ;
            },
        };
        let body = match &item.body {
            Some(body) => body,
            None => {
                return ;
            },
        };
        let path = self.call_path(entry, sink);
        let ghost may = self@.may_reach(entry, sink);
        if path.len() == 0 {
            proof {
                assert forall|node: FnId| !may.contains(node) by {
                    if self@.on_call_path(entry, sink, node) {
                        let found = choose|found: Seq<FnId>| #[trigger]
                            self@.is_call_path(entry, sink, found) && found.contains(node);
                        let k = choose|k: int| 0 <= k < path@.len() && (#[trigger] path@[k])@ == found;
                    }
                }
                lemma_no_witnesses(body.operands@, body.span, may);
            }
            return ;
        }
        let mut local_spots = LocalPanicSpot::new(&path, body.span);
        proof {
            assert forall|node: FnId| local_spots.may().contains(node) <==> may.contains(node) by {
                if local_spots.may().contains(node) {
                    let k = choose|k: int| 0 <= k < path@.len() && (#[trigger] path@[k])@.contains(node);
                    assert(self@.is_call_path(entry, sink, path@[k]@));
                }
                if may.contains(node) {
                    let found = choose|found: Seq<FnId>| #[trigger]
                        self@.is_call_path(entry, sink, found) && found.contains(node);
                    let k = choose|k: int| 0 <= k < path@.len() && (#[trigger] path@[k])@ == found;
                    assert(path@[k]@.contains(node));
                }
            }
            assert(local_spots.may() =~= may);
        }
        local_spots.visit_body(body);
        let found = local_spots.panic_spots();
        spots.add(entry, item.span, body.span, &found);
    }

    /// The diagnostic records of a pass: each entry of `detect` is examined
    /// against each sink that `detect` has found.
    pub fn analyze(&self, detect: &Detect) -> (spots: PanicSpots)
        requires
            self.wf(),
        ensures
            spots.wf(),
            spots@ == report(self@, self.table(), detect.entry_list(), detect.sinks()),
    {
        let mut spots = PanicSpots::new();
        let v_panic = detect.with_panic_item();
        let entries = detect.entries();
        if v_panic.len() == 0 {
            proof {
                lemma_report_without_sinks(self@, self.table(), entries@);
                assert(v_panic@ =~= Seq::<FnId>::empty());
                assert(spots@ =~= report(self@, self.table(), entries@, v_panic@));
            }
            return spots;
        }
        let mut e: usize = 0;
        while e < entries.len()
            invariant
                e <= entries@.len(),
                self.wf(),
                spots.wf(),
                v_panic@ == detect.sinks(),
                entries@ == detect.entry_list(),
                spots@ == report(self@, self.table(), entries@.take(e as int), v_panic@),
            decreases entries@.len() - e,
        {
            let entry = entries[e];
            let ghost before = spots@;
            let mut s: usize = 0;
            while s < v_panic.len()
                invariant
                    s <= v_panic@.len(),
                    self.wf(),
                    spots.wf(),
                    spots@ == located_all(
                        self@,
                        self.table(),
                        before,
                        entry,
                        v_panic@.take(s as int),
                    ),
                decreases v_panic@.len() - s,
            {
                proof {
                    assert(v_panic@.take(s + 1).drop_last() =~= v_panic@.take(s as int));
                }
                self.locate(entry, v_panic[s], &mut spots);
                s = s + 1;
            }
            proof {
                assert(v_panic@.take(s as int) =~= v_panic@);
                assert(entries@.take(e + 1).drop_last() =~= entries@.take(e as int));
            }
            e = e + 1;
        }
        proof {
            assert(entries@.take(e as int) =~= entries@);
        }
        spots
    }
}

} // verus!
