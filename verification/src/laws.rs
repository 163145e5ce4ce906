//! What holds of every graph and of every report.

use crate::adjacency::{
    distinct_items, distinct_keys, lemma_keys_of, lemma_links_row, lemma_row_unique, links,
    no_empty_rows, row_index, Adjacency,
};
use crate::call_graph::{CallGraph, GraphView};
use crate::canonical::{ascending, canonical};
use crate::diagnostics::{has_call, lemma_with_spots, records_wf, SpotsView};
use crate::fn_item::{FnId, FnTable};
use crate::growth::reached;
use crate::indexed::{has_key, keys_of};
use crate::localize::{lemma_witnesses, located, located_all, qualifies, report, witnesses};
use crate::names::{
    lemma_lex_antisymmetric, lemma_lex_reflexive, lemma_lex_total, lemma_lex_transitive,
};
use crate::span::Span;
use vstd::prelude::*;

verus! {

/// No duplicate edges: however often a body refers to a function, the
/// graph records the callee once under the caller, and the caller once
/// under the callee.
pub proof fn lemma_no_duplicate_edges(graph: CallGraph, node: FnId)
    requires
        graph.inv(),
    ensures
        graph@.callees(node).no_duplicates(),
        graph@.callers(node).no_duplicates(),
        forall|callee: FnId|
            graph@.expanded(node) ==> (graph@.callees(node).contains(callee) <==> graph.table().calls(
                node,
                callee,
            )),
{
    let fw = graph@.forward;
    let bw = graph@.backward;
    if has_key(fw, node) {
        let i = row_index(fw, node);
        lemma_row_unique(fw, i, node);
        assert(fw[i].1.no_duplicates());
        assert forall|callee: FnId|
            graph@.callees(node).contains(callee) <==> graph.table().calls(node, callee) by {
            assert(fw[i].1.contains(callee) <==> graph.table().calls(fw[i].0, callee));
        }
    }
    if has_key(bw, node) {
        let i = row_index(bw, node);
        lemma_row_unique(bw, i, node);
        assert(bw[i].1.no_duplicates());
    }
}

/// Edge symmetry: a function is among the callees of another exactly when
/// the other is among its callers.
pub proof fn lemma_edge_symmetry(graph: CallGraph, u: FnId, v: FnId)
    requires
        graph.inv(),
    ensures
        graph@.callees(u).contains(v) <==> graph@.callers(v).contains(u),
{
    lemma_links_row(graph@.forward, u, v);
    lemma_links_row(graph@.backward, v, u);
    assert(links(graph@.backward, v, u) <==> links(graph@.forward, u, v));
}

/// The order by display name is an order: total and transitive, and
/// functions that come no later than each other have one name. This is
/// what the sorts are handed.
pub proof fn lemma_name_order(table: FnTable, a: FnId, b: FnId, c: FnId)
    ensures
        table.name_le(a, a),
        table.name_le(a, b) || table.name_le(b, a),
        table.name_le(a, b) && table.name_le(b, c) ==> table.name_le(a, c),
        table.name_le(a, b) && table.name_le(b, a) ==> table.name(a) == table.name(b),
{
    lemma_lex_reflexive(table.name(a));
    lemma_lex_total(table.name(a), table.name(b));
    if table.name_le(a, b) && table.name_le(b, c) {
        lemma_lex_transitive(table.name(a), table.name(b), table.name(c));
    }
    if table.name_le(a, b) && table.name_le(b, a) {
        lemma_lex_antisymmetric(table.name(a), table.name(b));
    }
}

/// No two of the functions have the same display name.
pub open spec fn told_apart(table: FnTable, nodes: Seq<FnId>) -> bool {
    forall|i: int, j: int|
        0 <= i < nodes.len() && 0 <= j < nodes.len() && table.name(#[trigger] nodes[i]) == table.name(
            #[trigger] nodes[j],
        ) ==> nodes[i] == nodes[j]
}

/// Functions of distinct names have one ascending order only.
pub proof fn lemma_ascending_unique(table: FnTable, x: Seq<FnId>, y: Seq<FnId>)
    requires
        ascending(&table, x),
        ascending(&table, y),
        x.no_duplicates(),
        y.no_duplicates(),
        forall|node: FnId| x.contains(node) <==> y.contains(node),
        told_apart(table, x),
    ensures
        x == y,
    decreases x.len(),
{
    if x.len() == 0 {
        if y.len() > 0 {
            assert(y.contains(y[0]));
        }
        assert(x =~= y);
    } else {
        assert(x.contains(x[0]));
        let j = choose|j: int| 0 <= j < y.len() && y[j] == x[0];
        assert(y.contains(y[0]));
        let i = choose|i: int| 0 <= i < x.len() && x[i] == y[0];
        if i > 0 {
            assert(table.name_le(x[0], x[i]));
            if j > 0 {
                assert(table.name_le(y[0], y[j]));
                lemma_lex_antisymmetric(table.name(x[0]), table.name(x[i]));
            }
        }
        assert(x[0] == y[0]);
        let xs = x.subrange(1, x.len() as int);
        let ys = y.subrange(1, y.len() as int);
        assert forall|node: FnId| xs.contains(node) <==> ys.contains(node) by {
            if xs.contains(node) {
                let p = choose|p: int| 0 <= p < xs.len() && xs[p] == node;
                assert(x[p + 1] == node);
                assert(x.contains(node));
                let q = choose|q: int| 0 <= q < y.len() && y[q] == node;
                assert(q != 0) by {
                    if q == 0 {
                        assert(x[p + 1] == x[0]);
                    }
                }
                assert(ys[q - 1] == node);
            }
            if ys.contains(node) {
                let q = choose|q: int| 0 <= q < ys.len() && ys[q] == node;
                assert(y[q + 1] == node);
                assert(y.contains(node));
                let p = choose|p: int| 0 <= p < x.len() && x[p] == node;
                assert(p != 0) by {
                    if p == 0 {
                        assert(y[q + 1] == y[0]);
                    }
                }
                assert(xs[p - 1] == node);
            }
        }
        assert forall|p: int, q: int| 0 <= p < q < xs.len() implies table.name_le(
            #[trigger] xs[p],
            #[trigger] xs[q],
        ) by {
            assert(table.name_le(x[p + 1], x[q + 1]));
        }
        assert forall|p: int, q: int| 0 <= p < q < ys.len() implies table.name_le(
            #[trigger] ys[p],
            #[trigger] ys[q],
        ) by {
            assert(table.name_le(y[p + 1], y[q + 1]));
        }
        assert forall|p: int, q: int| 0 <= p < xs.len() && 0 <= q < xs.len() && p != q implies xs[p]
            != xs[q] by {
            assert(x[p + 1] != x[q + 1]);
        }
        assert forall|p: int, q: int| 0 <= p < ys.len() && 0 <= q < ys.len() && p != q implies ys[p]
            != ys[q] by {
            assert(y[p + 1] != y[q + 1]);
        }
        assert forall|p: int, q: int|
            0 <= p < xs.len() && 0 <= q < xs.len() && table.name(#[trigger] xs[p]) == table.name(
                #[trigger] xs[q],
            ) implies xs[p] == xs[q] by {
            assert(xs[p] == x[p + 1] && xs[q] == x[q + 1]);
        }
        lemma_ascending_unique(table, xs, ys);
        assert(x =~= seq![x[0]] + xs);
        assert(y =~= seq![y[0]] + ys);
    }
}

/// Canonical maps with the same links, between functions of distinct
/// names, are the same map.
proof fn lemma_canonical_rows_unique(table: FnTable, a: Adjacency, b: Adjacency, nodes: Seq<FnId>)
    requires
        canonical(&table, a),
        canonical(&table, b),
        distinct_keys(a),
        distinct_keys(b),
        distinct_items(a),
        distinct_items(b),
        forall|key: FnId| #[trigger] has_key(a, key) <==> has_key(b, key),
        forall|key: FnId, item: FnId| #[trigger] links(a, key, item) <==> links(b, key, item),
        told_apart(table, nodes),
        forall|key: FnId| #[trigger] has_key(a, key) ==> nodes.contains(key),
        forall|key: FnId, item: FnId| #[trigger] links(a, key, item) ==> nodes.contains(item),
    ensures
        a == b,
{
    lemma_keys_of(a);
    lemma_keys_of(b);
    assert forall|node: FnId| keys_of(a).contains(node) <==> keys_of(b).contains(node) by {
        assert(has_key(a, node) <==> has_key(b, node));
    }
    assert forall|i: int| 0 <= i < keys_of(a).len() implies nodes.contains(#[trigger] keys_of(a)[i]) by {
        assert(keys_of(a).contains(keys_of(a)[i]));
        assert(has_key(a, keys_of(a)[i]));
    }
    lemma_told_apart_within(table, nodes, keys_of(a));
    lemma_ascending_unique(table, keys_of(a), keys_of(b));
    assert(a.len() == b.len());
    assert forall|i: int| 0 <= i < a.len() implies a[i] == b[i] by {
        let key = a[i].0;
        assert(keys_of(a)[i] == keys_of(b)[i]);
        assert(b[i].0 == key);
        assert forall|item: FnId| a[i].1.contains(item) <==> b[i].1.contains(item) by {
            lemma_row_unique(a, i, key);
            lemma_row_unique(b, i, key);
            lemma_links_row(a, key, item);
            lemma_links_row(b, key, item);
        }
        assert forall|p: int| 0 <= p < a[i].1.len() implies nodes.contains(#[trigger] a[i].1[p]) by {
            assert(a[i].1.contains(a[i].1[p]));
            assert(links(a, key, a[i].1[p]));
        }
        lemma_told_apart_within(table, nodes, a[i].1);
        lemma_ascending_unique(table, a[i].1, b[i].1);
    }
    assert(a =~= b);
}

/// What holds of some functions holds of those among them.
proof fn lemma_told_apart_within(table: FnTable, nodes: Seq<FnId>, some: Seq<FnId>)
    requires
        told_apart(table, nodes),
        forall|i: int| 0 <= i < some.len() ==> nodes.contains(#[trigger] some[i]),
    ensures
        told_apart(table, some),
{
    assert forall|i: int, j: int|
        0 <= i < some.len() && 0 <= j < some.len() && table.name(#[trigger] some[i]) == table.name(
            #[trigger] some[j],
        ) implies some[i] == some[j] by {
        let p = choose|p: int| 0 <= p < nodes.len() && nodes[p] == some[i];
        let q = choose|q: int| 0 <= q < nodes.len() && nodes[q] == some[j];
        assert(table.name(nodes[p]) == table.name(nodes[q]));
    }
}

/// Determinism: two sorted graphs of one unit in which the same functions
/// are expanded are the same, in whatever order the bodies name their
/// callees and the functions were expanded, as long as no two expanded
/// functions share a display name.
pub proof fn lemma_canonical_graph_unique(a: CallGraph, b: CallGraph)
    requires
        a.wf(),
        b.wf(),
        canonical(&a.table(), a@.forward),
        canonical(&a.table(), a@.backward),
        canonical(&b.table(), b@.forward),
        canonical(&b.table(), b@.backward),
        a.table()@.len() == b.table()@.len(),
        forall|node: FnId| a.table().has(node) ==> a.table().name(node) == b.table().name(node),
        forall|caller: FnId, callee: FnId|
            a.table().calls(caller, callee) <==> b.table().calls(caller, callee),
        forall|node: FnId| a@.expanded(node) <==> b@.expanded(node),
        told_apart(a.table(), keys_of(a@.forward)),
    ensures
        a@ == b@,
{
    let table = a.table();
    let nodes = keys_of(a@.forward);
    let af = a@.forward;
    let bf = b@.forward;
    let ab = a@.backward;
    let bb = b@.backward;
    lemma_keys_of(af);
    assert forall|i: int| 0 <= i < bf.len() implies table.has((#[trigger] bf[i]).0) by {
        assert(b.table().has(bf[i].0));
    }
    assert forall|i: int, item: FnId|
        0 <= i < bf.len() && (#[trigger] bf[i]).1.contains(item) implies #[trigger] table.has(
        item,
    ) by {
        assert(links(bf, bf[i].0, item));
        b.lemma_nodes_known(bf[i].0, item);
    }
    assert forall|i: int| 0 <= i < bb.len() implies table.has((#[trigger] bb[i]).0) by {
        lemma_key_has_link(bb, bb[i].0);
        let item = choose|item: FnId| links(bb, bb[i].0, item);
        b.lemma_nodes_known(item, bb[i].0);
    }
    assert forall|i: int, item: FnId|
        0 <= i < bb.len() && (#[trigger] bb[i]).1.contains(item) implies #[trigger] table.has(
        item,
    ) by {
        assert(links(bb, bb[i].0, item));
        b.lemma_nodes_known(item, bb[i].0);
    }
    lemma_same_names(table, b.table(), bf);
    lemma_same_names(table, b.table(), bb);
    assert forall|key: FnId| #[trigger] has_key(af, key) <==> has_key(bf, key) by {
        assert(a@.expanded(key) <==> b@.expanded(key));
    }
    assert forall|key: FnId, item: FnId| #[trigger] links(af, key, item) <==> links(bf, key, item) by {
        lemma_links_known(a, key, item);
        lemma_links_known(b, key, item);
        assert(a@.expanded(key) <==> b@.expanded(key));
    }
    assert forall|key: FnId| #[trigger] has_key(af, key) implies nodes.contains(key) by {}
    assert forall|key: FnId, item: FnId| #[trigger] links(af, key, item) implies nodes.contains(
        item,
    ) by {
        let i = choose|i: int| 0 <= i < af.len() && (#[trigger] af[i]).0 == key && af[i].1.contains(item);
        assert(has_key(af, item));
    }
    lemma_canonical_rows_unique(table, af, bf, nodes);
    assert forall|key: FnId, item: FnId| #[trigger] links(ab, key, item) <==> links(bb, key, item) by {
        assert(links(ab, key, item) <==> links(af, item, key));
        assert(links(bb, key, item) <==> links(bf, item, key));
    }
    assert forall|key: FnId| #[trigger] has_key(ab, key) <==> has_key(bb, key) by {
        lemma_key_has_link(ab, key);
        lemma_key_has_link(bb, key);
        if has_key(ab, key) {
            let item = choose|item: FnId| links(ab, key, item);
            assert(links(bb, key, item));
        }
        if has_key(bb, key) {
            let item = choose|item: FnId| links(bb, key, item);
            assert(links(ab, key, item));
        }
    }
    assert forall|key: FnId| #[trigger] has_key(ab, key) implies nodes.contains(key) by {
        lemma_key_has_link(ab, key);
        let item = choose|item: FnId| links(ab, key, item);
        assert(links(af, item, key));
        let i = choose|i: int| 0 <= i < af.len() && (#[trigger] af[i]).0 == item && af[i].1.contains(key);
        assert(has_key(af, key));
    }
    assert forall|key: FnId, item: FnId| #[trigger] links(ab, key, item) implies nodes.contains(
        item,
    ) by {
        assert(links(af, item, key));
        let i = choose|i: int| 0 <= i < af.len() && (#[trigger] af[i]).0 == item && af[i].1.contains(key);
        assert(has_key(af, item));
    }
    lemma_canonical_rows_unique(table, ab, bb, nodes);
}

/// What can be reached depends on who calls whom only.
proof fn lemma_same_reach(a: FnTable, b: FnTable, from: FnId, to: FnId)
    requires
        forall|caller: FnId, callee: FnId| a.calls(caller, callee) <==> b.calls(caller, callee),
        a.reaches(from, to),
    ensures
        b.reaches(from, to),
{
    let path = choose|path: Seq<FnId>| #[trigger] a.is_chain(path) && path[0] == from && path.last() == to;
    assert forall|i: int| 0 <= i < path.len() - 1 implies b.calls(#[trigger] path[i], path[i + 1]) by {
        assert(a.calls(path[i], path[i + 1]));
    }
    assert(b.is_chain(path));
}

/// Determinism of a run: two graphs that were grown from the same roots
/// over the same unit and then sorted are the same, whatever the order of
/// the operations in the bodies, as long as no two expanded functions
/// share a display name.
pub proof fn lemma_runs_agree(a: CallGraph, b: CallGraph, roots: Seq<FnId>)
    requires
        a.wf(),
        b.wf(),
        canonical(&a.table(), a@.forward),
        canonical(&a.table(), a@.backward),
        canonical(&b.table(), b@.forward),
        canonical(&b.table(), b@.backward),
        a.table()@.len() == b.table()@.len(),
        forall|node: FnId| a.table().has(node) ==> a.table().name(node) == b.table().name(node),
        forall|caller: FnId, callee: FnId|
            a.table().calls(caller, callee) <==> b.table().calls(caller, callee),
        forall|node: FnId| #[trigger] a@.expanded(node) <==> reached(a.table(), roots, node),
        forall|node: FnId| #[trigger] b@.expanded(node) <==> reached(b.table(), roots, node),
        told_apart(a.table(), keys_of(a@.forward)),
    ensures
        a@ == b@,
{
    assert forall|node: FnId| a@.expanded(node) <==> b@.expanded(node) by {
        if reached(a.table(), roots, node) {
            let i = choose|i: int|
                0 <= i < roots.len() && a.table().has(#[trigger] roots[i]) && a.table().reaches(
                    roots[i],
                    node,
                );
            lemma_same_reach(a.table(), b.table(), roots[i], node);
        }
        if reached(b.table(), roots, node) {
            let i = choose|i: int|
                0 <= i < roots.len() && b.table().has(#[trigger] roots[i]) && b.table().reaches(
                    roots[i],
                    node,
                );
            lemma_same_reach(b.table(), a.table(), roots[i], node);
        }
    }
    lemma_canonical_graph_unique(a, b);
}

/// A row that is not empty gives its key a link.
proof fn lemma_key_has_link(adj: Adjacency, key: FnId)
    requires
        no_empty_rows(adj),
    ensures
        has_key(adj, key) <==> exists|item: FnId| links(adj, key, item),
{
    if has_key(adj, key) {
        let i = row_index(adj, key);
        assert(adj[i].1.len() > 0);
        assert(adj[i].1.contains(adj[i].1[0]));
        assert(links(adj, key, adj[i].1[0]));
    }
    if exists|item: FnId| links(adj, key, item) {
        let item = choose|item: FnId| links(adj, key, item);
        let i = choose|i: int| 0 <= i < adj.len() && (#[trigger] adj[i]).0 == key && adj[i].1.contains(item);
        assert(has_key(adj, key));
    }
}

/// A link forward is a direct call of an expanded function.
proof fn lemma_links_known(graph: CallGraph, caller: FnId, callee: FnId)
    requires
        graph.inv(),
    ensures
        links(graph@.forward, caller, callee) <==> graph@.expanded(caller) && graph.table().calls(
            caller,
            callee,
        ),
{
    let fw = graph@.forward;
    if links(fw, caller, callee) {
        let i = choose|i: int| 0 <= i < fw.len() && (#[trigger] fw[i]).0 == caller && fw[i].1.contains(callee);
        assert(graph.table().calls(fw[i].0, callee));
        assert(has_key(fw, caller));
    }
    if graph@.expanded(caller) && graph.table().calls(caller, callee) {
        let i = row_index(fw, caller);
        assert(fw[i].1.contains(callee) <==> graph.table().calls(fw[i].0, callee));
    }
}

/// An order by the names of one table is an order by the same names of
/// another.
proof fn lemma_same_names(a: FnTable, b: FnTable, adj: Adjacency)
    requires
        canonical(&b, adj),
        forall|node: FnId| a.has(node) ==> a.name(node) == b.name(node),
        forall|i: int| 0 <= i < adj.len() ==> a.has((#[trigger] adj[i]).0),
        forall|i: int, item: FnId|
            0 <= i < adj.len() && (#[trigger] adj[i]).1.contains(item) ==> #[trigger] a.has(item),
    ensures
        canonical(&a, adj),
{
    lemma_keys_of(adj);
    assert forall|i: int, j: int| 0 <= i < j < keys_of(adj).len() implies a.name_le(
        #[trigger] keys_of(adj)[i],
        #[trigger] keys_of(adj)[j],
    ) by {
        assert(b.name_le(keys_of(adj)[i], keys_of(adj)[j]));
        assert(a.has(adj[i].0) && a.has(adj[j].0));
    }
    assert forall|i: int| 0 <= i < adj.len() implies ascending(&a, (#[trigger] adj[i]).1) by {
        let items = adj[i].1;
        assert(ascending(&b, items));
        assert forall|p: int, q: int| 0 <= p < q < items.len() implies a.name_le(
            #[trigger] items[p],
            #[trigger] items[q],
        ) by {
            assert(b.name_le(items[p], items[q]));
            assert(items.contains(items[p]) && items.contains(items[q]));
            assert(a.has(items[p]) && a.has(items[q]));
        }
    }
}

/// `span` is a witness in the body of `entry`: the span of an operation
/// that refers to a function on a call path from `entry` to one of the
/// sinks, within the body, and neither the body nor the declaration.
pub open spec fn is_witness(
    view: GraphView,
    table: FnTable,
    sinks: Seq<FnId>,
    entry: FnId,
    span: Span,
) -> bool {
    match table.body(entry) {
        Some(body) => {
            &&& body.span.encloses(span)
            &&& span != body.span
            &&& span != table@[entry as int].span
            &&& exists|s: int, k: int|
                0 <= s < sinks.len() && 0 <= k < body.operands@.len() && qualifies(
                    #[trigger] body.operands@[k],
                    body.span,
                    view.may_reach(entry, #[trigger] sinks[s]),
                ) && body.operands@[k].span == span
        },
        None => false,
    }
}

/// The records are those of `entries`, each with the spans of its
/// declaration and body, and hold the witnesses of their callers and
/// nothing else.
pub open spec fn reports(
    view: GraphView,
    table: FnTable,
    entries: Seq<FnId>,
    sinks: Seq<FnId>,
    records: Seq<SpotsView>,
) -> bool {
    &&& records_wf(records)
    &&& forall|i: int|
        0 <= i < records.len() ==> {
            let record = #[trigger] records[i];
            &&& entries.contains(record.def)
            &&& table.body(record.def) matches Some(body) && record.caller == body.span
            &&& record.decl == table@[record.def as int].span
        }
    &&& forall|def: FnId, span: Span| #[trigger]
        has_call(records, def, span) <==> entries.contains(def) && is_witness(
            view,
            table,
            sinks,
            def,
            span,
        )
}

proof fn lemma_located(
    view: GraphView,
    table: FnTable,
    entries: Seq<FnId>,
    sinks: Seq<FnId>,
    records: Seq<SpotsView>,
    entry: FnId,
)
    requires
        reports(view, table, entries, sinks, records),
        sinks.len() > 0,
    ensures
        reports(
            view,
            table,
            entries.push(entry),
            sinks,
            located_all(view, table, records, entry, sinks),
        ),
{
    lemma_located_upto(view, table, entries, sinks, records, entry, sinks.len() as int);
    assert(sinks.take(sinks.len() as int) =~= sinks);
    let all = entries.push(entry);
    let after = located_all(view, table, records, entry, sinks);
    assert(all[entries.len() as int] == entry);
    assert forall|def: FnId| all.contains(def) <==> entries.contains(def) || def == entry by {
        if entries.contains(def) {
            let i = choose|i: int| 0 <= i < entries.len() && entries[i] == def;
            assert(all[i] == def);
        }
        if all.contains(def) {
            let i = choose|i: int| 0 <= i < all.len() && all[i] == def;
            if i < entries.len() {
                assert(entries[i] == def);
            }
        }
    }
    assert forall|def: FnId, span: Span| #[trigger]
        has_call(after, def, span) <==> all.contains(def) && is_witness(
            view,
            table,
            sinks,
            def,
            span,
        ) by {
        assert(has_call(records, def, span) <==> entries.contains(def) && is_witness(
            view,
            table,
            sinks,
            def,
            span,
        ));
        if def == entry && is_witness(view, table, sinks, def, span) {
            assert(is_witness(view, table, sinks.take(sinks.len() as int), entry, span));
        }
    }
    assert forall|i: int| 0 <= i < after.len() implies all.contains((#[trigger] after[i]).def) by {}
}

/// The records after `entry` was examined against the first sinks: what
/// was there, and the witnesses of `entry` against those sinks.
proof fn lemma_located_upto(
    view: GraphView,
    table: FnTable,
    entries: Seq<FnId>,
    sinks: Seq<FnId>,
    records: Seq<SpotsView>,
    entry: FnId,
    upto: int,
)
    requires
        reports(view, table, entries, sinks, records),
        0 <= upto <= sinks.len(),
    ensures
        ({
            let after = located_all(view, table, records, entry, sinks.take(upto));
            &&& records_wf(after)
            &&& forall|i: int|
                0 <= i < after.len() ==> {
                    let record = #[trigger] after[i];
                    &&& entries.contains(record.def) || record.def == entry
                    &&& table.body(record.def) matches Some(body) && record.caller == body.span
                    &&& record.decl == table@[record.def as int].span
                }
            &&& forall|def: FnId, span: Span| #[trigger]
                has_call(after, def, span) <==> has_call(records, def, span) || (def == entry
                    && is_witness(view, table, sinks.take(upto), entry, span))
        }),
    decreases upto,
{
    let some = sinks.take(upto);
    let after = located_all(view, table, records, entry, some);
    if upto == 0 {
        assert forall|def: FnId, span: Span| #[trigger]
            has_call(after, def, span) <==> has_call(records, def, span) || (def == entry
                && is_witness(view, table, some, entry, span)) by {}
    } else {
        let fewer = sinks.take(upto - 1);
        let sink = sinks[upto - 1];
        let before = located_all(view, table, records, entry, fewer);
        lemma_located_upto(view, table, entries, sinks, records, entry, upto - 1);
        assert(some.drop_last() =~= fewer);
        assert(some.last() == sink);
        assert(after == located(view, table, before, entry, sink));
        assert forall|span: Span|
            is_witness(view, table, some, entry, span) <==> is_witness(
                view,
                table,
                fewer,
                entry,
                span,
            ) || is_witness(view, table, seq![sink], entry, span) by {
            lemma_witness_of_more(view, table, fewer, sink, entry, span);
            assert(fewer.push(sink) =~= some);
        }
        match table.body(entry) {
            Some(body) => {
                let decl = table@[entry as int].span;
                let may = view.may_reach(entry, sink);
                let found = witnesses(body.operands@, body.span, may);
                lemma_witnesses(body.operands@, body.span, may);
                lemma_with_spots(before, entry, decl, body.span, found);
                assert forall|span: Span|
                    found.contains(span) && span != decl && span != body.span <==> is_witness(
                        view,
                        table,
                        seq![sink],
                        entry,
                        span,
                    ) by {
                    let one = seq![sink];
                    if found.contains(span) && span != decl && span != body.span {
                        let k = choose|k: int|
                            0 <= k < body.operands@.len() && qualifies(
                                #[trigger] body.operands@[k],
                                body.span,
                                may,
                            ) && body.operands@[k].span == span;
                        assert(one[0] == sink);
                        assert(0 <= 0 < one.len() && qualifies(
                            body.operands@[k],
                            body.span,
                            view.may_reach(entry, one[0]),
                        ));
                    }
                    if is_witness(view, table, one, entry, span) {
                        let (s, k) = choose|s: int, k: int|
                            0 <= s < one.len() && 0 <= k < body.operands@.len() && qualifies(
                                #[trigger] body.operands@[k],
                                body.span,
                                view.may_reach(entry, #[trigger] one[s]),
                            ) && body.operands@[k].span == span;
                        assert(one[s] == sink);
                    }
                }
                assert forall|i: int| 0 <= i < after.len() implies {
                    let record = #[trigger] after[i];
                    &&& entries.contains(record.def) || record.def == entry
                    &&& table.body(record.def) matches Some(b) && record.caller == b.span
                    &&& record.decl == table@[record.def as int].span
                } by {
                    if i < before.len() {
                        let old = before[i];
                        assert(entries.contains(old.def) || old.def == entry);
                    }
                }
                assert forall|def: FnId, span: Span| #[trigger]
                    has_call(after, def, span) <==> has_call(records, def, span) || (def == entry
                        && is_witness(view, table, some, entry, span)) by {
                    assert(has_call(before, def, span) <==> has_call(records, def, span) || (def
                        == entry && is_witness(view, table, fewer, entry, span)));
                    assert(has_call(after, def, span) <==> has_call(before, def, span) || (def
                        == entry && found.contains(span) && span != decl && span != body.span));
                }
            },
            None => {
                assert forall|def: FnId, span: Span| #[trigger]
                    has_call(after, def, span) <==> has_call(records, def, span) || (def == entry
                        && is_witness(view, table, some, entry, span)) by {
                    assert(has_call(before, def, span) <==> has_call(records, def, span) || (def
                        == entry && is_witness(view, table, fewer, entry, span)));
                }
            },
        }
    }
}

/// A witness against some sinks and one more is a witness against the
/// sinks or against the one.
proof fn lemma_witness_of_more(
    view: GraphView,
    table: FnTable,
    sinks: Seq<FnId>,
    sink: FnId,
    entry: FnId,
    span: Span,
)
    ensures
        is_witness(view, table, sinks.push(sink), entry, span) <==> is_witness(
            view,
            table,
            sinks,
            entry,
            span,
        ) || is_witness(view, table, seq![sink], entry, span),
{
    let more = sinks.push(sink);
    let one = seq![sink];
    match table.body(entry) {
        Some(body) => {
            if is_witness(view, table, more, entry, span) {
                let (s, k) = choose|s: int, k: int|
                    0 <= s < more.len() && 0 <= k < body.operands@.len() && qualifies(
                        #[trigger] body.operands@[k],
                        body.span,
                        view.may_reach(entry, #[trigger] more[s]),
                    ) && body.operands@[k].span == span;
                if s < sinks.len() {
                    assert(sinks[s] == more[s]);
                } else {
                    assert(one[0] == more[s]);
                }
            }
            if is_witness(view, table, sinks, entry, span) {
                let (s, k) = choose|s: int, k: int|
                    0 <= s < sinks.len() && 0 <= k < body.operands@.len() && qualifies(
                        #[trigger] body.operands@[k],
                        body.span,
                        view.may_reach(entry, #[trigger] sinks[s]),
                    ) && body.operands@[k].span == span;
                assert(more[s] == sinks[s]);
            }
            if is_witness(view, table, one, entry, span) {
                let (s, k) = choose|s: int, k: int|
                    0 <= s < one.len() && 0 <= k < body.operands@.len() && qualifies(
                        #[trigger] body.operands@[k],
                        body.span,
                        view.may_reach(entry, #[trigger] one[s]),
                    ) && body.operands@[k].span == span;
                assert(more[sinks.len() as int] == one[s]);
            }
        },
        None => {},
    }
}

/// The report of a pass holds, for each entry that has witnesses, one
/// record with exactly its witnesses.
pub proof fn lemma_report(view: GraphView, table: FnTable, entries: Seq<FnId>, sinks: Seq<FnId>)
    ensures
        reports(view, table, entries, sinks, report(view, table, entries, sinks)),
    decreases entries.len(),
{
    let records = report(view, table, entries, sinks);
    if entries.len() == 0 {
        assert forall|def: FnId, span: Span| #[trigger]
            has_call(records, def, span) <==> entries.contains(def) && is_witness(
                view,
                table,
                sinks,
                def,
                span,
            ) by {}
    } else if sinks.len() == 0 {
        assert(sinks =~= Seq::<FnId>::empty());
        crate::localize::lemma_report_without_sinks(view, table, entries);
        assert forall|def: FnId, span: Span| #[trigger]
            has_call(records, def, span) <==> entries.contains(def) && is_witness(
                view,
                table,
                sinks,
                def,
                span,
            ) by {}
    } else {
        let front = entries.drop_last();
        lemma_report(view, table, front, sinks);
        lemma_located(view, table, front, sinks, report(view, table, front, sinks), entries.last());
        assert(front.push(entries.last()) =~= entries);
    }
}

/// Witness containment: every witness of a record lies within the body of
/// the record's caller, and is neither that body nor the caller's
/// declaration.
pub proof fn lemma_witness_containment(
    view: GraphView,
    table: FnTable,
    entries: Seq<FnId>,
    sinks: Seq<FnId>,
    i: int,
    k: int,
)
    requires
        0 <= i < report(view, table, entries, sinks).len(),
        0 <= k < report(view, table, entries, sinks)[i].calls.len(),
    ensures
        ({
            let record = report(view, table, entries, sinks)[i];
            &&& table.body(record.def) matches Some(body) && record.caller == body.span
            &&& record.decl == table@[record.def as int].span
            &&& record.caller.encloses(record.calls[k])
            &&& record.calls[k] != record.caller
            &&& record.calls[k] != record.decl
        }),
{
    let records = report(view, table, entries, sinks);
    let record = records[i];
    lemma_report(view, table, entries, sinks);
    assert(record.calls.contains(record.calls[k]));
    assert(has_call(records, record.def, record.calls[k]));
}

} // verus!
