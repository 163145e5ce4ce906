//! How a graph grows: the order in which a depth-first expansion enters the
//! functions, and the callers that are entered with them.

use crate::adjacency::{with_link, Adjacency};
use crate::call_graph::GraphView;
use crate::fn_item::{FnId, FnTable};
use vstd::prelude::*;

verus! {

/// The functions entered after `node` was expanded depth first, given
/// those entered before. `fuel` bounds the depth; a depth of as many
/// functions as are not entered yet is never exceeded.
pub open spec fn visit(table: FnTable, done: Seq<FnId>, node: FnId, fuel: nat) -> Seq<FnId>
    decreases fuel, 0nat, 0nat,
{
    if fuel == 0 || !table.has(node) || done.contains(node) {
        done
    } else {
        visit_each(table, done.push(node), table.callees(node), (fuel - 1) as nat)
    }
}

/// The functions entered after each of `callees` was expanded in turn.
pub open spec fn visit_each(table: FnTable, done: Seq<FnId>, callees: Seq<FnId>, fuel: nat) -> Seq<
    FnId,
>
    decreases fuel, 1nat, callees.len(),
{
    if callees.len() == 0 {
        done
    } else {
        visit(table, visit_each(table, done, callees.drop_last(), fuel), callees.last(), fuel)
    }
}

/// The functions entered after each of `roots` was expanded in turn, on an
/// empty graph.
pub open spec fn grown_keys(table: FnTable, roots: Seq<FnId>) -> Seq<FnId>
    decreases roots.len(),
{
    if roots.len() == 0 {
        Seq::empty()
    } else {
        visit(table, grown_keys(table, roots.drop_last()), roots.last(), table@.len())
    }
}

/// Some function of `roots` is in the table and reaches `node`.
pub open spec fn reached(table: FnTable, roots: Seq<FnId>, node: FnId) -> bool {
    exists|i: int|
        0 <= i < roots.len() && table.has(#[trigger] roots[i]) && table.reaches(roots[i], node)
}

/// The rows of the functions: each with its callees in the order of their
/// first reference.
pub open spec fn rows_for(table: FnTable, keys: Seq<FnId>) -> Adjacency {
    Seq::new(keys.len(), |i: int| (keys[i], table.callees(keys[i])))
}

/// `back` with `caller` entered under each of `callees` in turn.
pub open spec fn add_row(back: Adjacency, caller: FnId, callees: Seq<FnId>) -> Adjacency
    decreases callees.len(),
{
    if callees.len() == 0 {
        back
    } else {
        with_link(add_row(back, caller, callees.drop_last()), callees.last(), caller)
    }
}

/// `back` with the callers of the rows entered, row after row.
pub open spec fn linked_back(back: Adjacency, rows: Adjacency) -> Adjacency
    decreases rows.len(),
{
    if rows.len() == 0 {
        back
    } else {
        add_row(linked_back(back, rows.drop_last()), rows.last().0, rows.last().1)
    }
}

/// The graph after each of `roots` was expanded in turn, before it is
/// sorted.
pub open spec fn grown(table: FnTable, roots: Seq<FnId>) -> GraphView {
    let forward = rows_for(table, grown_keys(table, roots));
    GraphView { forward, backward: linked_back(Seq::empty(), forward) }
}

/// Entering rows in two lots is entering them in one.
pub proof fn lemma_linked_back_twice(back: Adjacency, first: Adjacency, second: Adjacency)
    ensures
        linked_back(linked_back(back, first), second) == linked_back(back, first + second),
    decreases second.len(),
{
    if second.len() == 0 {
        assert(first + second =~= first);
    } else {
        lemma_linked_back_twice(back, first, second.drop_last());
        assert((first + second).drop_last() =~= first + second.drop_last());
        assert((first + second).last() == second.last());
    }
}

/// Entering one row is entering its callers.
pub proof fn lemma_linked_back_one(back: Adjacency, caller: FnId, callees: Seq<FnId>)
    ensures
        linked_back(back, seq![(caller, callees)]) == add_row(back, caller, callees),
{
    let one = seq![(caller, callees)];
    assert(one.drop_last() =~= Seq::<(FnId, Seq<FnId>)>::empty());
    assert(one.last() == (caller, callees));
    assert(linked_back(back, one.drop_last()) == back);
}

} // verus!
