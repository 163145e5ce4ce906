//! One pass over a unit: build the call graph from the unit's own
//! functions, bring it into canonical order, resolve the sinks and report
//! the places from which they can be reached.

use crate::call_graph::CallGraph;
use crate::adjacency::lemma_keys_of;
use crate::canonical::{canonical, canonical_of, lemma_canonical_of};
use crate::growth::{grown, grown_keys, lemma_linked_back_twice, reached, rows_for};
use crate::detect::{resolve, Detect};
use crate::diagnostics::PanicSpots;
use crate::fn_item::{FnId, FnTable};
use crate::indexed::{has_key, keys_of};
use crate::localize::report;
use crate::names::{str_eq, str_trim, trimmed};
use std::ops::ControlFlow;
use vstd::prelude::*;

verus! {

/// The attribute that keeps a function from being treated as an entry.
pub const SILENCE_PANIC: &'static str = "#[redpen::silence_panic]";

/// A function that the unit itself defines, with the text of its tool
/// attributes.
#[derive(Debug)]
pub struct LocalFn {
    pub def: FnId,
    pub attrs: Vec<String>,
}

/// How a pass is run.
#[derive(Clone, Copy, Debug)]
pub struct Config {
    /// Whether the suppression marker takes a function out of the entries.
    pub honor_silence: bool,
    /// Whether the pass is a run of its own, after which nothing follows.
    pub standalone: bool,
}

/// What a pass leaves: whether the caller goes on, the graph, the policy
/// and the diagnostic records.
pub struct Outcome {
    pub flow: ControlFlow<(), ()>,
    pub graph: CallGraph,
    pub detect: Detect,
    pub spots: PanicSpots,
}

/// Some attribute is, white space at its ends aside, the suppression
/// marker.
pub open spec fn silenced(attrs: Seq<String>) -> bool {
    exists|i: int| 0 <= i < attrs.len() && trimmed((#[trigger] attrs[i])@) == SILENCE_PANIC@
}

/// The entries of a pass: the unit's functions in their order, without the
/// silenced ones where the marker is honored.
pub open spec fn entries_of(locals: Seq<LocalFn>, honor_silence: bool) -> Seq<FnId>
    decreases locals.len(),
{
    if locals.len() == 0 {
        Seq::empty()
    } else {
        let front = entries_of(locals.drop_last(), honor_silence);
        let last = locals.last();
        if honor_silence && silenced(last.attrs@) {
            front
        } else {
            front.push(last.def)
        }
    }
}

/// The functions of the unit, in their order.
pub open spec fn roots_of(locals: Seq<LocalFn>) -> Seq<FnId> {
    Seq::new(locals.len(), |i: int| locals[i].def)
}

/// Whether some attribute is the suppression marker.
pub fn is_silenced(attrs: &Vec<String>) -> (found: bool)
    ensures
        found == silenced(attrs@),
{
    let mut i: usize = 0;
    while i < attrs.len()
        invariant
            i <= attrs@.len(),
            forall|j: int| 0 <= j < i ==> trimmed((#[trigger] attrs@[j])@) != SILENCE_PANIC@,
        decreases attrs@.len() - i,
    {
        if str_eq(str_trim(attrs[i].as_str()), SILENCE_PANIC) {
            return true;
        }
        i = i + 1;
    }
    false
}

/// Runs one pass over the unit whose definitions are in `table` and whose
/// own functions are `locals`.
///
/// Every function of `locals` is expanded, so the graph holds exactly what
/// they reach; the graph is then sorted. The entries are the functions of
/// `locals` that are not silenced. The records are those of the entries
/// against the sinks found in the graph. The caller is told to go on unless
/// the pass is a run of its own.
pub fn analysis(table: FnTable, locals: &Vec<LocalFn>, config: Config) -> (out: Outcome)
    requires
        table.wf(),
    ensures
        out.flow == if config.standalone {
            ControlFlow::<(), ()>::Break(())
        } else {
            ControlFlow::<(), ()>::Continue(())
        },
        out.graph.wf(),
        out.graph.table() == table,
        canonical_of(&table, grown(table, roots_of(locals@)).forward, out.graph@.forward),
        canonical_of(&table, grown(table, roots_of(locals@)).backward, out.graph@.backward),
        forall|node: FnId| #[trigger]
            out.graph@.expanded(node) <==> reached(table, roots_of(locals@), node),
        canonical(&table, out.graph@.forward),
        canonical(&table, out.graph@.backward),
        out.detect.resolved() == resolve(out.graph@, table),
        out.detect.entry_list() == entries_of(locals@, config.honor_silence),
        out.spots.wf(),
        out.spots@ == report(out.graph@, table, out.detect.entry_list(), out.detect.sinks()),
{
    let mut entries: Vec<FnId> = Vec::new();
    let mut call_graph = CallGraph::new(table);
    let mut i: usize = 0;
    proof {
        let none = roots_of(locals@).take(0);
        assert(none =~= Seq::<FnId>::empty());
        assert(call_graph@.forward =~= rows_for(table, grown_keys(table, none)));
        assert(call_graph@.backward =~= Seq::<(FnId, Seq<FnId>)>::empty());
    }
    while i < locals.len()
        invariant
            i <= locals@.len(),
            call_graph.wf(),
            call_graph.table() == table,
            entries@ == entries_of(locals@.take(i as int), config.honor_silence),
            call_graph@ == grown(table, roots_of(locals@).take(i as int)),
            forall|node: FnId| #[trigger]
                call_graph@.expanded(node) <==> reached(
                    table,
                    roots_of(locals@).take(i as int),
                    node,
                ),
        decreases locals@.len() - i,
    {
        let ghost before = call_graph@;
        let ghost roots = roots_of(locals@);
        let ghost shorter = roots.take(i as int);
        let ghost longer = roots.take(i + 1);
        let f = &locals[i];
        call_graph.reach_in_depth(f.def);
        // A function that carries the marker is no entry of its own.
        let push_entry = !(config.honor_silence && is_silenced(&f.attrs));
        if push_entry {
            entries.push(f.def);
        }
        proof {
            assert(longer.drop_last() =~= shorter);
            assert(longer.last() == f.def);
            assert(locals@.take(i + 1).drop_last() =~= locals@.take(i as int));
            assert(locals@.take(i + 1).last() == locals@[i as int]);
            let after = call_graph@;
            lemma_keys_of(before.forward);
            lemma_keys_of(after.forward);
            assert(keys_of(before.forward) =~= grown_keys(table, shorter));
            assert(keys_of(after.forward) == grown_keys(table, longer));
            assert(after.forward =~= rows_for(table, grown_keys(table, longer))) by {
                assert forall|k: int| 0 <= k < after.forward.len() implies after.forward[k] == (
                    keys_of(after.forward)[k],
                    table.callees(keys_of(after.forward)[k]),
                ) by {
                    if k < before.forward.len() {
                        assert(after.forward.take(before.forward.len() as int)[k] == after.forward[k]);
                    }
                }
            }
            lemma_linked_back_twice(
                Seq::empty(),
                before.forward,
                after.forward.skip(before.forward.len() as int),
            );
            assert(before.forward + after.forward.skip(before.forward.len() as int)
                =~= after.forward) by {
                assert forall|k: int| 0 <= k < before.forward.len() implies after.forward[k]
                    == before.forward[k] by {
                    assert(after.forward.take(before.forward.len() as int)[k] == after.forward[k]);
                }
            }
            assert forall|node: FnId| #[trigger]
                call_graph@.expanded(node) <==> reached(table, longer, node) by {
                assert(before.expanded(node) <==> reached(table, shorter, node));
                if reached(table, shorter, node) {
                    let j = choose|j: int|
                        0 <= j < shorter.len() && table.has(#[trigger] shorter[j]) && table.reaches(
                            shorter[j],
                            node,
                        );
                    assert(longer[j] == shorter[j]);
                }
                if table.has(f.def) && table.reaches(f.def, node) {
                    assert(longer[i as int] == f.def);
                }
                if reached(table, longer, node) {
                    let j = choose|j: int|
                        0 <= j < longer.len() && table.has(#[trigger] longer[j]) && table.reaches(
                            longer[j],
                            node,
                        );
                    if j < i {
                        assert(shorter[j] == longer[j]);
                    }
                }
            }
        }
        i = i + 1;
    }
    proof {
        assert(locals@.take(i as int) =~= locals@);
        assert(roots_of(locals@).take(i as int) =~= roots_of(locals@));
    }
    let ghost unsorted = call_graph@;
    call_graph.sort();
    proof {
        lemma_canonical_of(&table, unsorted.forward, call_graph@.forward);
        lemma_canonical_of(&table, unsorted.backward, call_graph@.backward);
        assert forall|node: FnId| #[trigger]
            call_graph@.expanded(node) <==> reached(table, roots_of(locals@), node) by {
            assert(has_key(call_graph@.forward, node) <==> has_key(unsorted.forward, node));
            assert(unsorted.expanded(node) <==> reached(table, roots_of(locals@), node));
        }
    }
    let detect = Detect::new(&call_graph, entries);
    let spots = call_graph.analyze(&detect);
    let flow = if config.standalone {
        ControlFlow::Break(())
    } else {
        ControlFlow::Continue(())
    };
    Outcome { flow, graph: call_graph, detect, spots }
}

} // verus!
