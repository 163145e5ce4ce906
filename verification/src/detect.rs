//! The policy of a pass: which functions count as failure sinks, and from
//! which functions the search starts.

use crate::call_graph::{CallGraph, GraphView};
use crate::fn_item::{FnId, FnTable};
use vstd::prelude::*;

verus! {

/// The sink of panics that do not unwind.
pub const PANIC_NOUNWIND: &'static str = "core::panicking::panic_nounwind";

/// The sink of formatted panics that do not unwind.
pub const PANIC_NOUNWIND_FMT: &'static str = "core::panicking::panic_nounwind_fmt";

/// The sink of panics with a payload.
pub const BEGIN_PANIC: &'static str = "std::rt::begin_panic";

/// The sink of formatted panics.
pub const PANIC_FMT: &'static str = "std::rt::panic_fmt";

/// The display names of the failure sinks, in the order in which they are
/// looked for.
pub open spec fn sink_names() -> Seq<Seq<char>> {
    seq![PANIC_NOUNWIND@, PANIC_NOUNWIND_FMT@, BEGIN_PANIC@, PANIC_FMT@]
}

/// Those of `found` that are there, in order.
pub open spec fn present(found: Seq<Option<FnId>>) -> Seq<FnId>
    decreases found.len(),
{
    if found.len() == 0 {
        Seq::empty()
    } else {
        match found.last() {
            Some(def) => present(found.drop_last()).push(def),
            None => present(found.drop_last()),
        }
    }
}

/// What each sink name resolves to in a graph: the first expanded function
/// of that name, if there is one.
pub open spec fn resolve(view: GraphView, table: FnTable) -> Seq<Option<FnId>> {
    Seq::new(sink_names().len(), |i: int| view.lookup(table, sink_names()[i]))
}

/// The sinks that the unit has, and the entry functions.
pub struct Detect {
    panic_nounwind: Option<FnId>,
    panic_nounwind_fmt: Option<FnId>,
    begin_panic: Option<FnId>,
    panic_fmt: Option<FnId>,
    entries: Vec<FnId>,
}

impl Detect {
    /// What each sink name was resolved to, in the order of [`sink_names`].
    pub closed spec fn resolved(&self) -> Seq<Option<FnId>> {
        seq![self.panic_nounwind, self.panic_nounwind_fmt, self.begin_panic, self.panic_fmt]
    }

    /// The sinks that were found.
    pub open spec fn sinks(&self) -> Seq<FnId> {
        present(self.resolved())
    }

    /// The entry functions, as they were handed in.
    pub closed spec fn entry_list(&self) -> Seq<FnId> {
        self.entries@
    }

    /// Resolves each sink name against the graph. A name that no expanded
    /// function has is left out; the entries are kept as they are.
    pub fn new(call_graph: &CallGraph, entries: Vec<FnId>) -> (detect: Detect)
        requires
            call_graph.wf(),
        ensures
            detect.resolved() == resolve(call_graph@, call_graph.table()),
            detect.entry_list() == entries@,
    {
        let detect = Detect {
            panic_nounwind: call_graph.get_fn_item(PANIC_NOUNWIND),
            panic_nounwind_fmt: call_graph.get_fn_item(PANIC_NOUNWIND_FMT),
            begin_panic: call_graph.get_fn_item(BEGIN_PANIC),
            panic_fmt: call_graph.get_fn_item(PANIC_FMT),
            entries,
        };
        assert(detect.resolved() =~= resolve(call_graph@, call_graph.table()));
        detect
    }

    /// The entry functions, as they were handed in.
    pub fn entries(&self) -> (entries: &[FnId])
        ensures
            entries@ == self.entry_list(),
    {
        self.entries.as_slice()
    }

    /// The sinks that were found, in the order of their names.
    pub fn with_panic_item(&self) -> (found: Vec<FnId>)
        ensures
            found@ == self.sinks(),
    {
        let mut found: Vec<FnId> = Vec::new();
        let ghost all = self.resolved();
        assert(found@ == present(all.take(0)));
        if let Some(def) = self.panic_nounwind {
            found.push(def);
        }
        assert(found@ == present(all.take(1))) by {
            assert(all.take(1).drop_last() =~= all.take(0));
            assert(all.take(1).last() == self.panic_nounwind);
        }
        if let Some(def) = self.panic_nounwind_fmt {
            found.push(def);
        }
        assert(found@ == present(all.take(2))) by {
            assert(all.take(2).drop_last() =~= all.take(1));
            assert(all.take(2).last() == self.panic_nounwind_fmt);
        }
        if let Some(def) = self.begin_panic {
            found.push(def);
        }
        assert(found@ == present(all.take(3))) by {
            assert(all.take(3).drop_last() =~= all.take(2));
            assert(all.take(3).last() == self.begin_panic);
        }
        if let Some(def) = self.panic_fmt {
            found.push(def);
        }
        assert(found@ == present(all.take(4))) by {
            assert(all.take(4).drop_last() =~= all.take(3));
            assert(all.take(4).last() == self.panic_fmt);
        }
        assert(all.take(4) =~= all);
        found
    }
}

} // verus!
