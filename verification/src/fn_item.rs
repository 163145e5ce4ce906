//! Function definitions and the table that owns them.

use crate::seqs::{lemma_push_new_no_duplicates, push_new};
use crate::names::{lex_le, lex_lt, str_eq, str_order};
use crate::span::Span;
use std::cmp::Ordering;
use vstd::prelude::*;

verus! {

/// The identity of a function definition: its place in the [`FnTable`].
/// Two definitions are the same function exactly when their identities are
/// equal; display names may repeat.
pub type FnId = u64;

/// One operation of a body: where it stands in the source and, if it refers
/// to a function directly, which one.
#[derive(Clone, Copy, Debug)]
pub struct Operand {
    pub span: Span,
    pub callee: Option<FnId>,
}

/// The resident body of a function: its extent in the source and its
/// operations in the order in which they are visited.
#[derive(Debug)]
pub struct Body {
    pub span: Span,
    pub operands: Vec<Operand>,
}

/// A function definition: identity, display name, the span of its declaration
/// and its body, where one is resident.
#[derive(Debug)]
pub struct FnItem {
    pub def: FnId,
    pub name: String,
    pub span: Span,
    pub body: Option<Body>,
}

/// The functions that the operations refer to, each once, in the order of
/// their first reference.
pub open spec fn distinct_callees(ops: Seq<Operand>) -> Seq<FnId>
    decreases ops.len(),
{
    if ops.len() == 0 {
        Seq::empty()
    } else {
        let before = distinct_callees(ops.drop_last());
        match ops.last().callee {
            Some(callee) => push_new(before, callee),
            None => before,
        }
    }
}

/// Some operation refers to `id`.
pub open spec fn refers_to(ops: Seq<Operand>, id: FnId) -> bool {
    exists|k: int| 0 <= k < ops.len() && (#[trigger] ops[k]).callee == Some(id)
}

/// Every function that the operations refer to has an identity below `bound`.
pub open spec fn refers_below(ops: Seq<Operand>, bound: nat) -> bool {
    forall|k: int|
        0 <= k < ops.len() ==> match (#[trigger] ops[k]).callee {
            Some(callee) => callee < bound,
            None => true,
        }
}

/// The callee list holds each function referred to, and each only once.
pub proof fn lemma_distinct_callees(ops: Seq<Operand>)
    ensures
        distinct_callees(ops).no_duplicates(),
        forall|id: FnId| distinct_callees(ops).contains(id) <==> refers_to(ops, id),
    decreases ops.len(),
{
    if ops.len() == 0 {
    } else {
        let front = ops.drop_last();
        let before = distinct_callees(front);
        lemma_distinct_callees(front);
        assert forall|id: FnId| distinct_callees(ops).contains(id) <==> refers_to(ops, id) by {
            match ops.last().callee {
                Some(callee) => {
                    lemma_push_new_no_duplicates(before, callee);
                },
                None => {},
            }
            if refers_to(ops, id) {
                let k = choose|k: int| 0 <= k < ops.len() && (#[trigger] ops[k]).callee == Some(id);
                if k < front.len() {
                    assert(front[k].callee == Some(id));
                }
            }
            if refers_to(front, id) {
                let k = choose|k: int|
                    0 <= k < front.len() && (#[trigger] front[k]).callee == Some(id);
                assert(ops[k].callee == Some(id));
            }
            if ops.last().callee == Some(id) {
                assert(ops[ops.len() - 1].callee == Some(id));
            }
        }
        match ops.last().callee {
            Some(callee) => {
                lemma_push_new_no_duplicates(before, callee);
            },
            None => {},
        }
    }
}

impl FnItem {
    /// The operations of the body; none where no body is resident.
    pub open spec fn operands(&self) -> Seq<Operand> {
        match self.body {
            Some(body) => body.operands@,
            None => Seq::empty(),
        }
    }

    /// The direct callees, each once, in the order of their first reference.
    pub open spec fn callees(&self) -> Seq<FnId> {
        distinct_callees(self.operands())
    }

    /// A definition of the parts given.
    pub fn new(def: FnId, name: String, span: Span, body: Option<Body>) -> (item: FnItem)
        ensures
            item.def == def,
            item.name == name,
            item.span == span,
            item.body == body,
    {
        FnItem { def, name, span, body }
    }

    /// Whether the display name is `name`.
    pub fn is(&self, name: &str) -> (same: bool)
        ensures
            same == (self.name@ == name@),
    {
        str_eq(self.name.as_str(), name)
    }
}

/// Every function definition of the unit under analysis. A definition's
/// identity is its index here, so a definition is created once and never
/// moves.
#[derive(Debug)]
pub struct FnTable {
    items: Vec<FnItem>,
}

impl View for FnTable {
    type V = Seq<FnItem>;

    closed spec fn view(&self) -> Seq<FnItem> {
        self.items@
    }
}

impl FnTable {
    /// Each definition carries its own index as identity, and bodies refer
    /// only to definitions of the table.
    pub open spec fn wf(&self) -> bool {
        forall|i: int|
            0 <= i < self@.len() ==> {
                &&& (#[trigger] self@[i]).def == i
                &&& refers_below(self@[i].operands(), self@.len())
            }
    }

    /// `id` names a definition of the table.
    pub open spec fn has(&self, id: FnId) -> bool {
        id < self@.len()
    }

    /// The display name of `id`.
    pub open spec fn name(&self, id: FnId) -> Seq<char> {
        self@[id as int].name@
    }

    /// The direct callees of `id`; none for an identity outside the table.
    pub open spec fn callees(&self, id: FnId) -> Seq<FnId> {
        if self.has(id) {
            self@[id as int].callees()
        } else {
            Seq::empty()
        }
    }

    /// The body of `id`, where one is resident.
    pub open spec fn body(&self, id: FnId) -> Option<Body> {
        if self.has(id) {
            self@[id as int].body
        } else {
            None
        }
    }

    /// `a` calls `b` directly.
    pub open spec fn calls(&self, a: FnId, b: FnId) -> bool {
        self.callees(a).contains(b)
    }

    /// Each function of `path` calls the next one directly.
    pub open spec fn is_chain(&self, path: Seq<FnId>) -> bool {
        &&& path.len() > 0
        &&& forall|i: int| 0 <= i < path.len() - 1 ==> self.calls(#[trigger] path[i], path[i + 1])
    }

    /// `to` is `from` itself or can be reached from it through direct calls.
    pub open spec fn reaches(&self, from: FnId, to: FnId) -> bool {
        exists|path: Seq<FnId>| #[trigger] self.is_chain(path) && path[0] == from && path.last() == to
    }

    /// The name of `a` comes no later than that of `b`.
    pub open spec fn name_le(&self, a: FnId, b: FnId) -> bool {
        lex_le(self.name(a), self.name(b))
    }

    /// What a definition of the table calls is in the table too.
    pub proof fn lemma_callee_known(&self, caller: FnId, callee: FnId)
        requires
            self.wf(),
            self.calls(caller, callee),
        ensures
            self.has(caller),
            self.has(callee),
    {
        if !self.has(caller) {
            assert(!Seq::<FnId>::empty().contains(callee));
        }
        let ops = self@[caller as int].operands();
        lemma_distinct_callees(ops);
        assert(refers_to(ops, callee));
        let k = choose|k: int| 0 <= k < ops.len() && (#[trigger] ops[k]).callee == Some(callee);
        assert(refers_below(ops, self@.len()));
    }

    /// Every function reaches itself.
    pub proof fn lemma_reaches_itself(&self, node: FnId)
        ensures
            self.reaches(node, node),
    {
        let path = seq![node];
        assert(self.is_chain(path) && path[0] == node && path.last() == node);
    }

    /// What a callee reaches, the caller reaches.
    pub proof fn lemma_reaches_after_call(&self, from: FnId, via: FnId, to: FnId)
        requires
            self.calls(from, via),
            self.reaches(via, to),
        ensures
            self.reaches(from, to),
    {
        let path = choose|path: Seq<FnId>| #[trigger]
            self.is_chain(path) && path[0] == via && path.last() == to;
        let longer = seq![from] + path;
        assert forall|i: int| 0 <= i < longer.len() - 1 implies self.calls(
            #[trigger] longer[i],
            longer[i + 1],
        ) by {
            if i > 0 {
                assert(self.calls(path[i - 1], path[i - 1 + 1]));
            }
        }
        assert(self.is_chain(longer) && longer[0] == from && longer.last() == to);
    }

    /// A table without definitions.
    pub fn new() -> (table: FnTable)
        ensures
            table.wf(),
            table@.len() == 0,
    {
        FnTable { items: Vec::new() }
    }

    /// The number of definitions.
    pub fn len(&self) -> (n: usize)
        ensures
            n == self@.len(),
    {
        self.items.len()
    }

    /// The definition with identity `def`, if the table has one.
    pub fn get(&self, def: FnId) -> (item: Option<&FnItem>)
        ensures
            item == if self.has(def) {
                Some(&self@[def as int])
            } else {
                None::<&FnItem>
            },
    {
        if def < self.items.len() as u64 {
            Some(&self.items[def as usize])
        } else {
            None
        }
    }

    /// Adds a definition without a body and returns its identity.
    pub fn declare(&mut self, name: String, span: Span) -> (def: FnId)
        requires
            old(self).wf(),
        ensures
            final(self).wf(),
            def == old(self)@.len(),
            final(self)@ == old(self)@.push(FnItem { def, name, span, body: None }),
    {
        let def: u64 = self.items.len() as u64;
        self.items.push(FnItem { def, name, span, body: None });
        proof {
            assert forall|i: int| 0 <= i < self@.len() implies {
                &&& (#[trigger] self@[i]).def == i
                &&& refers_below(self@[i].operands(), self@.len())
            } by {
                if i < old(self)@.len() {
                    assert(self@[i] == old(self)@[i]);
                }
            }
        }
        def
    }

    /// Gives `def` its body. Refused, with the table left as it was, where
    /// `def` is not in the table, has a body already, or the body refers to
    /// a function that is not in the table: a definition is completed once
    /// and does not change after that.
    pub fn define(&mut self, def: FnId, body: Body) -> (accepted: bool)
        requires
            old(self).wf(),
        ensures
            final(self).wf(),
            accepted == (old(self).has(def) && old(self).body(def).is_none() && refers_below(
                body.operands@,
                old(self)@.len(),
            )),
            accepted ==> final(self)@ == old(self)@.update(
                def as int,
                FnItem {
                    def,
                    name: old(self)@[def as int].name,
                    span: old(self)@[def as int].span,
                    body: Some(body),
                },
            ),
            !accepted ==> final(self)@ == old(self)@,
    {
        let n: usize = self.items.len();
        if def >= n as u64 {
            return false;
        }
        if self.items[def as usize].body.is_some() {
            return false;
        }
        let mut k: usize = 0;
        while k < body.operands.len()
            invariant
                k <= body.operands@.len(),
                n == self@.len(),
                *self == *old(self),
                self.wf(),
                self.has(def),
                self.body(def).is_none(),
                refers_below(body.operands@.take(k as int), n as nat),
            decreases body.operands@.len() - k,
        {
            match body.operands[k].callee {
                Some(callee) => {
                    if callee >= n as u64 {
                        return false;
                    }
                },
                None => {},
            }
            proof {
                let shorter = body.operands@.take(k as int);
                let longer = body.operands@.take(k + 1);
                assert forall|j: int| 0 <= j < longer.len() implies match (#[trigger] longer[j]).callee {
                    Some(callee) => callee < n,
                    None => true,
                } by {
                    if j < k {
                        assert(shorter[j] == longer[j]);
                    }
                }
            }
            k = k + 1;
        }
        assert(body.operands@.take(k as int) =~= body.operands@);
        let i: usize = def as usize;
        let name = self.items[i].name.clone();
        let span = self.items[i].span;
        self.items.set(i, FnItem { def, name, span, body: Some(body) });
        proof {
            assert forall|j: int| 0 <= j < self@.len() implies {
                &&& (#[trigger] self@[j]).def == j
                &&& refers_below(self@[j].operands(), self@.len())
            } by {
                if j != i {
                    assert(self@[j] == old(self)@[j]);
                }
            }
        }
        true
    }

    /// Compares two definitions by display name.
    pub fn name_order(&self, a: FnId, b: FnId) -> (o: Ordering)
        requires
            self.has(a),
            self.has(b),
        ensures
            (o is Less) == lex_lt(self.name(a), self.name(b)),
            (o is Equal) == (self.name(a) == self.name(b)),
    {
        str_order(self.name_of(a), self.name_of(b))
    }

    fn name_of(&self, def: FnId) -> (name: &str)
        requires
            self.has(def),
        ensures
            name@ == self.name(def),
    {
        let n: usize = self.items.len();
        let i: usize = def as usize;
        self.items[i].name.as_str()
    }
}

} // verus!
