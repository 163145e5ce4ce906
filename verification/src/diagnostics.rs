//! What the analysis reports: for each caller the places in its body from
//! which a failure sink can be reached.

use crate::adjacency::{distinct_items, distinct_keys, lemma_row_unique, no_empty_rows, Adjacency};
use crate::fn_item::FnId;
use crate::indexed::{
    entry_at, map_entries, map_get_index, map_get_mut, map_insert, map_len, map_new,
    set_contains, set_get_index, set_insert, set_items, set_len, set_new,
};
use crate::seqs::{
    lemma_merge_new, lemma_merge_new_step, lemma_push_new_no_duplicates, merge_new, push_new,
};
use crate::span::Span;
use indexmap::IndexMap;
use indexmap::IndexSet;
use vstd::prelude::*;

verus! {

/// The spans that packed words stand for.
pub open spec fn spans_of(keys: Seq<u64>) -> Seq<Span> {
    Seq::new(keys.len(), |i: int| Span::of_key(keys[i]))
}

/// Unpacking keeps membership, and distinct words give distinct spans.
pub proof fn lemma_spans_of(keys: Seq<u64>)
    ensures
        spans_of(keys).len() == keys.len(),
        forall|span: Span| #[trigger] spans_of(keys).contains(span) <==> keys.contains(span.spec_key()),
        keys.no_duplicates() ==> spans_of(keys).no_duplicates(),
{
    let spans = spans_of(keys);
    assert forall|span: Span| #[trigger] spans.contains(span) <==> keys.contains(span.spec_key()) by {
        if spans.contains(span) {
            let i = choose|i: int| 0 <= i < spans.len() && spans[i] == span;
            Span::lemma_key_round_trip(span, keys[i]);
            assert(keys[i] == span.spec_key());
        }
        if keys.contains(span.spec_key()) {
            let i = choose|i: int| 0 <= i < keys.len() && keys[i] == span.spec_key();
            Span::lemma_key_round_trip(span, keys[i]);
            assert(spans[i] == span);
        }
    }
    if keys.no_duplicates() {
        assert forall|i: int, j: int| 0 <= i < spans.len() && 0 <= j < spans.len() && i != j implies spans[i]
            != spans[j] by {
            Span::lemma_key_round_trip(spans[i], keys[i]);
            Span::lemma_key_round_trip(spans[j], keys[j]);
            assert(keys[i] != keys[j]);
        }
    }
}

/// Entering a word is entering its span.
pub proof fn lemma_spans_of_push_new(keys: Seq<u64>, span: Span)
    ensures
        spans_of(push_new(keys, span.spec_key())) == push_new(spans_of(keys), span),
{
    lemma_spans_of(keys);
    Span::lemma_key_round_trip(span, 0);
    assert(spans_of(push_new(keys, span.spec_key())) =~= push_new(spans_of(keys), span));
}

/// Entering words one after the other is entering their spans.
pub proof fn lemma_spans_of_merge_new(keys: Seq<u64>, more: Seq<u64>)
    ensures
        spans_of(merge_new(keys, more)) == merge_new(spans_of(keys), spans_of(more)),
    decreases more.len(),
{
    if more.len() > 0 {
        let front = more.drop_last();
        lemma_spans_of_merge_new(keys, front);
        let last = Span::of_key(more.last());
        Span::lemma_key_round_trip(last, more.last());
        lemma_spans_of_push_new(merge_new(keys, front), last);
        assert(spans_of(more).drop_last() =~= spans_of(front));
        assert(spans_of(more).last() == last);
    }
}

/// The spans that stay as witnesses: all but the caller's own declaration
/// and body, in the order given.
pub open spec fn surviving(spans: Seq<Span>, decl: Span, body: Span) -> Seq<Span>
    decreases spans.len(),
{
    if spans.len() == 0 {
        Seq::empty()
    } else {
        let front = surviving(spans.drop_last(), decl, body);
        if spans.last() != decl && spans.last() != body {
            front.push(spans.last())
        } else {
            front
        }
    }
}

/// The surviving spans are those of the given ones that are neither the
/// declaration nor the body.
pub proof fn lemma_surviving(spans: Seq<Span>, decl: Span, body: Span)
    ensures
        forall|span: Span| #[trigger]
            surviving(spans, decl, body).contains(span) <==> spans.contains(span) && span != decl
                && span != body,
        spans.no_duplicates() ==> surviving(spans, decl, body).no_duplicates(),
    decreases spans.len(),
{
    if spans.len() > 0 {
        let front = spans.drop_last();
        let kept = surviving(front, decl, body);
        let all = surviving(spans, decl, body);
        lemma_surviving(front, decl, body);
        assert forall|span: Span| #[trigger]
            all.contains(span) <==> spans.contains(span) && span != decl && span != body by {
            if all.contains(span) {
                let i = choose|i: int| 0 <= i < all.len() && all[i] == span;
                if i < kept.len() {
                    assert(kept[i] == span);
                    assert(kept.contains(span));
                    let j = choose|j: int| 0 <= j < front.len() && front[j] == span;
                    assert(spans[j] == span);
                } else {
                    assert(spans[spans.len() - 1] == span);
                }
            }
            if spans.contains(span) && span != decl && span != body {
                let j = choose|j: int| 0 <= j < spans.len() && spans[j] == span;
                if j < front.len() {
                    assert(front[j] == span);
                    assert(kept.contains(span));
                    let i = choose|i: int| 0 <= i < kept.len() && kept[i] == span;
                    assert(all[i] == span);
                } else {
                    assert(all[kept.len() as int] == span);
                }
            }
        }
        if spans.no_duplicates() {
            assert forall|i: int, j: int| 0 <= i < front.len() && 0 <= j < front.len() && i != j implies front[i]
                != front[j] by {
                assert(spans[i] != spans[j]);
            }
            if spans.last() != decl && spans.last() != body {
                assert(!kept.contains(spans.last())) by {
                    if front.contains(spans.last()) {
                        let j = choose|j: int| 0 <= j < front.len() && front[j] == spans.last();
                        assert(spans[j] == spans[spans.len() - 1]);
                    }
                }
                assert forall|i: int, j: int| 0 <= i < all.len() && 0 <= j < all.len() && i != j implies all[i]
                    != all[j] by {
                    if i < kept.len() && j < kept.len() {
                        assert(kept[i] != kept[j]);
                    } else if i < kept.len() {
                        assert(kept.contains(kept[i]));
                    } else {
                        assert(kept.contains(kept[j]));
                    }
                }
            }
        }
    }
}

/// A set of spans that keeps the order in which they were entered.
pub struct SpanSet {
    keys: IndexSet<u64>,
}

impl View for SpanSet {
    type V = Seq<Span>;

    closed spec fn view(&self) -> Seq<Span> {
        spans_of(set_items(self.keys))
    }
}

impl SpanSet {
    /// No span is held twice.
    pub closed spec fn wf(&self) -> bool {
        set_items(self.keys).no_duplicates()
    }

    /// A well-formed set shows each span once.
    pub proof fn lemma_distinct(&self)
        requires
            self.wf(),
        ensures
            self@.no_duplicates(),
    {
        lemma_spans_of(set_items(self.keys));
    }

    /// The set of the spans that the words of `keys` stand for.
    pub(crate) fn from_keys(keys: IndexSet<u64>) -> (set: SpanSet)
        requires
            set_items(keys).no_duplicates(),
        ensures
            set.wf(),
            set@ == spans_of(set_items(keys)),
    {
        SpanSet { keys }
    }

    /// A set without spans.
    pub fn new() -> (set: SpanSet)
        ensures
            set.wf(),
            set@ == Seq::<Span>::empty(),
    {
        let set = SpanSet { keys: set_new() };
        assert(set@ =~= Seq::<Span>::empty());
        set
    }

    /// The number of spans.
    pub fn len(&self) -> (n: usize)
        ensures
            n == self@.len(),
    {
        set_len(&self.keys)
    }

    /// Whether the set holds no span.
    pub fn is_empty(&self) -> (empty: bool)
        ensures
            empty == (self@.len() == 0),
    {
        set_len(&self.keys) == 0
    }

    /// The span at a place of the order.
    pub fn get(&self, index: usize) -> (span: Option<Span>)
        ensures
            span == if index < self@.len() {
                Some(self@[index as int])
            } else {
                None
            },
    {
        match set_get_index(&self.keys, index) {
            Some(key) => Some(Span::from_key(key)),
            None => None,
        }
    }

    /// Whether the set holds `span`.
    pub fn contains(&self, span: Span) -> (found: bool)
        ensures
            found == self@.contains(span),
    {
        proof {
            lemma_spans_of(set_items(self.keys));
        }
        set_contains(&self.keys, span.key())
    }

    /// Enters `span` at the end unless the set has it; says whether it
    /// was new.
    pub fn insert(&mut self, span: Span) -> (fresh: bool)
        requires
            old(self).wf(),
        ensures
            final(self).wf(),
            fresh == !old(self)@.contains(span),
            final(self)@ == push_new(old(self)@, span),
    {
        proof {
            lemma_spans_of(set_items(self.keys));
            lemma_spans_of_push_new(set_items(self.keys), span);
            lemma_push_new_no_duplicates(set_items(self.keys), span.spec_key());
        }
        set_insert(&mut self.keys, span.key())
    }
}

/// One diagnostic record, as a value of the model.
pub struct SpotsView {
    pub def: FnId,
    pub decl: Span,
    pub caller: Span,
    pub calls: Seq<Span>,
}

/// One diagnostic record: a caller, the span of its declaration, the span of
/// its body, and the witness spans in the body.
#[derive(Debug)]
pub struct Spots {
    pub def: FnId,
    pub decl: Span,
    pub caller: Span,
    pub calls: Vec<Span>,
}

impl View for Spots {
    type V = SpotsView;

    open spec fn view(&self) -> SpotsView {
        SpotsView { def: self.def, decl: self.decl, caller: self.caller, calls: self.calls@ }
    }
}

/// Some record is about `def`.
pub open spec fn has_record(records: Seq<SpotsView>, def: FnId) -> bool {
    exists|i: int| 0 <= i < records.len() && (#[trigger] records[i]).def == def
}

/// The place of the record about `def`.
pub open spec fn record_index(records: Seq<SpotsView>, def: FnId) -> int {
    choose|i: int| 0 <= i < records.len() && (#[trigger] records[i]).def == def
}

/// The records after witnesses for `def` have been handed in. Spans equal to
/// the declaration or the body are dropped first. If none is left, nothing
/// changes. The others go to the record about `def`, behind those it has
/// and unless it has them; where there is no such record yet, they make a
/// new last one.
pub open spec fn with_spots(
    records: Seq<SpotsView>,
    def: FnId,
    decl: Span,
    body: Span,
    spans: Seq<Span>,
) -> Seq<SpotsView> {
    let keep = surviving(spans, decl, body);
    if keep.len() == 0 {
        records
    } else if has_record(records, def) {
        let i = record_index(records, def);
        records.update(
            i,
            SpotsView {
                def,
                decl: records[i].decl,
                caller: records[i].caller,
                calls: merge_new(records[i].calls, keep),
            },
        )
    } else {
        records.push(SpotsView { def, decl, caller: body, calls: keep })
    }
}

/// Each caller has one record at most, and each record holds a witness, and
/// none twice.
pub open spec fn records_wf(records: Seq<SpotsView>) -> bool {
    &&& forall|i: int, j: int|
        0 <= i < j < records.len() ==> (#[trigger] records[i]).def != (#[trigger] records[j]).def
    &&& forall|i: int|
        0 <= i < records.len() ==> (#[trigger] records[i]).calls.len() > 0
            && records[i].calls.no_duplicates()
}

/// Some record about `def` holds the witness `span`.
pub open spec fn has_call(records: Seq<SpotsView>, def: FnId, span: Span) -> bool {
    exists|i: int|
        0 <= i < records.len() && (#[trigger] records[i]).def == def && records[i].calls.contains(span)
}

/// What handing in witnesses does to the records: those that were there
/// stay at their places with their spans and keep their witnesses; the
/// witnesses handed in, but for the declaration and the body, are there
/// afterwards under the caller; and no other witness is.
pub proof fn lemma_with_spots(
    records: Seq<SpotsView>,
    def: FnId,
    decl: Span,
    body: Span,
    spans: Seq<Span>,
)
    requires
        records_wf(records),
        spans.no_duplicates(),
    ensures
        records_wf(with_spots(records, def, decl, body, spans)),
        records.len() <= with_spots(records, def, decl, body, spans).len() <= records.len() + 1,
        forall|i: int|
            0 <= i < records.len() ==> {
                let after = #[trigger] with_spots(records, def, decl, body, spans)[i];
                &&& after.def == records[i].def
                &&& after.decl == records[i].decl
                &&& after.caller == records[i].caller
                &&& records[i].calls.is_prefix_of(after.calls)
            },
        with_spots(records, def, decl, body, spans).len() > records.len() ==> with_spots(
            records,
            def,
            decl,
            body,
            spans,
        ).last() == (SpotsView { def, decl, caller: body, calls: surviving(spans, decl, body) })
            && !has_record(records, def),
        forall|d: FnId, w: Span| #[trigger]
            has_call(with_spots(records, def, decl, body, spans), d, w) <==> has_call(records, d, w)
                || (d == def && spans.contains(w) && w != decl && w != body),
{
    let keep = surviving(spans, decl, body);
    let after = with_spots(records, def, decl, body, spans);
    lemma_surviving(spans, decl, body);
    if keep.len() == 0 {
        assert forall|i: int| 0 <= i < records.len() implies records[i].calls.is_prefix_of(
            (#[trigger] after[i]).calls,
        ) by {
            assert(records[i].calls.take(records[i].calls.len() as int) =~= records[i].calls);
        }
        assert forall|d: FnId, w: Span| #[trigger]
            has_call(after, d, w) <==> has_call(records, d, w) || (d == def && spans.contains(w) && w
                != decl && w != body) by {
            if spans.contains(w) && w != decl && w != body {
                assert(keep.contains(w));
            }
        }
    } else if has_record(records, def) {
        let p = record_index(records, def);
        let merged = merge_new(records[p].calls, keep);
        lemma_merge_new(records[p].calls, keep);
        assert(merged.len() >= records[p].calls.len());
        assert forall|i: int, j: int| 0 <= i < j < after.len() implies (#[trigger] after[i]).def != (
        #[trigger] after[j]).def by {
            assert(records[i].def != records[j].def);
        }
        assert forall|i: int| 0 <= i < after.len() implies (#[trigger] after[i]).calls.len() > 0
            && after[i].calls.no_duplicates() by {
            assert(records[i].calls.len() > 0);
        }
        assert forall|i: int| 0 <= i < records.len() implies {
            let one = #[trigger] after[i];
            &&& one.def == records[i].def
            &&& one.decl == records[i].decl
            &&& one.caller == records[i].caller
            &&& records[i].calls.is_prefix_of(one.calls)
        } by {
            if i != p {
                assert(records[i].calls.take(records[i].calls.len() as int) =~= records[i].calls);
            }
        }
        assert forall|d: FnId, w: Span| #[trigger]
            has_call(after, d, w) <==> has_call(records, d, w) || (d == def && spans.contains(w) && w
                != decl && w != body) by {
            if has_call(after, d, w) {
                let i = choose|i: int|
                    0 <= i < after.len() && (#[trigger] after[i]).def == d && after[i].calls.contains(w);
                if i != p {
                    assert(records[i].def == d && records[i].calls.contains(w));
                } else if records[p].calls.contains(w) {
                    assert(records[p].def == d);
                }
            }
            if has_call(records, d, w) {
                let i = choose|i: int|
                    0 <= i < records.len() && (#[trigger] records[i]).def == d
                        && records[i].calls.contains(w);
                assert(after[i].def == d && after[i].calls.contains(w));
            }
            if d == def && keep.contains(w) {
                assert(after[p].def == d && after[p].calls.contains(w));
            }
        }
    } else {
        let n = records.len() as int;
        assert forall|i: int, j: int| 0 <= i < j < after.len() implies (#[trigger] after[i]).def != (
        #[trigger] after[j]).def by {
            if j < n {
                assert(records[i].def != records[j].def);
            } else {
                assert(records[i].def != def);
            }
        }
        assert forall|i: int| 0 <= i < after.len() implies (#[trigger] after[i]).calls.len() > 0
            && after[i].calls.no_duplicates() by {
            if i < n {
                assert(records[i].calls.len() > 0);
            }
        }
        assert forall|i: int| 0 <= i < records.len() implies records[i].calls.is_prefix_of(
            (#[trigger] after[i]).calls,
        ) by {
            assert(records[i].calls.take(records[i].calls.len() as int) =~= records[i].calls);
        }
        assert forall|d: FnId, w: Span| #[trigger]
            has_call(after, d, w) <==> has_call(records, d, w) || (d == def && spans.contains(w) && w
                != decl && w != body) by {
            if has_call(after, d, w) {
                let i = choose|i: int|
                    0 <= i < after.len() && (#[trigger] after[i]).def == d && after[i].calls.contains(w);
                if i < n {
                    assert(records[i].def == d && records[i].calls.contains(w));
                }
            }
            if has_call(records, d, w) {
                let i = choose|i: int|
                    0 <= i < records.len() && (#[trigger] records[i]).def == d
                        && records[i].calls.contains(w);
                assert(after[i].def == d && after[i].calls.contains(w));
            }
            if d == def && keep.contains(w) {
                assert(after[n].def == d && after[n].calls.contains(w));
            }
        }
    }
}

/// The diagnostic records of one pass, in the order in which their callers
/// were first reported.
pub struct PanicSpots {
    map: IndexMap<u64, IndexSet<u64>>,
    bounds: Vec<(Span, Span)>,
}

impl View for PanicSpots {
    type V = Seq<SpotsView>;

    closed spec fn view(&self) -> Seq<SpotsView> {
        records_of(map_entries(self.map), self.bounds@)
    }
}

/// The records that a map of callers and a list of their spans stand for.
pub open spec fn records_of(entries: Adjacency, bounds: Seq<(Span, Span)>) -> Seq<SpotsView> {
    Seq::new(
        entries.len(),
        |i: int|
            SpotsView {
                def: entries[i].0,
                decl: bounds[i].0,
                caller: bounds[i].1,
                calls: spans_of(entries[i].1),
            },
    )
}

impl PanicSpots {
    /// Each record has its spans, no caller has two records, and no
    /// record is without a witness or holds one twice.
    pub closed spec fn wf(&self) -> bool {
        &&& self.bounds@.len() == map_entries(self.map).len()
        &&& distinct_keys(map_entries(self.map))
        &&& distinct_items(map_entries(self.map))
        &&& no_empty_rows(map_entries(self.map))
    }

    /// What well-formed records show: see [`records_wf`].
    pub proof fn lemma_records_wf(&self)
        requires
            self.wf(),
        ensures
            records_wf(self@),
    {
        let entries = map_entries(self.map);
        let records = self@;
        assert forall|i: int, j: int| 0 <= i < j < records.len() implies (#[trigger] records[i]).def != (
        #[trigger] records[j]).def by {
            assert(entries[i].0 != entries[j].0);
        }
        assert forall|i: int| 0 <= i < records.len() implies (#[trigger] records[i]).calls.len() > 0
            && records[i].calls.no_duplicates() by {
            lemma_spans_of(entries[i].1);
            assert(entries[i].1.len() > 0);
            assert(entries[i].1.no_duplicates());
        }
    }

    /// No records.
    pub fn new() -> (spots: PanicSpots)
        ensures
            spots.wf(),
            spots@.len() == 0,
    {
        PanicSpots { map: map_new(), bounds: Vec::new() }
    }

    /// The number of records.
    pub fn len(&self) -> (n: usize)
        ensures
            n == self@.len(),
    {
        map_len(&self.map)
    }

    /// Whether there is no record.
    pub fn is_empty(&self) -> (empty: bool)
        ensures
            empty == (self@.len() == 0),
    {
        map_len(&self.map) == 0
    }

    /// The record at a place of the order.
    pub fn get(&self, index: usize) -> (record: Option<Spots>)
        requires
            self.wf(),
        ensures
            match record {
                Some(spots) => index < self@.len() && spots@ == self@[index as int],
                None => index >= self@.len(),
            },
    {
        match map_get_index(&self.map, index) {
            Some((def, set)) => {
                let (decl, caller) = self.bounds[index];
                let mut calls: Vec<Span> = Vec::new();
                let n = set_len(set);
                let mut k: usize = 0;
                while k < n
                    invariant
                        k <= n,
                        n == set_items(*set).len(),
                        calls@ == spans_of(set_items(*set)).take(k as int),
                    decreases n - k,
                {
                    if let Some(key) = set_get_index(set, k) {
                        calls.push(Span::from_key(key));
                    }
                    proof {
                        let spans = spans_of(set_items(*set));
                        assert(spans.take(k + 1) =~= spans.take(k as int).push(spans[k as int]));
                    }
                    k = k + 1;
                }
                proof {
                    let spans = spans_of(set_items(*set));
                    assert(spans.take(k as int) =~= spans);
                }
                Some(Spots { def, decl, caller, calls })
            },
            None => None,
        }
    }

    /// Hands in the witnesses found for `caller`, whose declaration is at
    /// `span_decl` and whose body is at `span_caller`. See [`with_spots`].
    /// No record is left without a witness.
    pub fn add(&mut self, caller: FnId, span_decl: Span, span_caller: Span, span_callee: &SpanSet)
        requires
            old(self).wf(),
            span_callee.wf(),
        ensures
            final(self).wf(),
            final(self)@ == with_spots(old(self)@, caller, span_decl, span_caller, span_callee@),
            records_wf(final(self)@),
    {
        self.add_spots(caller, span_decl, span_caller, span_callee);
        proof {
            self.lemma_records_wf();
        }
    }

    fn add_spots(&mut self, caller: FnId, span_decl: Span, span_caller: Span, span_callee: &SpanSet)
        requires
            old(self).wf(),
            span_callee.wf(),
        ensures
            final(self).wf(),
            final(self)@ == with_spots(old(self)@, caller, span_decl, span_caller, span_callee@),
    {
        let ghost entries = map_entries(self.map);
        let ghost bounds = self.bounds@;
        let ghost records = self@;
        let ghost spans = span_callee@;
        let mut keep = set_new();
        let n = span_callee.len();
        let mut i: usize = 0;
        proof {
            span_callee.lemma_distinct();
        }
        while i < n
            invariant
                i <= n,
                n == spans.len(),
                spans == span_callee@,
                spans.no_duplicates(),
                set_items(keep).no_duplicates(),
                spans_of(set_items(keep)) == surviving(spans.take(i as int), span_decl, span_caller),
            decreases n - i,
        {
            let ghost keys = set_items(keep);
            if let Some(span) = span_callee.get(i) {
                proof {
                    assert(spans.take(i + 1).drop_last() =~= spans.take(i as int));
                    assert(spans.take(i + 1).last() == span);
                }
                if span != span_decl && span != span_caller {
                    let _ = set_insert(&mut keep, span.key());
                    proof {
                        lemma_spans_of(keys);
                        lemma_spans_of_push_new(keys, span);
                        lemma_push_new_no_duplicates(keys, span.spec_key());
                        lemma_surviving(spans.take(i as int), span_decl, span_caller);
                        assert(!spans.take(i as int).contains(span)) by {
                            if spans.take(i as int).contains(span) {
                                let j = choose|j: int|
                                    0 <= j < spans.take(i as int).len() && spans.take(i as int)[j]
                                        == span;
                                assert(spans[j] == spans[i as int]);
                            }
                        }
                    }
                }
            }
            i = i + 1;
        }
        proof {
            assert(spans.take(i as int) =~= spans);
        }
        let ghost kept = set_items(keep);
        if set_len(&keep) == 0 {
            return ;
        }
        match map_get_mut(&mut self.map, caller) {
            Some(calls) => {
                let ghost items = set_items(*calls);
                let m = set_len(&keep);
                let mut k: usize = 0;
                while k < m
                    invariant
                        k <= m,
                        m == kept.len(),
                        kept == set_items(keep),
                        set_items(*calls) == merge_new(items, kept.take(k as int)),
                    decreases m - k,
                {
                    if let Some(key) = set_get_index(&keep, k) {
                        let _ = set_insert(calls, key);
                        proof {
                            lemma_merge_new_step(items, kept, k as int);
                        }
                    }
                    k = k + 1;
                }
                proof {
                    assert(kept.take(k as int) =~= kept);
                    let merged = merge_new(items, kept);
                    let after = map_entries(self.map);
                    let p = choose|p: int|
                        {
                            &&& entry_at(entries, p, caller, items)
                            &&& after == entries.update(p, (caller, merged))
                        };
                    lemma_row_unique(entries, p, caller);
                    assert(entries[p].1.no_duplicates());
                    lemma_merge_new(items, kept);
                    lemma_spans_of_merge_new(items, kept);
                    assert(records[p].def == caller);
                    assert(has_record(records, caller));
                    let q = record_index(records, caller);
                    assert(entries[q].0 == caller);
                    lemma_row_unique(entries, q, caller);
                    assert forall|x: int, y: int| 0 <= x < y < after.len() implies (#[trigger] after[x]).0
                        != (#[trigger] after[y]).0 by {
                        assert(entries[x].0 != entries[y].0);
                    }
                    assert forall|x: int| 0 <= x < after.len() implies (#[trigger] after[x]).1.no_duplicates()
                        && after[x].1.len() > 0 by {
                        if x != p {
                            assert(entries[x].1.no_duplicates());
                            assert(entries[x].1.len() > 0);
                        } else {
                            assert(entries[p].1.len() > 0);
                        }
                    }
                    assert(self@ =~= with_spots(records, caller, span_decl, span_caller, spans));
                }
            },
            None => {
                map_insert(&mut self.map, caller, keep);
                self.bounds.push((span_decl, span_caller));
                proof {
                    let after = map_entries(self.map);
                    assert(after == entries.push((caller, kept)));
                    lemma_spans_of(kept);
                    crate::adjacency::lemma_push_row(entries, caller, kept);
                    assert forall|x: int| 0 <= x < after.len() implies (#[trigger] after[x]).1.len()
                        > 0 by {
                        if x < entries.len() {
                            assert(entries[x].1.len() > 0);
                        }
                    }
                    assert(!has_record(records, caller)) by {
                        if has_record(records, caller) {
                            let q = record_index(records, caller);
                            assert(entries[q].0 == caller);
                        }
                    }
                    assert(self@ =~= with_spots(records, caller, span_decl, span_caller, spans));
                }
            },
        }
    }
}

} // verus!
