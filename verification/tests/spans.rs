use redpen::diagnostics::{PanicSpots, SpanSet};
use redpen::fn_item::{Body, FnItem, FnTable, Operand};
use redpen::span::{contains_span, Span};

fn spans(set: &SpanSet) -> Vec<Span> {
    (0..set.len()).map(|i| set.get(i).unwrap()).collect()
}

fn set_of(items: &[(u32, u32)]) -> SpanSet {
    let mut set = SpanSet::new();
    for (lo, hi) in items {
        set.insert(Span::new(*lo, *hi));
    }
    set
}

fn records(spots: &PanicSpots) -> Vec<(u64, Span, Span, Vec<Span>)> {
    (0..spots.len())
        .map(|i| {
            let r = spots.get(i).unwrap();
            (r.def, r.decl, r.caller, r.calls)
        })
        .collect()
}

#[test]
fn containment_counts_the_bounds_in() {
    let large = Span::new(10, 20);
    assert!(contains_span(large, Span::new(10, 20)));
    assert!(contains_span(large, Span::new(12, 15)));
    assert!(contains_span(large, Span::new(20, 20)));
    assert!(!contains_span(large, Span::new(9, 15)));
    assert!(!contains_span(large, Span::new(15, 21)));
    assert!(!contains_span(Span::new(12, 15), large));
    assert!(large.contains(Span::new(11, 19)));
    assert!(!large.contains(Span::new(0, 5)));
}

#[test]
fn a_span_is_found_again_from_its_key() {
    assert_eq!(Span::new(0, 0).key(), 0);
    assert_eq!(Span::new(0, 7).key(), 7);
    assert_eq!(Span::new(1, 0).key(), 1 << 32);
    assert_eq!(Span::new(3, 5).key(), (3 << 32) + 5);
    assert_eq!(Span::new(u32::MAX, u32::MAX).key(), u64::MAX);
    for span in [Span::new(0, 0), Span::new(17, 4), Span::new(u32::MAX, 1), Span::new(9, u32::MAX)] {
        assert_eq!(Span::from_key(span.key()), span);
    }
    assert_eq!(Span::from_key(u64::MAX), Span::new(u32::MAX, u32::MAX));
    assert_eq!(Span::from_key(1 << 32), Span { lo: 1, hi: 0 });
}

#[test]
fn offsets_count_from_the_start_of_the_base() {
    let base = Span::new(100, 200);
    assert_eq!(Span::new(100, 106).relative_to(base), Some((0, 6)));
    assert_eq!(Span::new(120, 127).relative_to(base), Some((20, 27)));
    assert_eq!(Span::new(150, 250).relative_to(base), Some((50, 150)));
    assert_eq!(Span::new(130, 130).relative_to(base), Some((30, 30)));
    assert_eq!(Span::new(99, 120).relative_to(base), None);
    assert_eq!(Span::new(130, 120).relative_to(base), None);
}

#[test]
fn a_span_set_keeps_the_order_of_entry() {
    let mut set = SpanSet::new();
    assert!(set.is_empty());
    assert!(set.insert(Span::new(5, 6)));
    assert!(set.insert(Span::new(1, 2)));
    assert!(!set.insert(Span::new(5, 6)));
    assert!(set.insert(Span::new(6, 5)));
    assert_eq!(spans(&set), vec![Span::new(5, 6), Span::new(1, 2), Span::new(6, 5)]);
    assert_eq!(set.len(), 3);
    assert!(!set.is_empty());
    assert!(set.contains(Span::new(1, 2)));
    assert!(!set.contains(Span::new(2, 1)));
    assert_eq!(set.get(3), None);
}

#[test]
fn the_table_gives_identities_in_order() {
    let mut table = FnTable::new();
    assert_eq!(table.len(), 0);
    assert!(table.get(0).is_none());
    let a = table.declare(String::from("a"), Span::new(1, 2));
    let b = table.declare(String::from("b"), Span::new(3, 4));
    assert_eq!((a, b), (0, 1));
    assert_eq!(table.len(), 2);
    let item = table.get(b).unwrap();
    assert_eq!((item.def, item.name.as_str(), item.span), (1, "b", Span::new(3, 4)));
    assert!(item.body.is_none());
    assert!(item.is("b"));
    assert!(!item.is("a"));
    assert!(!item.is("b "));
    assert!(table.get(2).is_none());
}

#[test]
fn a_body_must_refer_to_the_table() {
    let mut table = FnTable::new();
    let a = table.declare(String::from("a"), Span::new(1, 2));
    let known = Operand { span: Span::new(5, 6), callee: Some(a) };
    let nothing = Operand { span: Span::new(5, 6), callee: None };
    let unknown = Operand { span: Span::new(7, 8), callee: Some(1) };

    assert!(!table.define(a, Body { span: Span::new(0, 9), operands: vec![known, unknown] }));
    assert!(table.get(a).unwrap().body.is_none());
    assert!(!table.define(1, Body { span: Span::new(0, 9), operands: vec![] }));
    assert_eq!(table.len(), 1);
    assert!(table.define(a, Body { span: Span::new(0, 9), operands: vec![known, nothing] }));
    let item = table.get(a).unwrap();
    assert_eq!(item.name, "a");
    assert_eq!(item.span, Span::new(1, 2));
    let body = item.body.as_ref().unwrap();
    assert_eq!(body.span, Span::new(0, 9));
    assert_eq!(body.operands.len(), 2);
    assert_eq!(body.operands[0].callee, Some(a));
    // A definition is completed once.
    assert!(!table.define(a, Body { span: Span::new(0, 8), operands: vec![] }));
    assert_eq!(table.get(a).unwrap().body.as_ref().unwrap().span, Span::new(0, 9));
}

#[test]
fn an_item_holds_what_it_was_made_of() {
    let item = FnItem::new(4, String::from("core::fmt::write"), Span::new(3, 9), None);
    assert_eq!(item.def, 4);
    assert!(item.is("core::fmt::write"));
    assert!(!item.is("core::fmt"));
    assert_eq!(item.span, Span::new(3, 9));
    assert!(item.body.is_none());
}

#[test]
fn witnesses_are_kept_per_caller() {
    let mut spots = PanicSpots::new();
    assert!(spots.is_empty());
    let decl = Span::new(0, 6);
    let body = Span::new(0, 40);

    spots.add(7, decl, body, &set_of(&[(20, 27), (10, 12)]));
    assert_eq!(records(&spots), vec![(7, decl, body, vec![Span::new(20, 27), Span::new(10, 12)])]);

    spots.add(3, Span::new(50, 56), Span::new(50, 90), &set_of(&[(60, 61)]));
    spots.add(7, decl, body, &set_of(&[(30, 31), (10, 12), (5, 6)]));
    assert_eq!(
        records(&spots),
        vec![
            (7, decl, body, vec![Span::new(20, 27), Span::new(10, 12), Span::new(30, 31), Span::new(5, 6)]),
            (3, Span::new(50, 56), Span::new(50, 90), vec![Span::new(60, 61)]),
        ]
    );
    assert_eq!(spots.len(), 2);
    assert!(!spots.is_empty());
    assert!(spots.get(2).is_none());
}

#[test]
fn the_declaration_and_the_body_are_no_witnesses() {
    let mut spots = PanicSpots::new();
    let decl = Span::new(0, 6);
    let body = Span::new(0, 40);

    // Nothing is left: no record, not even an empty one.
    spots.add(1, decl, body, &set_of(&[(0, 40), (0, 6)]));
    assert!(spots.is_empty());
    spots.add(1, decl, body, &SpanSet::new());
    assert!(spots.is_empty());

    spots.add(1, decl, body, &set_of(&[(0, 6), (20, 27), (0, 40), (1, 2)]));
    assert_eq!(records(&spots), vec![(1, decl, body, vec![Span::new(20, 27), Span::new(1, 2)])]);

    // The record keeps the spans it was made with.
    spots.add(1, Span::new(20, 27), Span::new(1, 2), &set_of(&[(20, 27), (1, 2), (0, 6)]));
    assert_eq!(
        records(&spots),
        vec![(1, decl, body, vec![Span::new(20, 27), Span::new(1, 2), Span::new(0, 6)])]
    );
}
