use redpen::analysis::{analysis, is_silenced, Config, LocalFn, SILENCE_PANIC};
use redpen::detect::{PANIC_FMT, PANIC_NOUNWIND};
use redpen::fn_item::{Body, FnId, FnTable, Operand};
use redpen::span::Span;
use std::ops::ControlFlow;

const PASS: Config = Config { honor_silence: true, standalone: false };

fn call(lo: u32, hi: u32, callee: FnId) -> Operand {
    Operand { span: Span::new(lo, hi), callee: Some(callee) }
}

fn plain(lo: u32, hi: u32) -> Operand {
    Operand { span: Span::new(lo, hi), callee: None }
}

fn body(lo: u32, hi: u32, operands: Vec<Operand>) -> Body {
    Body { span: Span::new(lo, hi), operands }
}

fn local(def: FnId) -> LocalFn {
    LocalFn { def, attrs: Vec::new() }
}

fn silent(def: FnId) -> LocalFn {
    LocalFn { def, attrs: vec![String::from(SILENCE_PANIC)] }
}

#[test]
fn direct_call_gives_one_witness_at_the_call() {
    let mut table = FnTable::new();
    let b = table.declare(String::from("b"), Span::new(0, 6));
    let d = table.declare(String::from("d"), Span::new(50, 56));
    let s = table.declare(String::from(PANIC_NOUNWIND), Span::new(900, 910));
    assert!(table.define(b, body(0, 40, vec![plain(10, 12), call(20, 27, s)])));
    assert!(table.define(d, body(50, 90, vec![plain(60, 65)])));

    let out = analysis(table, &vec![local(b), local(d)], PASS);

    assert_eq!(out.detect.entries(), &[b, d]);
    assert_eq!(out.detect.with_panic_item(), vec![s]);
    assert_eq!(out.spots.len(), 1);
    let record = out.spots.get(0).unwrap();
    assert_eq!(record.def, b);
    assert_eq!(record.decl, Span::new(0, 6));
    assert_eq!(record.caller, Span::new(0, 40));
    assert_eq!(record.calls, vec![Span::new(20, 27)]);
    assert!(out.spots.get(1).is_none());
    assert_eq!(out.flow, ControlFlow::Continue(()));
}

#[test]
fn indirect_call_gives_the_witness_in_the_entry() {
    let mut table = FnTable::new();
    let b = table.declare(String::from("b"), Span::new(0, 6));
    let c = table.declare(String::from("c"), Span::new(100, 106));
    let s = table.declare(String::from(PANIC_FMT), Span::new(900, 910));
    assert!(table.define(b, body(0, 40, vec![call(20, 23, c)])));
    assert!(table.define(c, body(100, 140, vec![call(120, 127, s)])));

    let out = analysis(table, &vec![local(b)], PASS);

    assert_eq!(out.spots.len(), 1);
    let record = out.spots.get(0).unwrap();
    assert_eq!(record.def, b);
    assert_eq!(record.calls, vec![Span::new(20, 23)]);
}

#[test]
fn every_local_function_on_the_way_is_reported() {
    let mut table = FnTable::new();
    let b = table.declare(String::from("b"), Span::new(0, 6));
    let c = table.declare(String::from("c"), Span::new(100, 106));
    let s = table.declare(String::from(PANIC_FMT), Span::new(900, 910));
    assert!(table.define(b, body(0, 40, vec![call(20, 23, c)])));
    assert!(table.define(c, body(100, 140, vec![call(120, 127, s)])));

    let out = analysis(table, &vec![local(b), local(c)], PASS);

    assert_eq!(out.spots.len(), 2);
    let first = out.spots.get(0).unwrap();
    let second = out.spots.get(1).unwrap();
    assert_eq!((first.def, first.calls), (b, vec![Span::new(20, 23)]));
    assert_eq!((second.def, second.calls), (c, vec![Span::new(120, 127)]));
}

#[test]
fn a_silenced_function_is_no_entry() {
    let mut table = FnTable::new();
    let a = table.declare(String::from("a"), Span::new(0, 6));
    let s = table.declare(String::from(PANIC_NOUNWIND), Span::new(900, 910));
    assert!(table.define(a, body(0, 40, vec![call(20, 27, s)])));

    let out = analysis(table, &vec![silent(a)], PASS);

    assert!(out.detect.entries().is_empty());
    assert_eq!(out.detect.with_panic_item(), vec![s]);
    assert!(out.spots.is_empty());
    assert_eq!(out.spots.len(), 0);
    // The function stays in the graph.
    assert_eq!(out.graph.forward(), vec![(a, vec![s]), (s, vec![])]);
}

#[test]
fn a_silenced_function_is_still_passed_through() {
    let mut table = FnTable::new();
    let a = table.declare(String::from("a"), Span::new(0, 6));
    let b = table.declare(String::from("b"), Span::new(50, 56));
    let s = table.declare(String::from(PANIC_NOUNWIND), Span::new(900, 910));
    assert!(table.define(a, body(0, 40, vec![call(20, 27, s)])));
    assert!(table.define(b, body(50, 90, vec![call(60, 63, a)])));

    let out = analysis(table, &vec![silent(a), local(b)], PASS);

    assert_eq!(out.detect.entries(), &[b]);
    assert_eq!(out.spots.len(), 1);
    let record = out.spots.get(0).unwrap();
    assert_eq!((record.def, record.calls), (b, vec![Span::new(60, 63)]));
}

#[test]
fn the_marker_can_be_left_aside() {
    let mut table = FnTable::new();
    let a = table.declare(String::from("a"), Span::new(0, 6));
    let s = table.declare(String::from(PANIC_NOUNWIND), Span::new(900, 910));
    assert!(table.define(a, body(0, 40, vec![call(20, 27, s)])));

    let config = Config { honor_silence: false, standalone: true };
    let out = analysis(table, &vec![silent(a)], config);

    assert_eq!(out.detect.entries(), &[a]);
    assert_eq!(out.spots.len(), 1);
    assert_eq!(out.flow, ControlFlow::Break(()));
}

#[test]
fn a_missing_sink_gives_no_diagnostics() {
    let mut table = FnTable::new();
    let a = table.declare(String::from("a"), Span::new(0, 6));
    let b = table.declare(String::from("b"), Span::new(50, 56));
    assert!(table.define(a, body(0, 40, vec![call(20, 23, b)])));
    assert!(table.define(b, body(50, 90, vec![plain(60, 63)])));

    let out = analysis(table, &vec![local(a), local(b)], PASS);

    assert!(out.detect.with_panic_item().is_empty());
    assert!(out.spots.is_empty());
    assert_eq!(out.flow, ControlFlow::Continue(()));
}

#[test]
fn a_cycle_without_sink_ends_without_diagnostics() {
    let mut table = FnTable::new();
    let a = table.declare(String::from("a"), Span::new(0, 6));
    let b = table.declare(String::from("b"), Span::new(50, 56));
    let s = table.declare(String::from(PANIC_NOUNWIND), Span::new(900, 910));
    let lone = table.declare(String::from("lone"), Span::new(200, 206));
    assert!(table.define(a, body(0, 40, vec![call(20, 23, b)])));
    assert!(table.define(b, body(50, 90, vec![call(60, 63, a)])));
    assert!(table.define(lone, body(200, 240, vec![call(220, 227, s)])));

    // The sink is in the graph, but neither `a` nor `b` reaches it.
    let out = analysis(table, &vec![local(a), local(b), silent(lone)], PASS);

    assert_eq!(out.detect.with_panic_item(), vec![s]);
    assert!(out.spots.is_empty());
    assert!(!out.graph.reachable(a, s));
    assert!(!out.graph.reachable(b, s));
    assert!(out.graph.reachable(a, a));
    assert!(out.graph.call_path(a, s).is_empty());
    assert_eq!(out.graph.call_path(a, a), vec![vec![a, b, a]]);
    assert!(out.graph.backtrace(a).is_empty());
}

#[test]
fn the_marker_may_stand_in_white_space() {
    assert!(is_silenced(&vec![String::from("  #[redpen::silence_panic] \n")]));
    assert!(is_silenced(&vec![String::from("#[other]"), String::from("\t#[redpen::silence_panic]")]));
    assert!(!is_silenced(&vec![String::from("#[redpen::silence_panic] x")]));
    assert!(!is_silenced(&vec![String::from("#[redpen:: silence_panic]")]));
    assert!(!is_silenced(&Vec::new()));
}

#[test]
fn entries_may_repeat_and_sinks_add_up() {
    let mut table = FnTable::new();
    let a = table.declare(String::from("a"), Span::new(0, 6));
    let s1 = table.declare(String::from(PANIC_NOUNWIND), Span::new(900, 910));
    let s2 = table.declare(String::from(PANIC_FMT), Span::new(920, 930));
    assert!(table.define(
        a,
        body(0, 40, vec![call(30, 33, s2), call(20, 23, s1), call(30, 33, s2), call(35, 38, s1)]),
    ));

    let out = analysis(table, &vec![local(a), local(a)], PASS);

    // Sinks are taken in the order of their names: first all witnesses for
    // `s1`, then those for `s2`.
    assert_eq!(out.detect.with_panic_item(), vec![s1, s2]);
    assert_eq!(out.spots.len(), 1);
    let record = out.spots.get(0).unwrap();
    assert_eq!(record.calls, vec![Span::new(20, 23), Span::new(35, 38), Span::new(30, 33)]);
}
