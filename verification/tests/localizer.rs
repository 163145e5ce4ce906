use redpen::call_graph::CallGraph;
use redpen::detect::{Detect, BEGIN_PANIC, PANIC_FMT, PANIC_NOUNWIND, PANIC_NOUNWIND_FMT};
use redpen::fn_item::{Body, FnId, FnTable, Operand};
use redpen::span::Span;

fn call(lo: u32, hi: u32, callee: FnId) -> Operand {
    Operand { span: Span::new(lo, hi), callee: Some(callee) }
}

fn witnesses(graph: &CallGraph, entries: Vec<FnId>) -> Vec<(FnId, Vec<Span>)> {
    let detect = Detect::new(graph, entries);
    let spots = graph.analyze(&detect);
    (0..spots.len())
        .map(|i| {
            let r = spots.get(i).unwrap();
            (r.def, r.calls)
        })
        .collect()
}

#[test]
fn the_four_sinks_are_looked_for_in_order() {
    let mut table = FnTable::new();
    let a = table.declare(String::from("a"), Span::new(0, 6));
    let fmt = table.declare(String::from(PANIC_FMT), Span::new(900, 901));
    let begin = table.declare(String::from(BEGIN_PANIC), Span::new(910, 911));
    let nounwind_fmt = table.declare(String::from(PANIC_NOUNWIND_FMT), Span::new(920, 921));
    let nounwind = table.declare(String::from(PANIC_NOUNWIND), Span::new(930, 931));
    assert!(table.define(
        a,
        Body {
            span: Span::new(0, 100),
            operands: vec![call(1, 2, fmt), call(3, 4, begin), call(5, 6, nounwind_fmt), call(7, 8, nounwind)],
        },
    ));
    let mut graph = CallGraph::new(table);

    let before = Detect::new(&graph, vec![a]);
    assert!(before.with_panic_item().is_empty());
    assert_eq!(before.entries(), &[a]);

    graph.reach_in_depth(a);
    let detect = Detect::new(&graph, vec![a, a, 9]);
    assert_eq!(detect.with_panic_item(), vec![nounwind, nounwind_fmt, begin, fmt]);
    assert_eq!(detect.entries(), &[a, a, 9]);
}

#[test]
fn a_sink_that_is_not_in_the_graph_is_left_out() {
    let mut table = FnTable::new();
    let a = table.declare(String::from("a"), Span::new(0, 6));
    let begin = table.declare(String::from(BEGIN_PANIC), Span::new(910, 911));
    table.declare(String::from(PANIC_FMT), Span::new(900, 901));
    assert!(table.define(a, Body { span: Span::new(0, 100), operands: vec![call(3, 4, begin)] }));
    let mut graph = CallGraph::new(table);
    graph.reach_in_depth(a);

    // `panic_fmt` is in the table, but nothing expanded calls it.
    assert_eq!(Detect::new(&graph, vec![]).with_panic_item(), vec![begin]);
}

#[test]
fn only_operations_within_the_body_are_witnesses() {
    let mut table = FnTable::new();
    let a = table.declare(String::from("a"), Span::new(10, 16));
    let s = table.declare(String::from(PANIC_NOUNWIND), Span::new(900, 901));
    assert!(table.define(
        a,
        Body {
            span: Span::new(10, 50),
            operands: vec![
                call(5, 12, s),
                call(45, 51, s),
                call(10, 50, s),
                call(10, 16, s),
                call(10, 17, s),
                call(50, 50, s),
                call(200, 210, s),
                Operand { span: Span::new(20, 25), callee: None },
            ],
        },
    ));
    let mut graph = CallGraph::new(table);
    graph.reach_in_depth(a);

    assert_eq!(witnesses(&graph, vec![a]), vec![(a, vec![Span::new(10, 17), Span::new(50, 50)])]);
}

#[test]
fn witnesses_come_grouped_by_the_function_referred_to() {
    let mut table = FnTable::new();
    let a = table.declare(String::from("a"), Span::new(0, 6));
    let b = table.declare(String::from("b"), Span::new(100, 106));
    let c = table.declare(String::from("c"), Span::new(200, 206));
    let other = table.declare(String::from("other"), Span::new(300, 306));
    let s = table.declare(String::from(PANIC_NOUNWIND), Span::new(900, 901));
    assert!(table.define(
        a,
        Body {
            span: Span::new(0, 90),
            operands: vec![
                call(10, 11, c),
                call(20, 21, other),
                call(30, 31, b),
                call(40, 41, c),
                call(30, 31, c),
                call(50, 51, s),
                call(60, 61, b),
                call(10, 11, c),
            ],
        },
    ));
    assert!(table.define(b, Body { span: Span::new(100, 190), operands: vec![call(110, 111, s)] }));
    assert!(table.define(c, Body { span: Span::new(200, 290), operands: vec![call(210, 211, b)] }));
    let mut graph = CallGraph::new(table);
    graph.reach_in_depth(a);
    graph.sort();

    // First the calls of `c`, then those of `b`, then that of the sink;
    // the span 30..31 is found under `c` first.
    assert_eq!(
        witnesses(&graph, vec![a]),
        vec![(
            a,
            vec![
                Span::new(10, 11),
                Span::new(40, 41),
                Span::new(30, 31),
                Span::new(60, 61),
                Span::new(50, 51),
            ]
        )]
    );
}

#[test]
fn a_function_beside_the_paths_gives_no_witness() {
    let mut table = FnTable::new();
    let a = table.declare(String::from("a"), Span::new(0, 6));
    let dead = table.declare(String::from("dead"), Span::new(100, 106));
    let s = table.declare(String::from(PANIC_NOUNWIND), Span::new(900, 901));
    let late = table.declare(String::from("late"), Span::new(300, 306));
    assert!(table.define(
        a,
        Body { span: Span::new(0, 90), operands: vec![call(10, 11, dead), call(20, 21, s), call(30, 31, late)] },
    ));
    // `late` calls the sink, and then `a` again: on a path from `a` only
    // up to the sink.
    assert!(table.define(late, Body { span: Span::new(300, 390), operands: vec![call(310, 311, s), call(320, 321, a)] }));
    let mut graph = CallGraph::new(table);
    graph.reach_in_depth(a);

    assert_eq!(
        witnesses(&graph, vec![a, dead, late, s, 77]),
        vec![
            (a, vec![Span::new(20, 21), Span::new(30, 31)]),
            (late, vec![Span::new(310, 311), Span::new(320, 321)]),
        ]
    );
}

#[test]
fn an_entry_that_is_the_sink_reports_its_way_back() {
    let mut table = FnTable::new();
    let s = table.declare(String::from(PANIC_NOUNWIND), Span::new(0, 6));
    let helper = table.declare(String::from("helper"), Span::new(100, 106));
    assert!(table.define(s, Body { span: Span::new(0, 90), operands: vec![call(10, 11, helper)] }));
    assert!(table.define(helper, Body { span: Span::new(100, 190), operands: vec![call(110, 111, s)] }));
    let mut graph = CallGraph::new(table);
    graph.reach_in_depth(s);

    assert_eq!(witnesses(&graph, vec![s]), vec![(s, vec![Span::new(10, 11)])]);
}
