use redpen::call_graph::CallGraph;
use redpen::fn_item::{Body, FnId, FnTable, Operand};
use redpen::span::Span;

fn call(lo: u32, hi: u32, callee: FnId) -> Operand {
    Operand { span: Span::new(lo, hi), callee: Some(callee) }
}

fn body(operands: Vec<Operand>) -> Body {
    Body { span: Span::new(0, 1000), operands }
}

/// A table of functions named as given, none with a body yet.
fn declared(names: &[&str]) -> (FnTable, Vec<FnId>) {
    let mut table = FnTable::new();
    let mut ids = Vec::new();
    for (i, name) in names.iter().enumerate() {
        let at = 10 * i as u32;
        ids.push(table.declare(String::from(*name), Span::new(at, at + 5)));
    }
    (table, ids)
}

/// Gives `caller` a body that calls `callees`, in that order.
fn calls(table: &mut FnTable, caller: FnId, callees: &[FnId]) {
    let operands = callees.iter().enumerate().map(|(i, c)| call(i as u32, i as u32 + 1, *c)).collect();
    assert!(table.define(caller, body(operands)));
}

#[test]
fn expansion_goes_depth_first_and_records_both_directions() {
    let (mut table, f) = declared(&["main", "x", "y", "z"]);
    calls(&mut table, f[0], &[f[1], f[3]]);
    calls(&mut table, f[1], &[f[2]]);
    calls(&mut table, f[2], &[f[3]]);

    let mut graph = CallGraph::new(table);
    graph.reach_in_depth(f[0]);

    assert_eq!(
        graph.forward(),
        vec![(f[0], vec![f[1], f[3]]), (f[1], vec![f[2]]), (f[2], vec![f[3]]), (f[3], vec![])]
    );
    assert_eq!(
        graph.backward(),
        vec![(f[1], vec![f[0]]), (f[3], vec![f[0], f[2]]), (f[2], vec![f[1]])]
    );
}

#[test]
fn three_call_sites_make_one_edge() {
    let (mut table, f) = declared(&["c", "d"]);
    calls(&mut table, f[0], &[f[1], f[1], f[1]]);

    let mut graph = CallGraph::new(table);
    graph.reach_in_depth(f[0]);

    assert_eq!(graph.forward(), vec![(f[0], vec![f[1]]), (f[1], vec![])]);
    assert_eq!(graph.backward(), vec![(f[1], vec![f[0]])]);
}

#[test]
fn callees_stand_in_the_order_of_first_reference() {
    let (mut table, f) = declared(&["a", "b", "c", "d"]);
    calls(&mut table, f[0], &[f[3], f[1], f[3], f[2], f[1]]);

    let mut graph = CallGraph::new(table);
    graph.reach_in_depth(f[0]);

    assert_eq!(graph.forward()[0], (f[0], vec![f[3], f[1], f[2]]));
}

#[test]
fn edges_are_symmetric() {
    let (mut table, f) = declared(&["a", "b", "c", "d", "e"]);
    calls(&mut table, f[0], &[f[1], f[2]]);
    calls(&mut table, f[1], &[f[2], f[0]]);
    calls(&mut table, f[2], &[f[3]]);
    calls(&mut table, f[4], &[f[0]]);

    let mut graph = CallGraph::new(table);
    graph.reach_in_depth(f[4]);
    graph.sort();

    let forward = graph.forward();
    let backward = graph.backward();
    for u in 0..5u64 {
        for v in 0..5u64 {
            let calls = forward.iter().any(|(k, row)| *k == u && row.contains(&v));
            let called = backward.iter().any(|(k, row)| *k == v && row.contains(&u));
            assert_eq!(calls, called, "{u} -> {v}");
        }
    }
    assert!(forward.iter().any(|(k, row)| *k == f[1] && row.contains(&f[0])));
}

#[test]
fn an_expanded_function_is_not_expanded_again() {
    let (mut table, f) = declared(&["a", "b"]);
    calls(&mut table, f[0], &[f[1]]);
    calls(&mut table, f[1], &[f[0]]);

    let mut graph = CallGraph::new(table);
    graph.reach_in_depth(f[0]);
    let once = (graph.forward(), graph.backward());
    graph.reach_in_depth(f[1]);
    graph.reach_in_depth(f[0]);

    assert_eq!((graph.forward(), graph.backward()), once);
    assert_eq!(once.0, vec![(f[0], vec![f[1]]), (f[1], vec![f[0]])]);
    assert_eq!(once.1, vec![(f[1], vec![f[0]]), (f[0], vec![f[1]])]);
}

#[test]
fn a_function_calling_itself_is_its_own_caller() {
    let (mut table, f) = declared(&["a"]);
    calls(&mut table, f[0], &[f[0]]);

    let mut graph = CallGraph::new(table);
    graph.reach_in_depth(f[0]);

    assert_eq!(graph.forward(), vec![(f[0], vec![f[0]])]);
    assert_eq!(graph.backward(), vec![(f[0], vec![f[0]])]);
    assert!(graph.reachable(f[0], f[0]));
}

#[test]
fn a_function_without_body_is_a_leaf() {
    let (table, f) = declared(&["ext"]);

    let mut graph = CallGraph::new(table);
    graph.reach_in_depth(f[0]);

    assert_eq!(graph.forward(), vec![(f[0], vec![])]);
    assert!(graph.backward().is_empty());
}

#[test]
fn an_unknown_function_leaves_the_graph_alone() {
    let (mut table, f) = declared(&["a", "b"]);
    calls(&mut table, f[0], &[f[1]]);

    let mut graph = CallGraph::new(table);
    graph.reach_in_depth(7);
    assert!(graph.forward().is_empty());
    graph.reach_in_depth(f[0]);
    graph.reach_in_depth(7);

    assert_eq!(graph.forward().len(), 2);
    assert!(!graph.reachable(7, f[0]));
    assert!(graph.call_path(7, f[0]).is_empty());
    assert_eq!(graph.backtrace(7), vec![vec![7]]);
}

#[test]
fn sorting_orders_rows_and_items_by_name() {
    let (mut table, f) = declared(&["m", "zeta", "alpha", "beta", "Alpha", "alph"]);
    calls(&mut table, f[0], &[f[1], f[2], f[3], f[4], f[5]]);
    calls(&mut table, f[1], &[f[3], f[2]]);

    let mut graph = CallGraph::new(table);
    graph.reach_in_depth(f[0]);
    assert_eq!(graph.forward()[0], (f[0], vec![f[1], f[2], f[3], f[4], f[5]]));
    graph.sort();

    // "Alpha" < "alph" < "alpha" < "beta" < "m" < "zeta"
    assert_eq!(
        graph.forward(),
        vec![
            (f[4], vec![]),
            (f[5], vec![]),
            (f[2], vec![]),
            (f[3], vec![]),
            (f[0], vec![f[4], f[5], f[2], f[3], f[1]]),
            (f[1], vec![f[2], f[3]]),
        ]
    );
    assert_eq!(
        graph.backward(),
        vec![
            (f[4], vec![f[0]]),
            (f[5], vec![f[0]]),
            (f[2], vec![f[0], f[1]]),
            (f[3], vec![f[0], f[1]]),
            (f[1], vec![f[0]]),
        ]
    );
}

#[test]
fn sorting_is_stable_among_equal_names() {
    let (mut table, f) = declared(&["root", "same", "same", "aaa", "same"]);
    calls(&mut table, f[0], &[f[4], f[2], f[3], f[1]]);

    let mut graph = CallGraph::new(table);
    graph.reach_in_depth(f[0]);
    graph.sort();

    assert_eq!(graph.forward()[1], (f[0], vec![f[3], f[4], f[2], f[1]]));
    let keys: Vec<FnId> = graph.forward().iter().map(|(k, _)| *k).collect();
    assert_eq!(keys, vec![f[3], f[0], f[4], f[2], f[1]]);
}

#[test]
fn two_runs_agree_whatever_the_order_of_operands() {
    let names = ["main", "util", "helper", "io", "fmt"];
    let (mut first, f) = declared(&names);
    calls(&mut first, f[0], &[f[1], f[2], f[3]]);
    calls(&mut first, f[1], &[f[4], f[3]]);
    calls(&mut first, f[2], &[f[0], f[4]]);
    let (mut second, g) = declared(&names);
    calls(&mut second, g[0], &[g[3], g[2], g[1], g[2]]);
    calls(&mut second, g[1], &[g[3], g[4], g[3]]);
    calls(&mut second, g[2], &[g[4], g[0]]);
    assert_eq!(f, g);

    let mut a = CallGraph::new(first);
    a.reach_in_depth(f[0]);
    let mut b = CallGraph::new(second);
    b.reach_in_depth(g[2]);
    b.reach_in_depth(g[0]);
    assert_ne!(a.forward(), b.forward());
    a.sort();
    b.sort();

    assert_eq!(a.forward(), b.forward());
    assert_eq!(a.backward(), b.backward());
}

#[test]
fn lookup_finds_the_first_of_a_name() {
    let (mut table, f) = declared(&["a", "twin", "twin", "never"]);
    calls(&mut table, f[0], &[f[2], f[1]]);

    let mut graph = CallGraph::new(table);
    assert_eq!(graph.get_fn_item("a"), None);
    graph.reach_in_depth(f[0]);

    assert_eq!(graph.get_fn_item("a"), Some(f[0]));
    assert_eq!(graph.get_fn_item("twin"), Some(f[2]));
    assert_eq!(graph.get_fn_item("never"), None);
    assert_eq!(graph.get_fn_item("tw"), None);
    assert_eq!(graph.get_fn_item(""), None);
    graph.sort();
    assert_eq!(graph.get_fn_item("twin"), Some(f[2]));
    assert_eq!(graph.fn_table().len(), 4);
}
