use redpen::call_graph::CallGraph;
use redpen::fn_item::{Body, FnId, FnTable, Operand};
use redpen::span::Span;

/// A graph over functions `0..n` with the calls given, expanded from
/// `roots`.
fn graph_of(n: u64, edges: &[(FnId, FnId)], roots: &[FnId]) -> CallGraph {
    let mut table = FnTable::new();
    for i in 0..n {
        table.declare(format!("f{i}"), Span::new(0, 1));
    }
    for caller in 0..n {
        let operands: Vec<Operand> = edges
            .iter()
            .filter(|(from, _)| *from == caller)
            .map(|(_, to)| Operand { span: Span::new(2, 3), callee: Some(*to) })
            .collect();
        if !operands.is_empty() {
            assert!(table.define(caller, Body { span: Span::new(0, 10), operands }));
        }
    }
    let mut graph = CallGraph::new(table);
    for root in roots {
        graph.reach_in_depth(*root);
    }
    graph
}

#[test]
fn reachable_needs_a_call() {
    let graph = graph_of(4, &[(0, 1), (1, 2)], &[0, 3]);
    assert!(graph.reachable(0, 1));
    assert!(graph.reachable(0, 2));
    assert!(graph.reachable(1, 2));
    assert!(!graph.reachable(0, 0));
    assert!(!graph.reachable(2, 0));
    assert!(!graph.reachable(0, 3));
    assert!(!graph.reachable(3, 3));
}

#[test]
fn reachable_ends_on_a_cycle_without_the_sink() {
    let graph = graph_of(3, &[(0, 1), (1, 0)], &[0, 2]);
    assert!(!graph.reachable(0, 2));
    assert!(!graph.reachable(1, 2));
    assert!(graph.reachable(0, 0));
    assert!(graph.reachable(1, 1));
}

#[test]
fn reachable_looks_past_a_cycle() {
    let graph = graph_of(5, &[(0, 1), (1, 2), (2, 0), (2, 3), (3, 3), (3, 4)], &[0]);
    assert!(graph.reachable(0, 4));
    assert!(graph.reachable(3, 4));
    assert!(!graph.reachable(4, 0));
    assert!(!graph.reachable(3, 0));
}

#[test]
fn call_paths_are_all_found_in_order() {
    // 0 -> 1 -> 3, 0 -> 2 -> 3, 0 -> 3, 1 -> 2
    let graph = graph_of(4, &[(0, 1), (0, 2), (0, 3), (1, 3), (1, 2), (2, 3)], &[0]);
    assert_eq!(
        graph.call_path(0, 3),
        vec![vec![0, 1, 3], vec![0, 1, 2, 3], vec![0, 2, 3], vec![0, 3]]
    );
    assert_eq!(graph.call_path(1, 3), vec![vec![1, 3], vec![1, 2, 3]]);
    assert_eq!(graph.call_path(3, 0), Vec::<Vec<FnId>>::new());
    assert_eq!(graph.call_path(0, 0), Vec::<Vec<FnId>>::new());
}

#[test]
fn a_call_path_does_not_pass_through_its_end() {
    // 0 -> 1 -> 2 -> 1: the walk ends at its first 1.
    let graph = graph_of(3, &[(0, 1), (1, 2), (2, 1)], &[0]);
    assert_eq!(graph.call_path(0, 1), vec![vec![0, 1]]);
    assert_eq!(graph.call_path(0, 2), vec![vec![0, 1, 2]]);
    assert_eq!(graph.call_path(1, 1), vec![vec![1, 2, 1]]);
}

#[test]
fn call_paths_end_on_cycles() {
    // A cycle 0 -> 1 -> 2 -> 0 with an exit 2 -> 3.
    let graph = graph_of(5, &[(0, 1), (1, 2), (2, 0), (2, 3), (1, 1)], &[0, 4]);
    assert_eq!(graph.call_path(0, 3), vec![vec![0, 1, 2, 3]]);
    assert_eq!(graph.call_path(0, 0), vec![vec![0, 1, 2, 0]]);
    assert_eq!(graph.call_path(1, 1), vec![vec![1, 2, 0, 1], vec![1, 1]]);
    assert!(graph.call_path(0, 4).is_empty());
}

#[test]
fn backtrace_leads_to_the_roots() {
    // roots 0 and 4; 0 -> 1 -> 3, 0 -> 2 -> 3, 4 -> 2
    let graph = graph_of(5, &[(0, 1), (0, 2), (1, 3), (2, 3), (4, 2)], &[0, 4]);
    assert_eq!(
        graph.backtrace(3),
        vec![vec![3, 1, 0], vec![3, 2, 0], vec![3, 2, 4]]
    );
    assert_eq!(graph.backtrace(0), vec![vec![0]]);
    assert_eq!(graph.backtrace(2), vec![vec![2, 0], vec![2, 4]]);
}

#[test]
fn backtrace_ends_on_cycles() {
    // 0 -> 1 -> 2 -> 1, 2 -> 3
    let graph = graph_of(4, &[(0, 1), (1, 2), (2, 1), (2, 3)], &[0]);
    assert_eq!(graph.backtrace(3), vec![vec![3, 2, 1, 0]]);
    // Within a cycle that no root leads into there is no way out.
    let closed = graph_of(2, &[(0, 1), (1, 0)], &[0]);
    assert!(closed.backtrace(0).is_empty());
}

#[test]
fn many_paths_are_counted_right() {
    // A ladder: each of 2i, 2i + 1 calls both of 2i + 2, 2i + 3.
    let mut edges = vec![(0, 1), (0, 2)];
    for i in 0..5u64 {
        let (a, b) = (2 * i + 1, 2 * i + 2);
        edges.push((a, a + 2));
        edges.push((a, b + 2));
        edges.push((b, a + 2));
        edges.push((b, b + 2));
    }
    edges.push((11, 13));
    edges.push((12, 13));
    let graph = graph_of(14, &edges, &[0]);
    let paths = graph.call_path(0, 13);
    assert_eq!(paths.len(), 64);
    for path in &paths {
        assert_eq!(path.len(), 8);
        assert_eq!((path[0], path[7]), (0, 13));
    }
    let mut sorted = paths.clone();
    sorted.sort();
    sorted.dedup();
    assert_eq!(sorted.len(), 64);
    assert_eq!(graph.backtrace(13).len(), 64);
}
