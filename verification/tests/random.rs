use redpen::call_graph::CallGraph;
use redpen::fn_item::{Body, FnId, FnTable, Operand};
use redpen::span::Span;

/// A small generator of numbers, the same on every run.
struct Numbers(u64);

impl Numbers {
    fn next(&mut self, below: u64) -> u64 {
        self.0 = self.0.wrapping_mul(6364136223846793005).wrapping_add(1442695040888963407);
        (self.0 >> 33) % below
    }
}

/// The calls of a unit of `n` functions: for each function the functions
/// that its body names, in order and with repeats.
fn unit(numbers: &mut Numbers, n: u64) -> Vec<Vec<FnId>> {
    (0..n)
        .map(|_| {
            let calls = numbers.next(4);
            (0..calls).map(|_| numbers.next(n)).collect()
        })
        .collect()
}

fn table_of(calls: &[Vec<FnId>]) -> FnTable {
    let mut table = FnTable::new();
    for i in 0..calls.len() {
        table.declare(format!("f{i:02}"), Span::new(0, 1));
    }
    for (caller, callees) in calls.iter().enumerate() {
        if !callees.is_empty() {
            let operands =
                callees.iter().map(|c| Operand { span: Span::new(2, 3), callee: Some(*c) }).collect();
            assert!(table.define(caller as FnId, Body { span: Span::new(0, 10), operands }));
        }
    }
    table
}

fn row(rows: &[(FnId, Vec<FnId>)], key: FnId) -> Option<&Vec<FnId>> {
    rows.iter().find(|(k, _)| *k == key).map(|(_, row)| row)
}

fn walks_forward(
    rows: &[(FnId, Vec<FnId>)],
    stop: FnId,
    path: &mut Vec<FnId>,
    found: &mut Vec<Vec<FnId>>,
) {
    let Some(callees) = row(rows, *path.last().unwrap()) else { return };
    for callee in callees {
        if *callee == stop {
            let mut whole = path.clone();
            whole.push(*callee);
            found.push(whole);
        } else if !path.contains(callee) {
            path.push(*callee);
            walks_forward(rows, stop, path, found);
            path.pop();
        }
    }
}

fn walks_back(rows: &[(FnId, Vec<FnId>)], path: &mut Vec<FnId>, found: &mut Vec<Vec<FnId>>) {
    let Some(callers) = row(rows, *path.last().unwrap()) else {
        found.push(path.clone());
        return;
    };
    for caller in callers {
        if !path.contains(caller) {
            path.push(*caller);
            walks_back(rows, path, found);
            path.pop();
        }
    }
}

/// Who reaches whom by one call or more.
fn closure(n: usize, rows: &[(FnId, Vec<FnId>)]) -> Vec<Vec<bool>> {
    let mut reach = vec![vec![false; n]; n];
    for (caller, callees) in rows {
        for callee in callees {
            reach[*caller as usize][*callee as usize] = true;
        }
    }
    for k in 0..n {
        for i in 0..n {
            for j in 0..n {
                if reach[i][k] && reach[k][j] {
                    reach[i][j] = true;
                }
            }
        }
    }
    reach
}

#[test]
fn queries_agree_with_a_plain_search() {
    let mut numbers = Numbers(7);
    for round in 0..150 {
        let n = 1 + numbers.next(7);
        let calls = unit(&mut numbers, n);
        let mut graph = CallGraph::new(table_of(&calls));
        for _ in 0..1 + numbers.next(3) {
            graph.reach_in_depth(numbers.next(n + 1));
        }
        if round % 2 == 0 {
            graph.sort();
        }
        let forward = graph.forward();
        let backward = graph.backward();

        // Rows record the calls of the bodies, each once, in both directions.
        for (caller, callees) in &forward {
            let mut named = calls[*caller as usize].clone();
            named.sort();
            named.dedup();
            let mut recorded = callees.clone();
            recorded.sort();
            assert_eq!(recorded, named);
            for callee in callees {
                assert!(row(&forward, *callee).is_some());
                assert!(row(&backward, *callee).unwrap().contains(caller));
            }
        }
        for (callee, callers) in &backward {
            assert!(!callers.is_empty());
            let mut once = callers.clone();
            once.sort();
            once.dedup();
            assert_eq!(once.len(), callers.len());
            for caller in callers {
                assert!(row(&forward, *caller).unwrap().contains(callee));
            }
        }

        let reach = closure(n as usize, &forward);
        for start in 0..n {
            for stop in 0..n {
                assert_eq!(graph.reachable(start, stop), reach[start as usize][stop as usize]);
                let mut expected = Vec::new();
                walks_forward(&forward, stop, &mut vec![start], &mut expected);
                assert_eq!(graph.call_path(start, stop), expected);
                assert_eq!(expected.is_empty(), !reach[start as usize][stop as usize]);
            }
            let mut expected = Vec::new();
            walks_back(&backward, &mut vec![start], &mut expected);
            assert_eq!(graph.backtrace(start), expected);
        }
    }
}

#[test]
fn sorted_graphs_do_not_depend_on_the_order_of_operands() {
    let mut numbers = Numbers(99);
    for _ in 0..100 {
        let n = 1 + numbers.next(8);
        let calls = unit(&mut numbers, n);
        let mut shuffled = calls.clone();
        for callees in &mut shuffled {
            for i in (1..callees.len()).rev() {
                callees.swap(i, numbers.next(i as u64 + 1) as usize);
            }
        }
        let roots: Vec<FnId> = (0..1 + numbers.next(3)).map(|_| numbers.next(n)).collect();

        let mut first = CallGraph::new(table_of(&calls));
        for root in &roots {
            first.reach_in_depth(*root);
        }
        first.sort();
        let mut second = CallGraph::new(table_of(&shuffled));
        for root in roots.iter().rev() {
            second.reach_in_depth(*root);
        }
        second.sort();

        assert_eq!(first.forward(), second.forward());
        assert_eq!(first.backward(), second.backward());
        let keys: Vec<FnId> = first.forward().iter().map(|(k, _)| *k).collect();
        let mut sorted = keys.clone();
        sorted.sort();
        assert_eq!(keys, sorted);
    }
}
