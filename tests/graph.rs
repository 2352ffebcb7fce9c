use bounded_dag::bound::ceil_log2_exec;
use bounded_dag::dag::{NodeId, Visitor, DAG};
use bounded_dag::error::{AuxSpaceViolation, CycleViolation, DepthViolation, EdgeError};

struct Recorder {
    seen: Vec<usize>,
    fail_on: Option<usize>,
}

impl Visitor<&'static str, ()> for Recorder {
    fn visit(&mut self, id: NodeId, _payload: &&'static str) -> Result<(), ()> {
        self.seen.push(id.index);
        if self.fail_on == Some(id.index) { Err(()) } else { Ok(()) }
    }
}

fn chain() -> (DAG<&'static str>, NodeId, NodeId, NodeId) {
    let mut g = DAG::new();
    let a = g.add_node("A").unwrap();
    let b = g.add_node("B").unwrap();
    assert_eq!(g.add_edge(a, b), Ok(()));
    let c = g.add_node("C").unwrap();
    assert_eq!(g.add_edge(b, c), Ok(()));
    (g, a, b, c)
}

#[test]
fn ceil_log2_values() {
    let expected = [0usize, 0, 1, 2, 2, 3, 3, 3, 3, 4];
    for (n, e) in expected.iter().enumerate() {
        assert_eq!(ceil_log2_exec(n), *e);
    }
    assert_eq!(ceil_log2_exec(1024), 10);
    assert_eq!(ceil_log2_exec(1025), 11);
}

#[test]
fn new_graph_is_empty() {
    let g: DAG<u8> = DAG::new();
    assert_eq!(g.node_count(), 0);
    assert_eq!(g.max_depth(), 0);
}

#[test]
fn add_node_assigns_dense_ids() {
    let mut g = DAG::new();
    assert_eq!(g.add_node(10u8), Ok(NodeId { index: 0 }));
    assert_eq!(g.add_node(20u8), Ok(NodeId { index: 1 }));
    assert_eq!(g.node_count(), 2);
    assert_eq!(*g.payload(NodeId { index: 1 }), 20);
    assert_eq!(g.depth(NodeId { index: 1 }), 0);
}

#[test]
fn chain_of_three_then_too_deep() {
    let (mut g, a, b, c) = chain();
    assert_eq!(g.depth(a), 0);
    assert_eq!(g.depth(b), 1);
    assert_eq!(g.depth(c), 2);
    assert_eq!(g.max_depth(), 2);
    let d = g.add_node("D").unwrap();
    assert_eq!(g.add_edge(c, d), Err(EdgeError::Depth(DepthViolation::ExceedsLogN)));
    assert_eq!(g.node_count(), 4);
    assert_eq!(g.depth(c), 2);
    assert_eq!(g.depth(d), 0);
    assert!(g.children(c).is_empty());
    assert_eq!(g.max_depth(), 2);
}

#[test]
fn edge_that_closes_a_cycle_is_refused() {
    let (mut g, a, _b, c) = chain();
    assert_eq!(g.add_edge(c, a), Err(EdgeError::Cycle(CycleViolation { parent: 2, child: 0 })));
    assert_eq!(g.add_edge(a, a), Err(EdgeError::Cycle(CycleViolation { parent: 0, child: 0 })));
    assert!(g.children(c).is_empty());
    assert_eq!(g.depth(a), 0);
}

#[test]
fn reachability_follows_edges() {
    let (g, a, b, c) = chain();
    assert!(g.is_reachable(a, c));
    assert!(g.is_reachable(b, b));
    assert!(!g.is_reachable(c, a));
}

#[test]
fn adding_an_edge_lifts_descendants() {
    let mut g = DAG::new();
    let a = g.add_node("A").unwrap();
    let b = g.add_node("B").unwrap();
    let c = g.add_node("C").unwrap();
    let d = g.add_node("D").unwrap();
    assert_eq!(g.add_edge(c, d), Ok(()));
    assert_eq!(g.depth(d), 1);
    assert_eq!(g.add_edge(a, c), Ok(()));
    assert_eq!(g.depth(c), 1);
    assert_eq!(g.depth(d), 2);
    assert_eq!(g.depth(b), 0);
    assert_eq!(g.children(a), &vec![2usize]);
    // a third level would need depth 3 with a bound of 2
    assert_eq!(g.add_edge(b, a), Err(EdgeError::Depth(DepthViolation::ExceedsLogN)));
    assert_eq!(g.depth(a), 0);
    assert_eq!(g.depth(d), 2);
    assert!(g.children(b).is_empty());
}

#[test]
fn traversal_goes_by_depth_then_id() {
    let mut g = DAG::new();
    let a = g.add_node("A").unwrap();
    let b = g.add_node("B").unwrap();
    let c = g.add_node("C").unwrap();
    let d = g.add_node("D").unwrap();
    g.add_edge(b, a).unwrap();
    g.add_edge(c, d).unwrap();
    let mut r = Recorder { seen: vec![], fail_on: None };
    let order = g.traverse(&mut r).unwrap();
    let ids: Vec<usize> = order.iter().map(|n| n.0.index).collect();
    assert_eq!(ids, vec![1, 2, 0, 3]);
    assert!(order.iter().all(|n| n.1.is_ok()));
    assert_eq!(r.seen, vec![1, 2, 0, 3]);
    let mut again = Recorder { seen: vec![], fail_on: None };
    let order2 = g.traverse(&mut again).unwrap();
    assert_eq!(order, order2);
    assert_eq!(again.seen, r.seen);
}

#[test]
fn failed_visit_skips_descendants_only() {
    let (mut g, _a, b, _c) = chain();
    let e = g.add_node("E").unwrap();
    let mut r = Recorder { seen: vec![], fail_on: Some(b.index) };
    let order = g.traverse(&mut r).unwrap();
    assert_eq!(order, vec![(NodeId { index: 0 }, Ok(())), (e, Ok(())), (b, Err(()))]);
    assert_eq!(r.seen, vec![0, e.index, 1]);
}

#[test]
fn child_too_deep_leaves_graph_as_it_was() {
    let mut g = DAG::new();
    let a = g.add_node("A").unwrap();
    let b = g.add_child(a, "B").unwrap();
    let c = g.add_child(b, "C").unwrap();
    assert_eq!(g.node_count(), 3);
    assert_eq!(g.depth(c), 2);
    assert_eq!(g.add_child(c, "D"), Err(DepthViolation::ExceedsLogN));
    assert_eq!(g.node_count(), 3);
    assert!(g.children(c).is_empty());
    assert_eq!(g.max_depth(), 2);
    assert_eq!(g.children(b), &vec![c.index]);
}

#[test]
fn frame_check_refuses_a_full_stack() {
    let (g, a, _b, _c) = chain();
    let mut stack = vec![7usize, 8];
    assert_eq!(g.dfs_bounded(a, &mut stack, 2), Err(AuxSpaceViolation::StackOverflow));
    assert_eq!(stack, vec![7, 8]);
    assert_eq!(g.dfs_bounded(a, &mut stack, 3), Ok(()));
    assert_eq!(stack, vec![7, 8]);
    let mut empty: Vec<usize> = vec![];
    assert_eq!(g.dfs_bounded(a, &mut empty, 0), Err(AuxSpaceViolation::StackOverflow));
}

#[test]
fn every_node_is_visited_once_when_nothing_fails() {
    let (mut g, _a, _b, c) = chain();
    let d = g.add_node("D").unwrap();
    g.add_edge(d, c).unwrap();
    let mut r = Recorder { seen: vec![], fail_on: None };
    let order = g.traverse(&mut r).unwrap();
    assert_eq!(r.seen, vec![0, 3, 1, 2]);
    assert_eq!(order.len(), 4);
}

#[test]
fn node_with_a_failed_parent_is_skipped_even_if_another_succeeds() {
    let (mut g, _a, _b, c) = chain();
    let d = g.add_node("D").unwrap();
    g.add_edge(d, c).unwrap();
    let mut r = Recorder { seen: vec![], fail_on: Some(d.index) };
    let order = g.traverse(&mut r).unwrap();
    assert_eq!(r.seen, vec![0, 3, 1]);
    assert_eq!(order[1], (d, Err(())));
}
