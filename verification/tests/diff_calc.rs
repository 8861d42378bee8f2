use loro_graph::diff_calc::GraphDiffCalculator;
use loro_graph::ids::{GraphEdgeId, GraphNodeId, ID};
use loro_graph::op::GraphOp;
use loro_graph::position::GraphPosition;

fn recorded() -> GraphDiffCalculator {
    let mut calc = GraphDiffCalculator::new();
    let a = GraphNodeId::new(1, 0);
    let b = GraphNodeId::new(1, 1);
    calc.apply_change(ID::new(1, 0), 0, GraphOp::CreateNode { id: a });
    calc.apply_change(ID::new(1, 1), 1, GraphOp::CreateNode { id: b });
    calc.apply_change(
        ID::new(2, 0),
        2,
        GraphOp::CreateEdge {
            id: GraphEdgeId::new(2, 0),
            source: a,
            target: b,
            position: GraphPosition::try_from_bytes(vec![128]).unwrap(),
        },
    );
    calc.apply_change(ID::new(1, 2), 3, GraphOp::DeleteNode { id: a });
    calc
}

fn ids(diff: &loro_graph::op::GraphDiff) -> Vec<(u64, i32, bool)> {
    diff.ops
        .iter()
        .map(|c| (c.id.peer, c.id.counter, c.forward))
        .collect()
}

#[test]
fn checkout_forward_replays_in_clock_order() {
    let calc = recorded();
    let (diff, created) = calc.calculate_diff(&vec![], &vec![(1, 0, 3), (2, 0, 1)]);
    assert_eq!(
        ids(&diff),
        vec![(1, 0, true), (1, 1, true), (2, 0, true), (1, 2, true)]
    );
    assert_eq!(diff.ops[2].lamport, 2);
    assert_eq!(created, vec![ID::new(1, 0), ID::new(1, 1), ID::new(2, 0)]);
    assert!(diff.nodes.is_empty() && diff.edges.is_empty() && diff.orders.is_empty());
}

#[test]
fn checkout_backward_retracts_latest_first() {
    let calc = recorded();
    let (diff, created) = calc.calculate_diff(&vec![(1, 1, 3), (2, 0, 1)], &vec![]);
    assert_eq!(
        ids(&diff),
        vec![(1, 2, false), (2, 0, false), (1, 1, false)]
    );
    assert!(created.is_empty());
}

#[test]
fn checkout_across_branches_retracts_then_replays() {
    let calc = recorded();
    let (diff, created) = calc.calculate_diff(&vec![(2, 0, 1)], &vec![(1, 2, 3)]);
    assert_eq!(ids(&diff), vec![(2, 0, false), (1, 2, true)]);
    assert!(created.is_empty());
}

#[test]
fn equal_clocks_are_ordered_by_identity() {
    let mut calc = GraphDiffCalculator::new();
    calc.apply_change(ID::new(5, 0), 4, GraphOp::CreateNode { id: GraphNodeId::new(5, 0) });
    calc.apply_change(ID::new(3, 7), 4, GraphOp::CreateNode { id: GraphNodeId::new(3, 7) });
    let (forward, _) = calc.calculate_diff(&vec![], &vec![(3, 0, 10), (5, 0, 1)]);
    assert_eq!(ids(&forward), vec![(3, 7, true), (5, 0, true)]);
    let (back, _) = calc.calculate_diff(&vec![(3, 0, 10), (5, 0, 1)], &vec![]);
    assert_eq!(ids(&back), vec![(5, 0, false), (3, 7, false)]);
}

#[test]
fn unrecorded_spans_give_an_empty_diff() {
    let calc = recorded();
    let (diff, created) = calc.calculate_diff(&vec![(9, 0, 100)], &vec![(1, 5, 9)]);
    assert!(diff.ops.is_empty());
    assert!(created.is_empty());
}
