use loro_graph::analysis::{
    analyze_cycles, plan_break_cycles, CycleReport, GraphRepairError, GraphScope, GraphSnapshot,
    GraphSnapshotEdge, RepairPolicy,
};
use loro_graph::ids::{GraphEdgeId, GraphNodeId, ID};
use std::collections::{BTreeMap, BTreeSet, VecDeque};

fn fixture(node_count: usize, edges: &[(usize, usize)]) -> GraphSnapshot {
    let nodes: Vec<_> = (0..node_count)
        .map(|n| GraphNodeId::new(7, n as i32))
        .collect();
    GraphSnapshot::new(
        ID::new(0, 0),
        Vec::new(),
        nodes.clone(),
        edges
            .iter()
            .enumerate()
            .map(|(index, &(source, target))| GraphSnapshotEdge {
                id: GraphEdgeId::new(9, index as i32),
                source: nodes[source],
                target: nodes[target],
            })
            .collect(),
    )
}

fn with_edges(snapshot: &GraphSnapshot, edges: Vec<GraphSnapshotEdge>) -> GraphSnapshot {
    GraphSnapshot::new(
        snapshot.graph(),
        snapshot.version().clone(),
        snapshot.nodes().clone(),
        edges,
    )
}

fn assert_witnesses(snapshot: &GraphSnapshot, report: &CycleReport) {
    let edges: BTreeMap<_, _> = snapshot.edges().iter().map(|e| (e.id, e)).collect();
    for component in &report.cyclic_components {
        assert!(!component.witness.is_empty());
        let witness: Vec<_> = component.witness.iter().map(|id| edges[id]).collect();
        for index in 0..witness.len() {
            assert_eq!(
                witness[index].target,
                witness[(index + 1) % witness.len()].source
            );
            assert!(component.nodes.contains(&witness[index].source));
        }
    }
}

#[test]
fn cycle_reports_keep_multiedges_self_loops_and_disconnected_components() {
    let snapshot = fixture(
        8,
        &[
            (0, 1),
            (1, 2),
            (2, 0),
            (1, 0),
            (0, 1),
            (3, 3),
            (4, 5),
            (5, 4),
            (5, 6),
        ],
    );
    let report = analyze_cycles(&snapshot, &GraphScope::AllVisible).unwrap();
    assert_eq!(
        report.components.iter().map(Vec::len).collect::<Vec<_>>(),
        vec![3, 1, 2, 1, 1]
    );
    assert_eq!(report.cyclic_components.len(), 3);
    assert_eq!(report.self_loops, vec![GraphEdgeId::new(9, 5)]);
    assert_witnesses(&snapshot, &report);
    // Determinism includes components, witnesses and the scope's canonical order.
    assert_eq!(
        report,
        analyze_cycles(&snapshot, &GraphScope::AllVisible).unwrap()
    );
    let plan = plan_break_cycles(
        &snapshot,
        &GraphScope::AllVisible,
        RepairPolicy::AscendingNodeIdV1,
    )
    .unwrap();
    assert_eq!(
        plan.deletions().iter().map(|d| d.edge).collect::<Vec<_>>(),
        vec![
            GraphEdgeId::new(9, 2),
            GraphEdgeId::new(9, 3),
            GraphEdgeId::new(9, 5),
            GraphEdgeId::new(9, 7)
        ]
    );
    let removed: BTreeSet<_> = plan.deletions().iter().map(|d| d.edge).collect();
    let kept: Vec<_> = snapshot
        .edges()
        .iter()
        .filter(|e| !removed.contains(&e.id))
        .copied()
        .collect();
    let repaired = with_edges(&snapshot, kept);
    assert!(analyze_cycles(&repaired, &GraphScope::AllVisible)
        .unwrap()
        .is_acyclic());
    assert_eq!(
        repaired
            .edges()
            .iter()
            .filter(|e| e.source == snapshot.nodes()[0] && e.target == snapshot.nodes()[1])
            .count(),
        2
    );
}

#[test]
fn selection_is_canonical_and_never_removes_unselected_edges() {
    let snapshot = fixture(4, &[(0, 1), (1, 0), (1, 2), (2, 1), (3, 3)]);
    let a = GraphEdgeId::new(9, 0);
    let b = GraphEdgeId::new(9, 1);
    let first = plan_break_cycles(
        &snapshot,
        &GraphScope::Selected(vec![b, a, a]),
        RepairPolicy::AscendingNodeIdV1,
    )
    .unwrap();
    let second = plan_break_cycles(
        &snapshot,
        &GraphScope::Selected(vec![a, b]),
        RepairPolicy::AscendingNodeIdV1,
    )
    .unwrap();
    assert_eq!(first, second);
    assert_eq!(
        first.deletions().iter().map(|d| d.edge).collect::<Vec<_>>(),
        vec![b]
    );
    assert_eq!(first.scope(), &GraphScope::Selected(vec![a, b]));
    let empty = plan_break_cycles(
        &snapshot,
        &GraphScope::Selected(Vec::new()),
        RepairPolicy::AscendingNodeIdV1,
    )
    .unwrap();
    assert!(empty.is_empty());
    assert!(analyze_cycles(&snapshot, &GraphScope::Selected(Vec::new()))
        .unwrap()
        .is_acyclic());
    let missing = GraphEdgeId::new(10, 0);
    assert_eq!(
        analyze_cycles(&snapshot, &GraphScope::Selected(vec![missing])).unwrap_err(),
        GraphRepairError::InvalidSelection(missing)
    );
    // Analysis never filters the source snapshot in place.
    assert_eq!(snapshot.edges().len(), 5);
}

#[test]
fn dag_reverse_id_edges_are_not_repaired() {
    let snapshot = fixture(4, &[(3, 2), (2, 1), (1, 0), (3, 0)]);
    assert!(analyze_cycles(&snapshot, &GraphScope::AllVisible)
        .unwrap()
        .is_acyclic());
    assert!(plan_break_cycles(
        &snapshot,
        &GraphScope::AllVisible,
        RepairPolicy::AscendingNodeIdV1
    )
    .unwrap()
    .is_empty());
}

#[test]
fn deep_cycle_and_many_components_use_iterative_bounded_memory_walks() {
    let n = 20_000;
    let edges: Vec<_> = (0..n).map(|i| (i, (i + 1) % n)).collect();
    let snapshot = fixture(n, &edges);
    let report = analyze_cycles(&snapshot, &GraphScope::AllVisible).unwrap();
    assert_eq!(report.cyclic_components.len(), 1);
    assert_eq!(report.cyclic_components[0].witness.len(), n);
    let plan = plan_break_cycles(
        &snapshot,
        &GraphScope::AllVisible,
        RepairPolicy::AscendingNodeIdV1,
    )
    .unwrap();
    assert_eq!(plan.deletions().len(), 1);
    let edges: Vec<_> = (0..n).map(|i| (i, i)).collect();
    let isolated_loops = fixture(n, &edges);
    let report = analyze_cycles(&isolated_loops, &GraphScope::AllVisible).unwrap();
    assert_eq!(report.cyclic_components.len(), n);
    assert!(report
        .cyclic_components
        .iter()
        .all(|c| c.witness.len() == 1));
}

#[test]
fn all_three_node_graphs_match_transitive_closure_and_repairs_are_acyclic() {
    for mask in 0u16..512 {
        let pairs: Vec<_> = (0..9)
            .filter(|bit| mask & (1 << bit) != 0)
            .map(|bit| (bit / 3, bit % 3))
            .collect();
        let snapshot = fixture(3, &pairs);
        let mut reach = [[false; 3]; 3];
        for &(a, b) in &pairs {
            reach[a][b] = true;
        }
        for mid in 0..3 {
            for a in 0..3 {
                for b in 0..3 {
                    reach[a][b] |= reach[a][mid] && reach[mid][b];
                }
            }
        }
        let report = analyze_cycles(&snapshot, &GraphScope::AllVisible).unwrap();
        assert_eq!(
            report.is_acyclic(),
            !(0..3).any(|n| reach[n][n]),
            "mask={mask}"
        );
        for a in 0..3 {
            for b in 0..3 {
                let same = report.components.iter().any(|component| {
                    component.contains(&snapshot.nodes()[a]) && component.contains(&snapshot.nodes()[b])
                });
                assert_eq!(same, a == b || reach[a][b] && reach[b][a], "mask={mask}");
            }
        }
        assert_witnesses(&snapshot, &report);
        let plan = plan_break_cycles(
            &snapshot,
            &GraphScope::AllVisible,
            RepairPolicy::AscendingNodeIdV1,
        )
        .unwrap();
        let removed: BTreeSet<_> = plan.deletions().iter().map(|item| item.edge).collect();
        let mut indegree = [0; 3];
        let mut adjacency = [Vec::new(), Vec::new(), Vec::new()];
        for edge in snapshot.edges() {
            if removed.contains(&edge.id) {
                continue;
            }
            let a = snapshot.nodes().iter().position(|n| *n == edge.source).unwrap();
            let b = snapshot.nodes().iter().position(|n| *n == edge.target).unwrap();
            adjacency[a].push(b);
            indegree[b] += 1;
        }
        let mut queue: VecDeque<_> = (0..3).filter(|&n| indegree[n] == 0).collect();
        let mut count = 0;
        while let Some(node) = queue.pop_front() {
            count += 1;
            for &next in &adjacency[node] {
                indegree[next] -= 1;
                if indegree[next] == 0 {
                    queue.push_back(next);
                }
            }
        }
        assert_eq!(count, 3, "repair did not produce a DAG: mask={mask}");
    }
}

#[test]
fn repair_policy_names_its_algorithm() {
    assert_eq!(RepairPolicy::AscendingNodeIdV1.id(), "ascending-node-id");
    assert_eq!(RepairPolicy::AscendingNodeIdV1.version(), 1);
}

#[test]
fn snapshot_sorts_nodes_and_edges_by_identity() {
    let a = GraphNodeId::new(7, 2);
    let b = GraphNodeId::new(7, 0);
    let c = GraphNodeId::new(3, 5);
    let e1 = GraphSnapshotEdge { id: GraphEdgeId::new(9, 4), source: a, target: b };
    let e2 = GraphSnapshotEdge { id: GraphEdgeId::new(9, 1), source: b, target: c };
    let snapshot = GraphSnapshot::new(ID::new(0, 0), Vec::new(), vec![a, b, c], vec![e1, e2]);
    assert_eq!(snapshot.nodes(), &vec![c, b, a]);
    assert_eq!(snapshot.edges(), &vec![e2, e1]);
    let report = analyze_cycles(&snapshot, &GraphScope::AllVisible).unwrap();
    assert!(report.is_acyclic());
    assert_eq!(report.components.len(), 3);
}
