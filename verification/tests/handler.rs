use loro_graph::analysis::{plan_break_cycles, GraphRepairError, GraphScope, RepairPolicy};
use loro_graph::handler::{apply_repair, GraphHandler};
use loro_graph::ids::{GraphEdgeId, GraphNodeId, ID};
use loro_graph::op::{GraphChange, GraphDiff, GraphError, GraphOp};
use loro_graph::position::GraphPosition;
use loro_graph::records::from_records;
use loro_graph::state::GraphState;

fn graph() -> GraphHandler {
    GraphHandler::with_peer(5, ID::new(1, 1))
}

#[test]
fn created_objects_take_consecutive_identities() {
    let mut g = graph();
    let a = g.create_node().unwrap();
    let b = g.create_node().unwrap();
    let e = g.create_edge(a, b).unwrap();
    assert_eq!(a, GraphNodeId::new(5, 0));
    assert_eq!(b, GraphNodeId::new(5, 1));
    assert_eq!(e, GraphEdgeId::new(5, 2));
    assert_eq!(g.version(), &vec![ID::new(5, 2)]);
    assert_eq!(g.nodes(), vec![a, b]);
    assert_eq!(g.edges(), vec![e]);
    assert_eq!(g.node_count(), 2);
    assert_eq!(g.edge_count(), 1);
}

#[test]
fn edges_are_appended_after_existing_out_edges() {
    let mut g = graph();
    let a = g.create_node().unwrap();
    let b = g.create_node().unwrap();
    let e1 = g.create_edge(a, b).unwrap();
    let e2 = g.create_edge(a, a).unwrap();
    let p1 = g.edge_record(e1).unwrap().position;
    let p2 = g.edge_record(e2).unwrap().position;
    assert!(p1 < p2);
    assert_eq!(
        g.state().ordered_out_edges(a).unwrap().iter().map(|o| o.edge_id).collect::<Vec<_>>(),
        vec![e1, e2]
    );
}

#[test]
fn missing_endpoints_are_rejected_without_consuming_an_identity() {
    let mut g = graph();
    let a = g.create_node().unwrap();
    let ghost = GraphNodeId::new(77, 0);
    assert_eq!(g.create_edge(a, ghost).unwrap_err(), GraphError::InvalidReference);
    assert_eq!(g.create_edge(ghost, a).unwrap_err(), GraphError::InvalidReference);
    assert_eq!(g.delete_node(ghost).unwrap_err(), GraphError::InvalidReference);
    assert_eq!(g.restore_node(ghost).unwrap_err(), GraphError::MissingObject);
    let b = g.create_node().unwrap();
    assert_eq!(b, GraphNodeId::new(5, 1));
}

#[test]
fn deleting_a_node_hides_its_edges_and_restore_reveals_them() {
    let mut g = graph();
    let a = g.create_node().unwrap();
    let b = g.create_node().unwrap();
    let e = g.create_edge(a, b).unwrap();
    g.delete_node(b).unwrap();
    assert!(g.get_node(b).is_none());
    assert!(!g.edge_record(e).unwrap().visible);
    assert!(g.edge_record(e).unwrap().alive);
    assert!(g.get_edge(e).is_none());
    assert_eq!(g.successors(a).unwrap(), vec![]);
    g.restore_node(b).unwrap();
    assert!(g.get_node(b).is_some());
    assert!(g.get_edge(e).is_some());
    assert_eq!(g.successors(a).unwrap(), vec![b]);
}

#[test]
fn neighbors_are_distinct_and_ascending() {
    let mut g = graph();
    let a = g.create_node().unwrap();
    let b = g.create_node().unwrap();
    let c = g.create_node().unwrap();
    g.create_edge(a, c).unwrap();
    g.create_edge(a, b).unwrap();
    g.create_edge(a, b).unwrap();
    g.create_edge(c, a).unwrap();
    assert_eq!(g.successors(a).unwrap(), vec![b, c]);
    assert_eq!(g.predecessors(a).unwrap(), vec![c]);
    assert_eq!(g.outgoing_edges(a).unwrap().len(), 3);
    assert_eq!(g.incoming_edges(b).unwrap().len(), 2);
    assert_eq!(
        g.successors(GraphNodeId::new(9, 9)).unwrap_err(),
        GraphError::InvalidReference
    );
}

#[test]
fn traversal_is_breadth_first_and_bounded() {
    let mut g = graph();
    let n: Vec<_> = (0..5).map(|_| g.create_node().unwrap()).collect();
    g.create_edge(n[0], n[1]).unwrap();
    g.create_edge(n[0], n[2]).unwrap();
    g.create_edge(n[1], n[3]).unwrap();
    g.create_edge(n[3], n[4]).unwrap();
    g.create_edge(n[4], n[0]).unwrap();
    assert_eq!(g.traverse(n[0], 10, 10).unwrap(), vec![n[0], n[1], n[2], n[3], n[4]]);
    assert_eq!(g.traverse(n[0], 1, 10).unwrap(), vec![n[0], n[1], n[2]]);
    assert_eq!(g.traverse(n[0], 10, 2).unwrap(), vec![n[0], n[1]]);
    assert_eq!(g.traverse(n[0], 10, 0).unwrap(), vec![]);
    g.delete_node(n[2]).unwrap();
    assert_eq!(g.traverse(n[2], 10, 10).unwrap_err(), GraphError::MissingObject);
    assert_eq!(g.traverse(n[0], 10, 10).unwrap(), vec![n[0], n[1], n[3], n[4]]);
}

#[test]
fn repair_applies_only_at_the_planned_version() {
    let mut g = graph();
    let a = g.create_node().unwrap();
    let b = g.create_node().unwrap();
    g.create_edge(a, b).unwrap();
    let back = g.create_edge(b, a).unwrap();
    let snapshot = g.snapshot().unwrap();
    assert_eq!(snapshot.nodes(), &vec![a, b]);
    let plan = plan_break_cycles(&snapshot, &GraphScope::AllVisible, RepairPolicy::AscendingNodeIdV1).unwrap();
    assert_eq!(plan.deletions().iter().map(|d| d.edge).collect::<Vec<_>>(), vec![back]);
    let mut other = GraphHandler::with_peer(6, ID::new(2, 2));
    assert_eq!(apply_repair(&mut other, &plan).unwrap_err(), GraphRepairError::WrongGraph);
    assert_eq!(apply_repair(&mut g, &plan).unwrap(), 1);
    assert!(g.get_edge(back).is_none());
    // The plan is stale now: a repeated plan cannot delete again.
    assert_eq!(apply_repair(&mut g, &plan).unwrap_err(), GraphRepairError::StalePlan);
    let detached = GraphHandler::new_detached();
    assert_eq!(detached.snapshot().unwrap_err(), GraphRepairError::DetachedContainer);
}

#[test]
fn conditional_delete_checks_every_selected_edge_first() {
    let mut g = graph();
    let a = g.create_node().unwrap();
    let e = g.create_edge(a, a).unwrap();
    let version = g.version().clone();
    let missing = GraphEdgeId::new(9, 9);
    assert_eq!(
        g.delete_edges_if_version(&version, &vec![e, missing]).unwrap_err(),
        GraphRepairError::InvalidSelection(missing)
    );
    assert!(g.get_edge(e).is_some());
    assert_eq!(g.delete_edges_if_version(&version, &vec![]).unwrap(), 0);
    assert_eq!(g.delete_edges_if_version(&version, &vec![e, e]).unwrap(), 1);
    assert!(g.get_edge(e).is_none());
}

#[test]
fn clear_deletes_every_visible_node() {
    let mut g = graph();
    let a = g.create_node().unwrap();
    let b = g.create_node().unwrap();
    g.create_edge(a, b).unwrap();
    g.clear().unwrap();
    assert_eq!(g.node_count(), 0);
    assert_eq!(g.edge_count(), 0);
    assert_eq!(g.node_records().len(), 2);
}

#[test]
fn records_round_trip_through_a_snapshot() {
    let mut g = graph();
    let a = g.create_node().unwrap();
    let b = g.create_node().unwrap();
    let e = g.create_edge(a, b).unwrap();
    g.delete_edge(e).unwrap();
    g.restore_edge(e).unwrap();
    g.delete_node(a).unwrap();
    let records = g.state().to_records();
    let decoded = from_records(&records).unwrap();
    assert_eq!(decoded.all_nodes(), g.state().all_nodes());
    assert_eq!(decoded.all_edges(), g.state().all_edges());
}

#[test]
fn preview_reports_without_applying() {
    let mut g = graph();
    let a = g.create_node().unwrap();
    let state: &GraphState = g.state();
    let change = GraphChange {
        id: ID::new(8, 0),
        lamport: 7,
        op: GraphOp::DeleteNode { id: a },
        forward: true,
    };
    let diff = state.preview(change.clone()).unwrap();
    assert_eq!(diff.ops, vec![change]);
    assert!(!diff.nodes.get(a.id()).unwrap().as_ref().unwrap().alive);
    assert!(state.node_record(a).unwrap().alive);
    let bad = GraphChange {
        id: ID::new(8, 1),
        lamport: 7,
        op: GraphOp::DeleteNode { id: GraphNodeId::new(1, 99) },
        forward: true,
    };
    assert!(state.preview(bad).is_err());
}

#[test]
fn unobserved_delete_wins_over_a_concurrent_restore() {
    let mut s = GraphState::new();
    let n = GraphNodeId::new(1, 0);
    let change = |peer: u64, counter: i32, lamport: u32, op: GraphOp| GraphChange {
        id: ID::new(peer, counter),
        lamport,
        op,
        forward: true,
    };
    s.apply_changes(vec![change(1, 0, 0, GraphOp::CreateNode { id: n })]);
    s.apply_changes(vec![change(1, 1, 1, GraphOp::DeleteNode { id: n })]);
    // A concurrent delete the restore has not seen, then the restore.
    s.apply_changes(vec![change(2, 0, 1, GraphOp::DeleteNode { id: n })]);
    s.apply_changes(vec![change(1, 2, 2, GraphOp::RestoreNode { id: n, deletes: vec![ID::new(1, 1)] })]);
    assert!(!s.node_record(n).unwrap().alive);
    s.apply_changes(vec![change(2, 1, 3, GraphOp::RestoreNode { id: n, deletes: vec![ID::new(2, 0)] })]);
    assert!(s.node_record(n).unwrap().alive);
}

#[test]
fn retracting_a_change_restores_the_records() {
    let mut s = GraphState::new();
    let n = GraphNodeId::new(1, 0);
    s.apply_changes(vec![GraphChange { id: n.id(), lamport: 0, op: GraphOp::CreateNode { id: n }, forward: true }]);
    let before = (s.all_nodes(), s.all_edges());
    let del = GraphChange { id: ID::new(1, 1), lamport: 1, op: GraphOp::DeleteNode { id: n }, forward: true };
    s.apply_changes(vec![del.clone()]);
    assert!(!s.node_record(n).unwrap().alive);
    s.apply_changes(vec![GraphChange { forward: false, ..del }]);
    assert_eq!((s.all_nodes(), s.all_edges()), before);
}

#[test]
fn concurrent_changes_commute() {
    let n = GraphNodeId::new(1, 0);
    let e = GraphEdgeId::new(1, 1);
    let p = GraphPosition::try_from_bytes(vec![128]).unwrap();
    let base = vec![
        GraphChange { id: n.id(), lamport: 0, op: GraphOp::CreateNode { id: n }, forward: true },
        GraphChange { id: e.id(), lamport: 1, op: GraphOp::CreateEdge { id: e, source: n, target: n, position: p }, forward: true },
    ];
    let a = GraphChange { id: ID::new(2, 0), lamport: 2, op: GraphOp::DeleteEdge { id: e }, forward: true };
    let b = GraphChange {
        id: ID::new(3, 0),
        lamport: 2,
        op: GraphOp::SetEdgeOrder { id: e, position: GraphPosition::try_from_bytes(vec![64, 128]).unwrap() },
        forward: true,
    };
    let mut x = GraphState::new();
    x.apply_changes(base.clone());
    x.apply_changes(vec![a.clone(), b.clone()]);
    let mut y = GraphState::new();
    y.apply_changes(base);
    y.apply_changes(vec![b, a]);
    assert_eq!(x.all_edges(), y.all_edges());
    assert_eq!(x.all_nodes(), y.all_nodes());
}

#[test]
fn traverse_reaches_every_node_within_depth_by_its_shortest_walk() {
    // a -> b -> c -> d and a shortcut a -> d: d is one edge away.
    let mut g = graph();
    let a = g.create_node().unwrap();
    let b = g.create_node().unwrap();
    let c = g.create_node().unwrap();
    let d = g.create_node().unwrap();
    g.create_edge(a, b).unwrap();
    g.create_edge(b, c).unwrap();
    g.create_edge(c, d).unwrap();
    g.create_edge(a, d).unwrap();
    g.create_edge(d, a).unwrap();
    assert_eq!(g.traverse(a, 1, 10).unwrap(), vec![a, b, d]);
    assert_eq!(g.traverse(a, 2, 10).unwrap(), vec![a, b, d, c]);
    assert_eq!(g.traverse(c, 1, 10).unwrap(), vec![c, d]);
    assert_eq!(g.traverse(c, 3, 10).unwrap(), vec![c, d, a, b]);
}

#[test]
fn apply_delta_copies_a_graph_with_fresh_identities() {
    let mut source = graph();
    let a = source.create_node().unwrap();
    let b = source.create_node().unwrap();
    let e = source.create_edge(a, b).unwrap();
    let diff = source.state().to_diff();
    let mut target = GraphHandler::with_peer(9, ID::new(2, 2));
    let mut remap = loro_graph::idmap::IdMap::new();
    assert_eq!(target.apply_delta(&diff, &mut remap), Ok(()));
    let na = GraphNodeId::new(9, 0);
    let nb = GraphNodeId::new(9, 1);
    let ne = GraphEdgeId::new(9, 2);
    assert_eq!(remap.get(a.id()), Some(&na.id()));
    assert_eq!(remap.get(b.id()), Some(&nb.id()));
    assert_eq!(remap.get(e.id()), Some(&ne.id()));
    assert_eq!(target.nodes(), vec![na, nb]);
    assert_eq!(target.edges(), vec![ne]);
    let copied = target.edge_record(ne).unwrap();
    assert_eq!((copied.source, copied.target), (na, nb));
}

#[test]
fn apply_delta_undoes_a_delete_with_a_fresh_restore() {
    let mut g = graph();
    let a = g.create_node().unwrap();
    g.delete_node(a).unwrap();
    assert!(!g.node_record(a).unwrap().alive);
    let undo = GraphDiff {
        ops: vec![GraphChange {
            id: ID::new(5, 1),
            lamport: 1,
            op: GraphOp::DeleteNode { id: a },
            forward: false,
        }],
        nodes: loro_graph::idmap::IdMap::new(),
        edges: loro_graph::idmap::IdMap::new(),
        orders: loro_graph::idmap::IdMap::new(),
    };
    let mut remap = loro_graph::idmap::IdMap::new();
    assert_eq!(g.apply_delta(&undo, &mut remap), Ok(()));
    assert!(g.node_record(a).unwrap().alive);
    assert!(remap.is_empty());
    // The restore is a new local operation.
    assert_eq!(g.version(), &vec![ID::new(5, 2)]);
}

#[test]
fn apply_delta_rejects_an_invalid_diff_without_writing() {
    let mut g = graph();
    let a = g.create_node().unwrap();
    let bad = GraphDiff {
        ops: vec![GraphChange {
            id: ID::new(5, 9),
            lamport: 4,
            op: GraphOp::CreateNode { id: GraphNodeId::new(5, 3) },
            forward: true,
        }],
        nodes: loro_graph::idmap::IdMap::new(),
        edges: loro_graph::idmap::IdMap::new(),
        orders: loro_graph::idmap::IdMap::new(),
    };
    let mut remap = loro_graph::idmap::IdMap::new();
    assert_eq!(g.apply_delta(&bad, &mut remap), Err(GraphError::InvalidOperation));
    assert_eq!(g.nodes(), vec![a]);
    assert_eq!(g.version(), &vec![ID::new(5, 0)]);
}

#[test]
fn attach_copies_records_with_fresh_identities() {
    let mut detached = GraphHandler::new_detached();
    assert!(!detached.is_attached());
    let a = detached.create_node().unwrap();
    let b = detached.create_node().unwrap();
    let live = detached.create_edge(a, b).unwrap();
    let dead = detached.create_edge(b, a).unwrap();
    detached.delete_edge(dead).unwrap();
    detached.delete_node(b).unwrap();
    let attached = detached.attach(7, ID::new(3, 3)).unwrap();
    assert!(attached.is_attached());
    assert_eq!(attached.id(), ID::new(3, 3));
    let (na, nb) = (GraphNodeId::new(7, 0), GraphNodeId::new(7, 1));
    let (nl, nd) = (GraphEdgeId::new(7, 2), GraphEdgeId::new(7, 3));
    assert_eq!(attached.node_records().len(), 2);
    assert_eq!(attached.edge_records().len(), 2);
    assert!(attached.node_record(na).unwrap().alive);
    assert!(!attached.node_record(nb).unwrap().alive);
    let copied_live = attached.edge_record(nl).unwrap();
    assert_eq!((copied_live.source, copied_live.target), (na, nb));
    assert!(copied_live.alive && !copied_live.visible);
    assert_eq!(
        copied_live.position,
        detached.edge_record(live).unwrap().position
    );
    assert!(!attached.edge_record(nd).unwrap().alive);
    assert_eq!(attached.nodes(), vec![na]);
    assert!(attached.edges().is_empty());
}
