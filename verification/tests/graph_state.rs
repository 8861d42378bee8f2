use loro_graph::idmap::IdMap;
use loro_graph::ids::{GraphEdgeId, GraphNodeId, IdFull, IdLp, ID};
use loro_graph::op::{GraphChange, GraphOp};
use loro_graph::position::GraphPosition;
use loro_graph::records::from_records;
use loro_graph::state::GraphState;

fn position(first: u8) -> GraphPosition {
    GraphPosition::try_from_bytes(vec![first, 128]).unwrap()
}

fn change(peer: u64, counter: i32, lamport: u32, op: GraphOp) -> GraphChange {
    GraphChange {
        id: ID::new(peer, counter),
        lamport,
        op,
        forward: true,
    }
}

fn fixture() -> (GraphState, GraphNodeId, GraphEdgeId) {
    let mut state = GraphState::new();
    let source = GraphNodeId::new(7, 0);
    let target = GraphNodeId::new(7, 1);
    let edge = GraphEdgeId::new(7, 2);
    state.apply_changes(vec![
        change(7, 0, 0, GraphOp::CreateNode { id: source }),
        change(7, 1, 1, GraphOp::CreateNode { id: target }),
        change(
            7,
            2,
            2,
            GraphOp::CreateEdge {
                id: edge,
                source,
                target,
                position: position(128),
            },
        ),
    ]);
    (state, source, edge)
}

fn moved(edge: GraphEdgeId, peer: u64, counter: i32, lamport: u32, first: u8) -> GraphChange {
    change(
        peer,
        counter,
        lamport,
        GraphOp::SetEdgeOrder {
            id: edge,
            position: position(first),
        },
    )
}

fn inverse(mut op: GraphChange) -> GraphChange {
    op.forward = false;
    op
}

#[test]
fn order_winner_uses_lamport_peer_and_retains_losing_history() {
    let (mut state, source, edge) = fixture();
    let low_clock = moved(edge, 1000, 0, 3, 240);
    let winner = moved(edge, 1, 0, 4, 16);
    state.apply_changes(vec![winner.clone(), low_clock.clone()]);
    let record = state.edge_record(edge).unwrap();
    assert_eq!(record.position, position(16));
    assert_eq!(record.last_order, IdFull::new(1, 0, 4));
    assert_eq!(state.out_edge_at(source, 0).unwrap().edge_id, edge);
    state.apply_changes(vec![inverse(winner)]);
    assert_eq!(state.edge_record(edge).unwrap().position, position(240));
    assert_eq!(state.index_of_out_edge(edge), Some(0));
    let tie_winner = moved(edge, 1001, 0, 3, 32);
    state.apply_changes(vec![tie_winner.clone()]);
    assert_eq!(state.edge_record(edge).unwrap().position, position(32));
    state.apply_changes(vec![inverse(tie_winner), inverse(low_clock)]);
    assert_eq!(state.edge_record(edge).unwrap().position, position(128));
}

#[test]
fn hidden_order_survives_snapshot_and_restoration() {
    let (mut state, source, edge) = fixture();
    let deleted = change(7, 3, 3, GraphOp::DeleteNode { id: source });
    state.apply_changes(vec![deleted.clone(), moved(edge, 8, 0, 4, 16)]);
    assert!(state.ordered_out_edges(source).unwrap().is_empty());
    assert_eq!(state.index_of_out_edge(edge), None);
    state.set_order_jitter(9);
    let records = state.to_records();
    let mut decoded = from_records(&records).unwrap();
    assert_eq!(decoded.order_jitter(), 0);
    decoded.apply_changes(vec![change(
        7,
        4,
        5,
        GraphOp::RestoreNode {
            id: source,
            deletes: vec![deleted.id],
        },
    )]);
    assert_eq!(
        decoded.out_edge_at(source, 0).unwrap().position,
        position(16)
    );
    decoded.apply_changes(vec![moved(edge, 8, 1, 6, 200)]);
    assert_eq!(decoded.index_of_out_edge(edge), Some(0));
    let restored = from_records(&decoded.to_records()).unwrap();
    assert_eq!(restored.edge_record(edge), decoded.edge_record(edge));
}

#[test]
fn equal_positions_use_edge_identity_and_retreat_removes_index_entry() {
    let (mut state, source, first) = fixture();
    let second = GraphEdgeId::new(9, 0);
    let create = change(
        9,
        0,
        3,
        GraphOp::CreateEdge {
            id: second,
            source,
            target: source,
            position: position(128),
        },
    );
    state.apply_changes(vec![create.clone()]);
    assert_eq!(
        state
            .ordered_out_edges(source)
            .unwrap()
            .iter()
            .map(|edge| edge.edge_id)
            .collect::<Vec<_>>(),
        vec![first, second]
    );
    assert_eq!(state.index_of_out_edge(second), Some(1));
    state.apply_changes(vec![inverse(create)]);
    assert!(state.edge_record(second).is_none());
    assert_eq!(state.ordered_out_edges(source).unwrap().len(), 1);
    assert_eq!(state.out_edge_at(source, 1), None);
}

#[test]
fn full_diff_keeps_original_creation_and_all_real_write_clocks() {
    let (mut state, _, edge) = fixture();
    let write = moved(edge, 1, 0, 4, 16);
    state.apply_changes(vec![write.clone()]);
    let diff = state.to_diff();
    let creation = diff
        .ops
        .iter()
        .find(|change| change.id == edge.id())
        .unwrap();
    assert_eq!(creation.lamport, 2);
    assert!(matches!(&creation.op, GraphOp::CreateEdge { position: p, .. } if p == &position(128)));
    assert!(diff.ops.contains(&write));
    let mut replayed = GraphState::new();
    replayed.validate_changes(&diff.ops).unwrap();
    replayed.apply_changes(diff.ops);
    assert_eq!(replayed.edge_record(edge), state.edge_record(edge));
    replayed.apply_changes(vec![inverse(write)]);
    assert_eq!(replayed.edge_record(edge).unwrap().position, position(128));
}

#[test]
fn net_order_diff_supports_successive_undo_and_foreign_write_ids() {
    let (mut state, _, edge) = fixture();
    let first = moved(edge, 7, 3, 3, 32);
    let second = moved(edge, 7, 4, 4, 240);
    let initial = state.duplicate();
    let first_diff = state.apply_changes(vec![first.clone()]);
    let first_state = state.duplicate();
    let second_diff = state.apply_changes(vec![second.clone()]);
    let composed = first_diff.compose(second_diff);
    assert_eq!(
        composed.orders.get(edge.id()).unwrap().before.as_ref().unwrap().position,
        position(128)
    );
    assert_eq!(
        composed.orders.get(edge.id()).unwrap().after.as_ref().unwrap().position,
        position(240)
    );

    let identity: IdMap<ID> = IdMap::new();
    let mut checkout = state.duplicate();
    let undo_second = checkout.apply_changes(vec![inverse(second)]);
    let plan = state.local_diff_ops(&undo_second, &identity).unwrap();
    assert_eq!(
        plan,
        vec![GraphOp::SetEdgeOrder {
            id: edge,
            position: position(32)
        }]
    );
    state.apply_changes(vec![change(7, 5, 5, plan[0].clone())]);
    let undo_first = checkout.apply_changes(vec![inverse(first)]);
    let plan = state.local_diff_ops(&undo_first, &identity).unwrap();
    assert_eq!(
        plan,
        vec![GraphOp::SetEdgeOrder {
            id: edge,
            position: position(128)
        }]
    );

    // A copied state holds no source order writer; net inverse remains usable.
    let mut copy = initial;
    copy.apply_changes(vec![moved(edge, 99, 0, 9, 32)]);
    assert_eq!(copy.local_diff_ops(&undo_first, &identity).unwrap(), plan);
    assert_eq!(
        first_state.edge_record(edge).unwrap().position,
        position(32)
    );
}

#[test]
fn snapshot_rejects_missing_creation_write_and_reused_operation_identity() {
    let (state, _, edge) = fixture();
    let mut records = state.to_records();
    let e = records.edges.iter_mut().find(|e| e.id == edge).unwrap();
    e.orders.clear();
    assert!(from_records(&records).is_err());
    let (state, _, edge) = fixture();
    let mut records = state.to_records();
    let e = records.edges.iter_mut().find(|e| e.id == edge).unwrap();
    e.orders.push((IdLp { lamport: 10, peer: 7 }, 1, position(16)));
    assert!(from_records(&records).is_err());
}

#[test]
fn full_diff_lists_every_delete_and_restore() {
    let (mut state, source, edge) = fixture();
    let delete_node = change(8, 0, 3, GraphOp::DeleteNode { id: source });
    let delete_edge = change(8, 1, 4, GraphOp::DeleteEdge { id: edge });
    let restore_node = change(
        8,
        2,
        5,
        GraphOp::RestoreNode {
            id: source,
            deletes: vec![ID::new(8, 0)],
        },
    );
    state.apply_changes(vec![delete_node.clone(), delete_edge.clone(), restore_node.clone()]);
    let diff = state.to_diff();
    assert_eq!(diff.ops.len(), 6);
    assert!(diff.ops.contains(&delete_node));
    assert!(diff.ops.contains(&delete_edge));
    assert!(diff.ops.contains(&restore_node));
    let clocks: Vec<u32> = diff.ops.iter().map(|c| c.lamport).collect();
    assert_eq!(clocks, vec![0, 1, 2, 3, 4, 5]);
}

#[test]
fn full_diff_lists_each_change_once() {
    let (mut state, _, edge) = fixture();
    state.apply_changes(vec![moved(edge, 1, 0, 4, 16)]);
    let diff = state.to_diff();
    for (i, a) in diff.ops.iter().enumerate() {
        for b in diff.ops.iter().skip(i + 1) {
            assert_ne!(a, b);
        }
    }
    assert_eq!(diff.ops.iter().filter(|c| c.id == edge.id()).count(), 1);
}

#[test]
fn unobserved_edge_delete_wins_over_a_concurrent_restore() {
    let (mut state, _, edge) = fixture();
    // Two concurrent deletes; a restore observes only the second.
    state.apply_changes(vec![change(1, 0, 3, GraphOp::DeleteEdge { id: edge })]);
    state.apply_changes(vec![change(2, 0, 3, GraphOp::DeleteEdge { id: edge })]);
    state.apply_changes(vec![change(
        3,
        0,
        4,
        GraphOp::RestoreEdge {
            id: edge,
            deletes: vec![ID::new(2, 0)],
        },
    )]);
    let record = state.edge_record(edge).unwrap();
    assert!(!record.alive);
    assert!(!record.visible);
}

#[test]
fn received_diff_records_must_sit_under_their_own_identity() {
    let (state, _, edge) = fixture();
    let diff = state.to_diff();
    assert_eq!(diff.check_received(), Ok(()));
    let mut bad = state.to_diff();
    let record = bad.edges.get(edge.id()).unwrap().clone();
    bad.edges.insert(ID::new(42, 0), record);
    assert!(bad.check_received().is_err());
}

#[test]
fn unobserved_node_delete_wins_over_a_longer_history() {
    let (mut state, source, edge) = fixture();
    state.apply_changes(vec![change(1, 0, 3, GraphOp::DeleteNode { id: source })]);
    state.apply_changes(vec![
        change(2, 0, 3, GraphOp::DeleteNode { id: source }),
        change(3, 0, 4, GraphOp::RestoreNode { id: source, deletes: vec![ID::new(2, 0)] }),
        moved(edge, 4, 0, 5, 40),
        change(5, 0, 6, GraphOp::RestoreNode { id: source, deletes: vec![ID::new(2, 0)] }),
    ]);
    assert!(!state.node_record(source).unwrap().alive);
    assert!(!state.edge_record(edge).unwrap().visible);
}

#[test]
fn applying_a_diff_accepts_retractions() {
    let (mut state, _, edge) = fixture();
    let write = moved(edge, 1, 0, 4, 16);
    assert!(state.apply_diff(vec![write.clone()]).is_ok());
    assert_eq!(state.edge_record(edge).unwrap().position, position(16));
    assert!(state.apply_diff(vec![inverse(write)]).is_ok());
    assert_eq!(state.edge_record(edge).unwrap().position, position(128));
}

#[test]
fn a_restore_naming_a_tag_twice_counts_it_once() {
    let (mut state, source, _) = fixture();
    state.apply_changes(vec![change(1, 0, 3, GraphOp::DeleteNode { id: source })]);
    let restore = change(
        2,
        0,
        4,
        GraphOp::RestoreNode { id: source, deletes: vec![ID::new(1, 0), ID::new(1, 0)] },
    );
    state.apply_changes(vec![restore.clone()]);
    assert!(state.node_record(source).unwrap().alive);
    state.apply_changes(vec![inverse(restore)]);
    assert!(!state.node_record(source).unwrap().alive);
}
