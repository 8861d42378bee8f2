use loro_graph::copy_order::{assign_mixed_groups, CopyOrderEdge, Destination};
use loro_graph::idmap::IdMap;
use loro_graph::ids::{GraphEdgeId, GraphNodeId, ID};
use loro_graph::op::{GraphChange, GraphDiff, GraphOp};
use loro_graph::position::GraphPosition;
use loro_graph::state::GraphState;
use std::collections::BTreeMap;

fn key(byte: u8) -> GraphPosition {
    GraphPosition::try_from_bytes(vec![byte, 128]).unwrap()
}

fn apply(state: &mut GraphState, id: ID, lamport: u32, op: GraphOp) -> GraphDiff {
    state.apply_changes(vec![GraphChange {
        id,
        lamport,
        op,
        forward: true,
    }])
}

fn seed() -> (GraphState, GraphNodeId) {
    let mut state = GraphState::new();
    let node = GraphNodeId::new(99, 0);
    apply(&mut state, node.id(), 0, GraphOp::CreateNode { id: node });
    (state, node)
}

fn create(id: GraphEdgeId, source: GraphNodeId, position: GraphPosition) -> GraphOp {
    GraphOp::CreateEdge {
        id,
        source,
        target: source,
        position,
    }
}

fn identity() -> IdMap<ID> {
    IdMap::new()
}

#[test]
fn mixed_group_order_is_independent_of_the_future_copy_peer() {
    // Every arrangement of copied/existing edges in a six-way key collision.
    for mask in 0..64 {
        let mut copy_index = 0;
        let sequence: Vec<_> = (0..6)
            .map(|i| {
                let id = GraphEdgeId::new(5, i);
                let destination = if mask & (1 << i) != 0 {
                    let index = copy_index;
                    copy_index += 1;
                    Destination::Create(index)
                } else {
                    Destination::Existing(id)
                };
                CopyOrderEdge {
                    id,
                    position: key(128),
                    destination,
                }
            })
            .collect();
        let assignments = assign_mixed_groups(&sequence, 0).unwrap();
        let new_keys: BTreeMap<_, _> = assignments
            .iter()
            .map(|(destination, key)| {
                let index = match destination {
                    Destination::Create(index) => sequence
                        .iter()
                        .position(|edge| matches!(edge.destination, Destination::Create(i) if i == *index))
                        .unwrap(),
                    Destination::Existing(id) => sequence.iter().position(|edge| edge.id == *id).unwrap(),
                };
                (index, key.clone())
            })
            .collect();
        for peer in [1, 5, 20] {
            let mut actual: Vec<_> = sequence
                .iter()
                .enumerate()
                .map(|(index, edge)| {
                    let id = match edge.destination {
                        Destination::Create(copy) => GraphEdgeId::new(peer, 100 + copy as i32),
                        Destination::Existing(id) => id,
                    };
                    (
                        new_keys.get(&index).unwrap_or(&edge.position).clone(),
                        id,
                        index,
                    )
                })
                .collect();
            actual.sort();
            assert_eq!(
                actual.iter().map(|(_, _, index)| *index).collect::<Vec<_>>(),
                (0..6).collect::<Vec<_>>(),
                "mask {mask}, peer {peer}"
            );
        }
    }
}

#[test]
fn neighboring_mixed_groups_do_not_overlap_their_allocated_gap() {
    let sequence = vec![
        CopyOrderEdge {
            id: GraphEdgeId::new(1, 0),
            position: key(64),
            destination: Destination::Existing(GraphEdgeId::new(1, 0)),
        },
        CopyOrderEdge {
            id: GraphEdgeId::new(20, 0),
            position: key(64),
            destination: Destination::Create(1),
        },
        CopyOrderEdge {
            id: GraphEdgeId::new(30, 0),
            position: key(64),
            destination: Destination::Existing(GraphEdgeId::new(30, 0)),
        },
        CopyOrderEdge {
            id: GraphEdgeId::new(2, 0),
            position: key(128),
            destination: Destination::Create(0),
        },
        CopyOrderEdge {
            id: GraphEdgeId::new(9, 0),
            position: key(128),
            destination: Destination::Existing(GraphEdgeId::new(9, 0)),
        },
    ];
    let assignments = assign_mixed_groups(&sequence, 0).unwrap();
    let mut keys: Vec<_> = sequence.iter().map(|edge| edge.position.clone()).collect();
    for (destination, position) in assignments {
        let index = match destination {
            Destination::Create(1) => 1,
            Destination::Existing(id) if id == GraphEdgeId::new(30, 0) => 2,
            Destination::Create(0) => 3,
            _ => panic!("unnecessary assignment"),
        };
        keys[index] = position;
    }
    assert!(keys.windows(2).all(|pair| pair[0] < pair[1]));
}

#[test]
fn planned_order_is_used_and_auxiliary_write_replaces_it() {
    let (mut state, node) = seed();
    let before = GraphEdgeId::new(1, 0);
    let copied = GraphEdgeId::new(2, 0);
    let after = GraphEdgeId::new(9, 0);
    apply(&mut state, before.id(), 1, create(before, node, key(128)));
    apply(&mut state, after.id(), 1, create(after, node, key(240)));
    let mut source = state.duplicate();
    let diff = apply(&mut source, copied.id(), 1, create(copied, node, key(128))).compose(apply(
        &mut source,
        ID::new(9, 1),
        2,
        GraphOp::SetEdgeOrder {
            id: after,
            position: key(128),
        },
    ));
    let plan = state.local_diff_ops(&diff, &identity()).unwrap();
    let copied_position = plan
        .iter()
        .find_map(|op| match op {
            GraphOp::CreateEdge { id, position, .. } if *id == copied => Some(position),
            _ => None,
        })
        .unwrap();
    let order_writes: Vec<_> = plan
        .iter()
        .filter_map(|op| match op {
            GraphOp::SetEdgeOrder { id, position } => Some((*id, position)),
            _ => None,
        })
        .collect();
    assert_eq!(order_writes.len(), 1);
    assert_eq!(order_writes[0].0, after);
    assert!(key(128) < *copied_position && copied_position < order_writes[0].1);
    assert_eq!(state.edge_record(after).unwrap().position, key(240));
}

#[test]
fn net_lifecycle_hides_deleted_edges_and_keeps_independent_remote_delete() {
    let (mut state, node) = seed();
    let existing = GraphEdgeId::new(9, 0);
    let copied = GraphEdgeId::new(2, 0);
    apply(&mut state, existing.id(), 1, create(existing, node, key(128)));
    let mut source = state.duplicate();
    let diff = apply(&mut source, copied.id(), 1, create(copied, node, key(128))).compose(apply(
        &mut source,
        ID::new(9, 1),
        2,
        GraphOp::DeleteEdge { id: existing },
    ));
    let plan = state.local_diff_ops(&diff, &identity()).unwrap();
    assert!(plan
        .iter()
        .any(|op| matches!(op, GraphOp::CreateEdge { position, .. } if *position == key(128))));
    assert!(!plan.iter().any(|op| matches!(op, GraphOp::SetEdgeOrder { .. })));

    // A restore of one observed delete must not unhide an independently
    // deleted source, or allocate copy order against its hidden adjacency.
    apply(&mut state, ID::new(9, 1), 2, GraphOp::DeleteNode { id: node });
    let mut source = state.duplicate();
    let diff = apply(&mut source, copied.id(), 3, create(copied, node, key(128))).compose(apply(
        &mut source,
        ID::new(9, 2),
        4,
        GraphOp::RestoreNode {
            id: node,
            deletes: vec![ID::new(9, 1)],
        },
    ));
    apply(&mut state, ID::new(20, 0), 3, GraphOp::DeleteNode { id: node });
    let plan = state.local_diff_ops(&diff, &identity()).unwrap();
    assert!(plan
        .iter()
        .any(|op| matches!(op, GraphOp::CreateEdge { position, .. } if *position == key(128))));
    assert!(!plan.iter().any(|op| matches!(op, GraphOp::SetEdgeOrder { .. })));
    assert!(!state.node_record(node).unwrap().alive);
}

#[test]
fn failed_copy_key_allocation_does_not_change_state() {
    let (mut state, node) = seed();
    let existing = GraphEdgeId::new(9, 0);
    let copied = GraphEdgeId::new(2, 0);
    let mut bytes = vec![0; 4095];
    bytes.push(128);
    let minimum = GraphPosition::try_from_bytes(bytes).unwrap();
    apply(&mut state, existing.id(), 1, create(existing, node, minimum.clone()));
    let mut source = state.duplicate();
    let diff = apply(&mut source, copied.id(), 1, create(copied, node, minimum));
    let before = (state.all_nodes(), state.all_edges());
    let writer = state.edge_record(existing).unwrap().last_order;
    assert!(state.local_diff_ops(&diff, &identity()).is_err());
    assert_eq!((state.all_nodes(), state.all_edges()), before);
    assert_eq!(state.edge_record(existing).unwrap().last_order, writer);
    assert!(state.edge_record(copied).is_none());
}
