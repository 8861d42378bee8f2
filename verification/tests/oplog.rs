use loro_graph::ids::{GraphEdgeId, GraphNodeId, ID};
use loro_graph::op::{GraphError, GraphOp};
use loro_graph::oplog::{DagNode, LoggedOp, OpLog};
use loro_graph::position::GraphPosition;

const GRAPH: u64 = 9;

fn logged(peer: u64, counter: i32, op: GraphOp) -> LoggedOp {
    LoggedOp {
        id: ID::new(peer, counter),
        len: 1,
        container: GRAPH,
        graph: Some(op),
    }
}

fn dag(peer: u64, start: i32, end: i32, lamport: u32, deps: Vec<ID>) -> DagNode {
    DagNode {
        peer,
        start,
        end,
        lamport,
        deps,
    }
}

fn edge_op(edge: ID, source: ID, target: ID) -> GraphOp {
    GraphOp::CreateEdge {
        id: GraphEdgeId::new(edge.peer, edge.counter),
        source: GraphNodeId::new(source.peer, source.counter),
        target: GraphNodeId::new(target.peer, target.counter),
        position: GraphPosition::try_from_bytes(vec![128]).unwrap(),
    }
}

/// Peer 1 creates two nodes; peer 2 connects them, depending on `edge_deps`.
fn two_nodes_and_an_edge(edge_deps: Vec<ID>, edge_lamport: u32) -> OpLog {
    let a = ID::new(1, 0);
    let b = ID::new(1, 1);
    OpLog {
        ops: vec![
            logged(1, 0, GraphOp::CreateNode { id: GraphNodeId::new(1, 0) }),
            logged(1, 1, GraphOp::CreateNode { id: GraphNodeId::new(1, 1) }),
            logged(2, 0, edge_op(ID::new(2, 0), a, b)),
        ],
        dag: vec![dag(1, 0, 2, 0, vec![]), dag(2, 0, 1, edge_lamport, edge_deps)],
        shallow: vec![],
    }
}

#[test]
fn import_accepts_edge_that_observed_its_endpoints() {
    let log = two_nodes_and_an_edge(vec![ID::new(1, 1)], 2);
    assert_eq!(log.validate_graph_import(&vec![(1, 0, 2), (2, 0, 1)]), Ok(()));
}

#[test]
fn import_rejects_edge_concurrent_with_its_endpoints() {
    let log = two_nodes_and_an_edge(vec![], 0);
    assert_eq!(
        log.validate_graph_import(&vec![(2, 0, 1)]),
        Err(GraphError::InvalidReference)
    );
    // Only the edge's span fails; the nodes alone validate.
    assert_eq!(log.validate_graph_import(&vec![(1, 0, 2)]), Ok(()));
}

#[test]
fn import_rejects_edge_that_observed_only_one_endpoint() {
    // The edge depends on the first node only: counter 1 of peer 1 is unobserved.
    let log = two_nodes_and_an_edge(vec![ID::new(1, 0)], 1);
    assert_eq!(
        log.validate_graph_import(&vec![(2, 0, 1)]),
        Err(GraphError::InvalidReference)
    );
}

#[test]
fn import_follows_transitive_dependencies() {
    // Peer 3 depends on peer 2, which depends on peer 1's nodes.
    let mut log = two_nodes_and_an_edge(vec![ID::new(1, 1)], 2);
    log.ops.push(logged(3, 0, GraphOp::DeleteNode { id: GraphNodeId::new(1, 0) }));
    log.dag.push(dag(3, 0, 1, 3, vec![ID::new(2, 0)]));
    assert_eq!(log.validate_graph_import(&vec![(3, 0, 1)]), Ok(()));
}

#[test]
fn import_rejects_reference_into_another_container() {
    let mut log = two_nodes_and_an_edge(vec![ID::new(1, 1)], 2);
    log.ops[1].container = GRAPH + 1;
    assert_eq!(
        log.validate_graph_import(&vec![(2, 0, 1)]),
        Err(GraphError::InvalidReference)
    );
}

#[test]
fn import_rejects_reference_of_the_wrong_kind() {
    // The edge names a creation of an edge as its source node.
    let mut log = two_nodes_and_an_edge(vec![ID::new(1, 1)], 2);
    log.ops.push(logged(2, 1, edge_op(ID::new(2, 1), ID::new(2, 0), ID::new(1, 0))));
    log.dag[1].end = 2;
    assert_eq!(
        log.validate_graph_import(&vec![(2, 1, 2)]),
        Err(GraphError::InvalidReference)
    );
}

#[test]
fn import_rejects_reference_inside_a_longer_operation() {
    // A reference must name an operation by its first counter.
    let mut log = two_nodes_and_an_edge(vec![ID::new(1, 1)], 2);
    log.ops.remove(1);
    log.ops[0].len = 2;
    assert_eq!(
        log.validate_graph_import(&vec![(2, 0, 1)]),
        Err(GraphError::InvalidReference)
    );
}

#[test]
fn import_accepts_references_below_the_shallow_root() {
    let log = OpLog {
        ops: vec![logged(
            2,
            0,
            edge_op(ID::new(2, 0), ID::new(1, 0), ID::new(1, 1)),
        )],
        dag: vec![dag(2, 0, 1, 5, vec![])],
        shallow: vec![(1, 4)],
    };
    assert_eq!(log.validate_graph_import(&vec![(2, 0, 1)]), Ok(()));
    let trimmed_less = OpLog {
        shallow: vec![(1, 1)],
        ..log
    };
    assert_eq!(
        trimmed_less.validate_graph_import(&vec![(2, 0, 1)]),
        Err(GraphError::InvalidReference)
    );
}

#[test]
fn import_rejects_invalid_operation_identity() {
    let log = OpLog {
        ops: vec![logged(1, 0, GraphOp::CreateNode { id: GraphNodeId::new(1, 3) })],
        dag: vec![dag(1, 0, 1, 0, vec![])],
        shallow: vec![],
    };
    assert_eq!(
        log.validate_graph_import(&vec![(1, 0, 1)]),
        Err(GraphError::InvalidOperation)
    );
}

#[test]
fn import_checks_restore_names_observed_deletes() {
    let node = GraphNodeId::new(1, 0);
    let base = vec![
        logged(1, 0, GraphOp::CreateNode { id: node }),
        logged(1, 1, GraphOp::DeleteNode { id: node }),
    ];
    let restore = |deletes: Vec<ID>| OpLog {
        ops: {
            let mut ops = base.clone();
            ops.push(logged(2, 0, GraphOp::RestoreNode { id: node, deletes }));
            ops
        },
        dag: vec![dag(1, 0, 2, 0, vec![]), dag(2, 0, 1, 2, vec![ID::new(1, 1)])],
        shallow: vec![],
    };
    assert_eq!(
        restore(vec![ID::new(1, 1)]).validate_graph_import(&vec![(2, 0, 1)]),
        Ok(())
    );
    // A restore tag must name a deletion of the restored object.
    assert_eq!(
        restore(vec![ID::new(1, 0)]).validate_graph_import(&vec![(2, 0, 1)]),
        Err(GraphError::InvalidReference)
    );
}

#[test]
fn import_ignores_operations_of_other_kinds() {
    let log = OpLog {
        ops: vec![LoggedOp {
            id: ID::new(1, 0),
            len: 5,
            container: 3,
            graph: None,
        }],
        dag: vec![dag(1, 0, 5, 0, vec![])],
        shallow: vec![],
    };
    assert_eq!(log.validate_graph_import(&vec![(1, 0, 5)]), Ok(()));
}
