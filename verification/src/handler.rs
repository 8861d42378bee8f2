//! A graph owned by one writer: every edit becomes a validated change with a fresh
//! operation identity, applied to the graph state.
use vstd::prelude::*;
use crate::ids::{ID, GraphNodeId, GraphEdgeId, id_lt};
use crate::idmap::{IdMap, sorted_ids};
use crate::op::{GraphOp, GraphChange, GraphNode, GraphEdge, GraphDiff, GraphError, op_valid, op_object};
use crate::position::{GraphPosition, GraphOrderError, opt_wf};
use crate::order_index::OrderedGraphEdge;
use crate::state::{
    GraphState, GraphView, spec_step, validation_result, node_alive, edge_visible, node_ids, edge_ids,
    node_record_ok, edge_record_ok, adjacent_to, ordered_out, ordered_view, targets_ok, diff_ok, visible_node_set,
    visible_edge_set, tags_match,
};
use crate::analysis::{GraphSnapshot, GraphSnapshotEdge, GraphRepairError, RepairPlan, snapshot_node_ids, snapshot_edge_ids};
use crate::life::{copy_ids, LifeView, life_alive};
use crate::register::{winner_value, is_winner, lemma_winner_key};
use crate::local_diff::{resolve_remap, follow_remap, planned_from, created_by, recreates, resolved_map, creates_no_edge, order_write_due};

verus! {

/// `w` writes what the planned `op` does under renamed identities: the same kind
/// of operation with the same key or delete tags.
pub open spec fn localizes(op: GraphOp, w: GraphOp) -> bool {
    match (op, w) {
        (GraphOp::CreateNode { .. }, GraphOp::CreateNode { .. }) => true,
        (GraphOp::CreateEdge { position: p, .. }, GraphOp::CreateEdge { position: p2, .. }) => p@ == p2@,
        (GraphOp::DeleteNode { .. }, GraphOp::DeleteNode { .. }) => true,
        (GraphOp::DeleteEdge { .. }, GraphOp::DeleteEdge { .. }) => true,
        (GraphOp::RestoreNode { deletes: d, .. }, GraphOp::RestoreNode { deletes: d2, .. }) => d@ == d2@,
        (GraphOp::RestoreEdge { deletes: d, .. }, GraphOp::RestoreEdge { deletes: d2, .. }) => d@ == d2@,
        (GraphOp::SetEdgeOrder { position: p, .. }, GraphOp::SetEdgeOrder { position: p2, .. }) => p@ == p2@,
        _ => false,
    }
}

/// `cs` are forward changes written one after another from identity `start` and
/// clock `lamport`.
pub open spec fn written_from(start: ID, lamport: u32, cs: Seq<GraphChange>) -> bool {
    forall|k: int| 0 <= k < cs.len() ==> (#[trigger] cs[k]).id == (ID { peer: start.peer, counter: (start.counter + k) as i32 })
        && cs[k].lamport == lamport + k && cs[k].forward
}

/// Calls `rand::random::<u64>()` for the peer of a new detached graph. Nothing is
/// stated about the value.
#[verifier::external_body]
fn random_peer() -> (r: u64) {
    rand::random::<u64>()
}

/// A graph with its own operation identities: the next identity to assign and the
/// next Lamport clock.
pub struct GraphHandler {
    state: GraphState,
    next: ID,
    lamport: u32,
    graph: ID,
    version: Vec<ID>,
    attached: bool,
}

impl GraphHandler {
    pub closed spec fn view_state(&self) -> GraphView {
        self.state@
    }

    pub closed spec fn next_id(&self) -> ID {
        self.next
    }

    pub closed spec fn next_lamport(&self) -> u32 {
        self.lamport
    }

    pub closed spec fn jitter(&self) -> u8 {
        self.state.jitter()
    }

    pub closed spec fn spec_graph(&self) -> ID {
        self.graph
    }

    pub closed spec fn spec_version(&self) -> Seq<ID> {
        self.version@
    }

    pub closed spec fn spec_attached(&self) -> bool {
        self.attached
    }

    pub closed spec fn wf(&self) -> bool {
        &&& self.state.wf()
        &&& self.next.counter >= 0
        &&& forall|x: ID| #[trigger] self.state@.nodes.contains_key(x) ==> x.peer == self.next.peer && 0 <= x.counter < self.next.counter
        &&& forall|x: ID| #[trigger] self.state@.edges.contains_key(x) ==> x.peer == self.next.peer && 0 <= x.counter < self.next.counter
        &&& endpoints_recorded(self.state@)
    }

    /// The endpoints of every recorded edge are recorded nodes.
    pub proof fn lemma_endpoints(&self)
        requires
            self.wf(),
        ensures
            endpoints_recorded(self.view_state()),
    {
    }

    /// Every recorded node and edge was created by this handler, before its next identity.
    pub proof fn lemma_fresh(&self)
        requires
            self.wf(),
        ensures
            !self.view_state().nodes.contains_key(self.next_id()),
            !self.view_state().edges.contains_key(self.next_id()),
            self.next_id().counter >= 0,
            forall|x: ID| #[trigger] self.view_state().nodes.contains_key(x) ==> x.counter >= 0,
    {
    }

    /// A successful write: one identity and one Lamport tick consumed, the frontier
    /// moved to the written change, and nothing else about the handler changed.
    pub open spec fn advanced(old: GraphHandler, new: GraphHandler) -> bool {
        &&& new.next_id() == (ID { peer: old.next_id().peer, counter: (old.next_id().counter + 1) as i32 })
        &&& old.next_id().counter < i32::MAX
        &&& new.next_lamport() == old.next_lamport() + 1
        &&& new.spec_version() == seq![old.next_id()]
        &&& new.spec_graph() == old.spec_graph()
        &&& new.spec_attached() == old.spec_attached()
        &&& new.jitter() == old.jitter()
    }

    /// A rejected write: the handler is as it was.
    pub open spec fn unchanged(old: GraphHandler, new: GraphHandler) -> bool {
        &&& new.view_state() == old.view_state()
        &&& new.next_id() == old.next_id()
        &&& new.next_lamport() == old.next_lamport()
        &&& new.spec_version() == old.spec_version()
        &&& new.spec_graph() == old.spec_graph()
        &&& new.spec_attached() == old.spec_attached()
        &&& new.jitter() == old.jitter()
    }

    /// The change a write with `op` makes.
    pub open spec fn change_of(&self, op: GraphOp) -> GraphChange {
        GraphChange { id: self.next_id(), lamport: self.next_lamport(), op, forward: true }
    }

    /// A fresh graph whose operations carry the given peer.
    pub fn with_peer(peer: u64, graph: ID) -> (r: GraphHandler)
        ensures
            r.wf(),
            r.view_state().nodes == Map::<ID, crate::life::LifeView>::empty(),
            r.view_state().edges == Map::<ID, crate::state::EdgeView>::empty(),
            r.next_id() == (ID { peer, counter: 0 }),
            r.next_lamport() == 0,
            r.jitter() == 0,
            r.spec_graph() == graph,
            r.spec_version() == Seq::<ID>::empty(),
            r.spec_attached(),
    {
        GraphHandler { state: GraphState::new(), next: ID { peer, counter: 0 }, lamport: 0, graph, version: Vec::new(), attached: true }
    }

    /// A fresh detached graph with a random peer.
    pub fn new_detached() -> (r: GraphHandler)
        ensures
            r.wf(),
            r.view_state().nodes == Map::<ID, crate::life::LifeView>::empty(),
            r.view_state().edges == Map::<ID, crate::state::EdgeView>::empty(),
            r.next_id().counter == 0,
            r.next_lamport() == 0,
            r.jitter() == 0,
            !r.spec_attached(),
    {
        let mut h = Self::with_peer(random_peer(), ID { peer: 0, counter: 0 });
        h.attached = false;
        h
    }

    /// The identity of the graph container.
    pub fn id(&self) -> (r: ID)
        ensures
            r == self.spec_graph(),
    {
        self.graph
    }

    pub fn is_attached(&self) -> (r: bool)
        ensures
            r == self.spec_attached(),
    {
        self.attached
    }

    /// The frontier of the changes written so far.
    pub fn version(&self) -> (r: &Vec<ID>)
        ensures
            r@ == self.spec_version(),
    {
        &self.version
    }

    pub fn state(&self) -> (r: &GraphState)
        ensures
            r@ == self.view_state(),
            self.wf() ==> r.wf(),
    {
        &self.state
    }

    /// Validate `op` as the next local change and apply it; a rejected write
    /// changes nothing and consumes no identity.
    fn write(&mut self, op: GraphOp) -> (r: Result<ID, GraphError>)
        requires
            old(self).wf(),
        ensures
            final(self).wf(),
            final(self).jitter() == old(self).jitter(),
            final(self).spec_graph() == old(self).spec_graph(),
            final(self).spec_attached() == old(self).spec_attached(),
            r is Ok ==> final(self).spec_version() == seq![old(self).next_id()],
            r is Err ==> final(self).spec_version() == old(self).spec_version(),
            r is Ok ==> Self::advanced(*old(self), *final(self)),
            r is Err ==> Self::unchanged(*old(self), *final(self)),
            match r {
                Ok(id) => {
                    &&& id == old(self).next_id()
                    &&& old(self).next_id().counter < i32::MAX
                    &&& old(self).next_lamport() < u32::MAX
                    &&& validation_result(old(self).view_state(), seq![old(self).change_of(op)]) is Ok
                    &&& final(self).view_state() == spec_step(old(self).view_state(), old(self).change_of(op))
                    &&& final(self).next_id() == (ID { peer: id.peer, counter: (id.counter + 1) as i32 })
                    &&& final(self).next_lamport() == old(self).next_lamport() + 1
                },
                Err(e) => {
                    &&& final(self).view_state() == old(self).view_state()
                    &&& final(self).next_id() == old(self).next_id()
                    &&& final(self).next_lamport() == old(self).next_lamport()
                    &&& (validation_result(old(self).view_state(), seq![old(self).change_of(op)]) == Err::<(), GraphError>(e)
                        || (e == GraphError::InvalidOperation && (old(self).next_id().counter == i32::MAX || old(self).next_lamport() == u32::MAX)))
                },
            },
    {
        if self.next.counter == i32::MAX || self.lamport == u32::MAX {
            return Err(GraphError::InvalidOperation);
        }
        let id = self.next;
        let change = GraphChange { id, lamport: self.lamport, op, forward: true };
        let ghost g0 = self.state@;
        let ghost c = change;
        match self.state.apply_local_op(change) {
            Ok(_) => {
                proof {
                    lemma_step_keys(g0, c);
                    lemma_step_keeps_endpoints(g0, c);
                }
                self.next = ID { peer: id.peer, counter: id.counter + 1 };
                self.lamport = self.lamport + 1;
                self.version = vec![id];
                Ok(id)
            },
            Err(e) => Err(e),
        }
    }

    /// Create a node named by the next operation identity.
    pub fn create_node(&mut self) -> (r: Result<GraphNodeId, GraphError>)
        requires
            old(self).wf(),
        ensures
            final(self).wf(),
            r is Ok ==> Self::advanced(*old(self), *final(self)),
            r is Err ==> Self::unchanged(*old(self), *final(self)),
            match r {
                Ok(n) => n.spec_id() == old(self).next_id() && final(self).view_state() == spec_step(
                    old(self).view_state(),
                    old(self).change_of(GraphOp::CreateNode { id: n }),
                ),
                Err(_) => final(self).view_state() == old(self).view_state(),
            },
            r matches Err(e) ==> e == GraphError::InvalidOperation && (old(self).next_id().counter == i32::MAX
                || old(self).next_lamport() == u32::MAX),
    {
        let n = GraphNodeId::from_id(self.next);
        proof {
            self.lemma_fresh();
            lemma_fresh_creation_valid(self.view_state(), self.change_of(GraphOp::CreateNode { id: n }));
        }
        match self.write(GraphOp::CreateNode { id: n }) {
            Ok(_) => Ok(n),
            Err(e) => Err(e),
        }
    }

    /// Create an edge after the last visible out-edge of its source.
    pub fn create_edge(&mut self, source: GraphNodeId, target: GraphNodeId) -> (r: Result<GraphEdgeId, GraphError>)
        requires
            old(self).wf(),
        ensures
            final(self).wf(),
            r is Ok ==> Self::advanced(*old(self), *final(self)),
            r is Err ==> Self::unchanged(*old(self), *final(self)),
            match r {
                Ok(e) => e.spec_id() == old(self).next_id() && exists|p: GraphPosition| final(self).view_state() == #[trigger] spec_step(
                    old(self).view_state(),
                    old(self).change_of(GraphOp::CreateEdge { id: e, source, target, position: p }),
                ) && after_all_out(old(self).view_state(), source.spec_id(), p@),
                Err(_) => final(self).view_state() == old(self).view_state(),
            },
            // Parallel edges, self-loops and cycles are valid: between recorded nodes,
            // with identities left, only allocating an order key can fail.
            r matches Err(e) ==> (old(self).view_state().nodes.contains_key(source.spec_id())
                && old(self).view_state().nodes.contains_key(target.spec_id()) && old(self).next_id().counter < i32::MAX
                && old(self).next_lamport() < u32::MAX ==> e is Order),
            !old(self).view_state().nodes.contains_key(source.spec_id()) ==> r == Err::<GraphEdgeId, GraphError>(GraphError::InvalidReference),
            // without jitter the key after the last out-edge always fits when that key has room for one byte
            old(self).jitter() == 0 && old(self).view_state().nodes.contains_key(source.spec_id())
                && old(self).view_state().nodes.contains_key(target.spec_id()) && old(self).next_id().counter < i32::MAX
                && old(self).next_lamport() < u32::MAX && (forall|sq: Seq<(Seq<u8>, ID)>|
                #[trigger] ordered_out(old(self).view_state(), source.spec_id(), sq) ==> forall|k: int|
                    0 <= k < sq.len() ==> sq[k].0.len() < crate::position::MAX_GRAPH_POSITION_BYTES) ==> r is Ok,
            // with jitter the drawn bytes follow the key after the last out-edge, so room for them is enough
            old(self).jitter() != 0 && old(self).view_state().nodes.contains_key(source.spec_id())
                && old(self).view_state().nodes.contains_key(target.spec_id()) && old(self).next_id().counter < i32::MAX
                && old(self).next_lamport() < u32::MAX && (forall|sq: Seq<(Seq<u8>, ID)>|
                #[trigger] ordered_out(old(self).view_state(), source.spec_id(), sq) ==> forall|k: int|
                    0 <= k < sq.len() ==> sq[k].0.len() + old(self).jitter() + 2 <= crate::position::MAX_GRAPH_POSITION_BYTES) ==> r is Ok,
    {
        let ghost g0 = self.view_state();
        if !self.state.has_node(source.id()) {
            return Err(GraphError::InvalidReference);
        }
        let ordered = match self.state.ordered_out_edges(source) {
            Ok(v) => v,
            Err(e) => {
                return Err(e);
            },
        };
        let jitter = self.state.order_jitter();
        let position = if ordered.len() == 0 {
            GraphPosition::between(None, None, jitter)
        } else {
            let last = &ordered[ordered.len() - 1].position;
            proof {
                use_type_invariant(last);
                let o = crate::state::ordered_view(ordered@);
                assert(ordered_out(g0, source.spec_id(), o));
                assert(o[o.len() - 1].0 == last@);
            }
            GraphPosition::between(Some(last), None, jitter)
        };
        let position = match position {
            Ok(p) => p,
            Err(e) => {
                return Err(GraphError::Order(e));
            },
        };
        let ghost p = position;
        proof {
            let o = ordered_view(ordered@);
            assert forall|s: Seq<(Seq<u8>, ID)>| #[trigger] ordered_out(g0, source.spec_id(), s) implies forall|k: int|
                0 <= k < s.len() ==> #[trigger] crate::position::lex_lt(s[k].0, p@) by {
                crate::order_index::lemma_sorted_unique(s, o);
                assert forall|k: int| 0 <= k < s.len() implies crate::position::lex_lt(s[k].0, p@) by {
                    let m = s.len() - 1;
                    if k < m {
                        assert(crate::order_index::entry_lt(s[k], s[m]));
                        assert(s[m].0 == ordered@[m].position@);
                        if s[k].0 != s[m].0 {
                            crate::position::lemma_lex_transitive(s[k].0, s[m].0, p@);
                        }
                    } else {
                        assert(s[k].0 == ordered@[k].position@);
                    }
                }
            }
        }
        let e = GraphEdgeId::from_id(self.next);
        proof {
            self.lemma_fresh();
            if g0.nodes.contains_key(target.spec_id()) {
                lemma_fresh_edge_valid(g0, self.change_of(GraphOp::CreateEdge { id: e, source, target, position: p }));
            }
        }
        match self.write(GraphOp::CreateEdge { id: e, source, target, position }) {
            Ok(_) => {
                proof {
                    assert(self.view_state() == spec_step(g0, old(self).change_of(GraphOp::CreateEdge { id: e, source, target, position: p })));
                    assert(g0 == old(self).view_state());
                    assert(after_all_out(g0, source.spec_id(), p@));
                }
                Ok(e)
            },
            Err(err) => Err(err),
        }
    }

    /// Add a delete tag to a node; its incident edges become invisible.
    pub fn delete_node(&mut self, id: GraphNodeId) -> (r: Result<(), GraphError>)
        requires
            old(self).wf(),
        ensures
            final(self).wf(),
            r is Ok ==> Self::advanced(*old(self), *final(self)),
            r is Err ==> Self::unchanged(*old(self), *final(self)),
            r is Ok <==> old(self).view_state().nodes.contains_key(id.spec_id()) && id.counter >= 0
                && old(self).next_id().counter < i32::MAX && old(self).next_lamport() < u32::MAX,
            r is Ok ==> final(self).view_state() == spec_step(old(self).view_state(), old(self).change_of(GraphOp::DeleteNode { id })),
            r is Err ==> final(self).view_state() == old(self).view_state(),
    {
        let ghost g = self.view_state();
        let r = self.write(GraphOp::DeleteNode { id });
        proof { reveal_validation_single(g, old(self).change_of(GraphOp::DeleteNode { id })); }
        match r {
            Ok(_) => Ok(()),
            Err(e) => Err(e),
        }
    }

    /// Add a delete tag to an edge.
    pub fn delete_edge(&mut self, id: GraphEdgeId) -> (r: Result<(), GraphError>)
        requires
            old(self).wf(),
        ensures
            final(self).wf(),
            r is Ok ==> Self::advanced(*old(self), *final(self)),
            r is Err ==> Self::unchanged(*old(self), *final(self)),
            r is Ok <==> old(self).view_state().edges.contains_key(id.spec_id()) && id.counter >= 0
                && old(self).next_id().counter < i32::MAX && old(self).next_lamport() < u32::MAX,
            r is Ok ==> final(self).view_state() == spec_step(old(self).view_state(), old(self).change_of(GraphOp::DeleteEdge { id })),
            r is Err ==> final(self).view_state() == old(self).view_state(),
    {
        let ghost g = self.view_state();
        let r = self.write(GraphOp::DeleteEdge { id });
        proof { reveal_validation_single(g, old(self).change_of(GraphOp::DeleteEdge { id })); }
        match r {
            Ok(_) => Ok(()),
            Err(e) => Err(e),
        }
    }

    /// Restore a node by naming every delete tag it has not yet seen restored.
    pub fn restore_node(&mut self, id: GraphNodeId) -> (r: Result<(), GraphError>)
        requires
            old(self).wf(),
        ensures
            final(self).wf(),
            r is Ok ==> Self::advanced(*old(self), *final(self)),
            r is Err ==> Self::unchanged(*old(self), *final(self)),
            !old(self).view_state().nodes.contains_key(id.spec_id()) ==> r == Err::<(), GraphError>(GraphError::MissingObject),
            r is Ok ==> exists|tags: Vec<ID>| tags_match(tags@, old(self).view_state().nodes[id.spec_id()])
                && #[trigger] final(self).view_state() == spec_step(old(self).view_state(), old(self).change_of(GraphOp::RestoreNode { id, deletes: tags })),
            r is Ok && !old(self).view_state().nodes[id.spec_id()].restores.contains_key(old(self).next_id()) ==> node_alive(final(self).view_state(), id.spec_id()),
            r is Err ==> final(self).view_state() == old(self).view_state(),
            r is Ok <==> old(self).view_state().nodes.contains_key(id.spec_id()) && id.counter >= 0
                && old(self).next_id().counter < i32::MAX && old(self).next_lamport() < u32::MAX
                && forall|t: ID| crate::life::is_active_tag(old(self).view_state().nodes[id.spec_id()], t) ==> t.counter >= 0,
    {
        let tags = match self.state.node_record(id) {
            Some(n) => n.delete_tags,
            None => {
                return Err(GraphError::MissingObject);
            },
        };
        let ghost t = tags;
        let ghost g = self.view_state();
        proof { crate::idmap::lemma_sorted_no_dups(tags@); }
        let r = self.write(GraphOp::RestoreNode { id, deletes: tags });
        proof {
            reveal_validation_single(g, old(self).change_of(GraphOp::RestoreNode { id, deletes: t }));
            lemma_active_tags(t@, g.nodes[id.spec_id()], id.spec_id());
            if r is Ok && !g.nodes[id.spec_id()].restores.contains_key(old(self).next_id()) {
                crate::life::law_restore_active_is_alive(g.nodes[id.spec_id()], old(self).next_id(), old(self).next_lamport(), t@);
            }
        }
        match r {
            Ok(_) => Ok(()),
            Err(e) => Err(e),
        }
    }

    /// Restore an edge by naming every delete tag it has not yet seen restored.
    pub fn restore_edge(&mut self, id: GraphEdgeId) -> (r: Result<(), GraphError>)
        requires
            old(self).wf(),
        ensures
            final(self).wf(),
            r is Ok ==> Self::advanced(*old(self), *final(self)),
            r is Err ==> Self::unchanged(*old(self), *final(self)),
            !old(self).view_state().edges.contains_key(id.spec_id()) ==> r == Err::<(), GraphError>(GraphError::MissingObject),
            r is Ok ==> exists|tags: Vec<ID>| tags_match(tags@, old(self).view_state().edges[id.spec_id()].life)
                && #[trigger] final(self).view_state() == spec_step(old(self).view_state(), old(self).change_of(GraphOp::RestoreEdge { id, deletes: tags })),
            r is Ok && !old(self).view_state().edges[id.spec_id()].life.restores.contains_key(old(self).next_id()) ==> crate::state::edge_alive(final(self).view_state(), id.spec_id()),
            r is Err ==> final(self).view_state() == old(self).view_state(),
            r is Ok <==> old(self).view_state().edges.contains_key(id.spec_id()) && id.counter >= 0
                && old(self).next_id().counter < i32::MAX && old(self).next_lamport() < u32::MAX
                && forall|t: ID| crate::life::is_active_tag(old(self).view_state().edges[id.spec_id()].life, t) ==> t.counter >= 0,
    {
        let tags = match self.state.edge_record(id) {
            Some(e) => e.delete_tags,
            None => {
                return Err(GraphError::MissingObject);
            },
        };
        let ghost t = tags;
        let ghost g = self.view_state();
        proof { crate::idmap::lemma_sorted_no_dups(tags@); }
        let r = self.write(GraphOp::RestoreEdge { id, deletes: tags });
        proof {
            reveal_validation_single(g, old(self).change_of(GraphOp::RestoreEdge { id, deletes: t }));
            lemma_active_tags(t@, g.edges[id.spec_id()].life, id.spec_id());
            if r is Ok && !g.edges[id.spec_id()].life.restores.contains_key(old(self).next_id()) {
                crate::life::law_restore_active_is_alive(g.edges[id.spec_id()].life, old(self).next_id(), old(self).next_lamport(), t@);
            }
        }
        match r {
            Ok(_) => Ok(()),
            Err(e) => Err(e),
        }
    }
}


impl GraphHandler {
    /// Visible nodes, ascending by identity.
    pub fn nodes(&self) -> (r: Vec<GraphNodeId>)
        requires
            self.wf(),
        ensures
            sorted_ids(node_ids(r@)),
            forall|n: ID| #[trigger] node_ids(r@).contains(n) <==> node_alive(self.view_state(), n),
    {
        self.state.nodes()
    }

    /// Visible edges, ascending by identity.
    pub fn edges(&self) -> (r: Vec<GraphEdgeId>)
        requires
            self.wf(),
        ensures
            sorted_ids(edge_ids(r@)),
            forall|e: ID| #[trigger] edge_ids(r@).contains(e) <==> edge_visible(self.view_state(), e),
    {
        self.state.edges()
    }

    pub fn node_count(&self) -> (r: usize)
        requires
            self.wf(),
        ensures
            r == visible_node_set(self.view_state()).len(),
    {
        self.state.node_count()
    }

    pub fn edge_count(&self) -> (r: usize)
        requires
            self.wf(),
        ensures
            r == visible_edge_set(self.view_state()).len(),
    {
        self.state.edge_count()
    }

    /// The record of a node, deleted or not.
    pub fn node_record(&self, id: GraphNodeId) -> (r: Option<GraphNode>)
        requires
            self.wf(),
        ensures
            node_record_ok(self.view_state(), id.spec_id(), r),
    {
        self.state.node_record(id)
    }

    /// The record of an edge, visible or not.
    pub fn edge_record(&self, id: GraphEdgeId) -> (r: Option<GraphEdge>)
        requires
            self.wf(),
        ensures
            edge_record_ok(self.view_state(), id.spec_id(), r),
    {
        self.state.edge_record(id)
    }

    /// The record of a visible node.
    pub fn get_node(&self, id: GraphNodeId) -> (r: Option<GraphNode>)
        requires
            self.wf(),
        ensures
            r is Some <==> node_alive(self.view_state(), id.spec_id()),
            r is Some ==> node_record_ok(self.view_state(), id.spec_id(), r),
    {
        match self.state.node_record(id) {
            Some(n) => if n.visible { Some(n) } else { None },
            None => None,
        }
    }

    /// The record of a visible edge.
    pub fn get_edge(&self, id: GraphEdgeId) -> (r: Option<GraphEdge>)
        requires
            self.wf(),
        ensures
            r is Some <==> edge_visible(self.view_state(), id.spec_id()),
            r is Some ==> edge_record_ok(self.view_state(), id.spec_id(), r),
    {
        match self.state.edge_record(id) {
            Some(e) => if e.visible { Some(e) } else { None },
            None => None,
        }
    }

    /// The records of every created node, ascending by identity.
    pub fn node_records(&self) -> (r: Vec<GraphNode>)
        requires
            self.wf(),
        ensures
            forall|i: int| 0 <= i < r@.len() ==> node_record_ok(self.view_state(), (#[trigger] r@[i]).id.spec_id(), Some(r@[i])),
            forall|n: ID| self.view_state().nodes.contains_key(n) <==> exists|i: int| 0 <= i < r@.len() && (#[trigger] r@[i]).id.spec_id() == n,
            sorted_ids(crate::state::node_record_ids(r@)),
    {
        self.state.all_nodes()
    }

    /// The records of every created edge, ascending by identity.
    pub fn edge_records(&self) -> (r: Vec<GraphEdge>)
        requires
            self.wf(),
        ensures
            forall|i: int| 0 <= i < r@.len() ==> edge_record_ok(self.view_state(), (#[trigger] r@[i]).id.spec_id(), Some(r@[i])),
            forall|e: ID| self.view_state().edges.contains_key(e) <==> exists|i: int| 0 <= i < r@.len() && (#[trigger] r@[i]).id.spec_id() == e,
            sorted_ids(crate::state::edge_record_ids(r@)),
    {
        self.state.all_edges()
    }

    /// Visible edges that end at `id`, ascending.
    pub fn incoming_edges(&self, id: GraphNodeId) -> (r: Result<Vec<GraphEdgeId>, GraphError>)
        requires
            self.wf(),
        ensures
            !self.view_state().nodes.contains_key(id.spec_id()) <==> r == Err::<Vec<GraphEdgeId>, GraphError>(GraphError::InvalidReference),
            r matches Ok(v) ==> sorted_ids(edge_ids(v@)) && forall|e: ID| #[trigger] edge_ids(v@).contains(e) <==> adjacent_to(self.view_state(), id.spec_id(), true, e),
    {
        self.state.adjacent(id, true)
    }

    /// Visible edges that start at `id`, ascending.
    pub fn outgoing_edges(&self, id: GraphNodeId) -> (r: Result<Vec<GraphEdgeId>, GraphError>)
        requires
            self.wf(),
        ensures
            !self.view_state().nodes.contains_key(id.spec_id()) <==> r == Err::<Vec<GraphEdgeId>, GraphError>(GraphError::InvalidReference),
            r matches Ok(v) ==> sorted_ids(edge_ids(v@)) && forall|e: ID| #[trigger] edge_ids(v@).contains(e) <==> adjacent_to(self.view_state(), id.spec_id(), false, e),
    {
        self.state.adjacent(id, false)
    }

    /// Sources of the visible edges into `id`, each once, ascending.
    pub fn predecessors(&self, id: GraphNodeId) -> (r: Result<Vec<GraphNodeId>, GraphError>)
        requires
            self.wf(),
        ensures
            !self.view_state().nodes.contains_key(id.spec_id()) <==> r == Err::<Vec<GraphNodeId>, GraphError>(GraphError::InvalidReference),
            r matches Ok(v) ==> sorted_ids(node_ids(v@)) && forall|m: ID| #[trigger] node_ids(v@).contains(m) <==> neighbor(self.view_state(), id.spec_id(), true, m),
    {
        self.neighbors(id, true)
    }

    /// Targets of the visible edges out of `id`, each once, ascending.
    pub fn successors(&self, id: GraphNodeId) -> (r: Result<Vec<GraphNodeId>, GraphError>)
        requires
            self.wf(),
        ensures
            !self.view_state().nodes.contains_key(id.spec_id()) <==> r == Err::<Vec<GraphNodeId>, GraphError>(GraphError::InvalidReference),
            r matches Ok(v) ==> sorted_ids(node_ids(v@)) && forall|m: ID| #[trigger] node_ids(v@).contains(m) <==> neighbor(self.view_state(), id.spec_id(), false, m),
    {
        self.neighbors(id, false)
    }

    fn neighbors(&self, id: GraphNodeId, incoming: bool) -> (r: Result<Vec<GraphNodeId>, GraphError>)
        requires
            self.wf(),
        ensures
            !self.view_state().nodes.contains_key(id.spec_id()) <==> r == Err::<Vec<GraphNodeId>, GraphError>(GraphError::InvalidReference),
            r matches Ok(v) ==> sorted_ids(node_ids(v@)) && forall|m: ID| #[trigger] node_ids(v@).contains(m) <==> neighbor(self.view_state(), id.spec_id(), incoming, m),
    {
        let adj = match self.state.adjacent(id, incoming) {
            Ok(v) => v,
            Err(e) => {
                return Err(e);
            },
        };
        let ghost g = self.view_state();
        let mut set: IdMap<()> = IdMap::new();
        let mut i: usize = 0;
        while i < adj.len()
            invariant
                self.wf(),
                g == self.view_state(),
                i <= adj@.len(),
                set.wf(),
                forall|e: ID| #[trigger] edge_ids(adj@).contains(e) <==> adjacent_to(g, id.spec_id(), incoming, e),
                forall|m: ID| #[trigger] set@.contains_key(m) <==> exists|j: int| 0 <= j < i && endpoint(g, adj@[j].spec_id(), incoming) == m,
            decreases adj@.len() - i,
        {
            let e = adj[i];
            proof { assert(edge_ids(adj@)[i as int] == e.spec_id()); assert(edge_ids(adj@).contains(e.spec_id())); }
            let rec = self.state.edge_record(e);
            let rec = match rec {
                Some(r) => r,
                None => {
                    proof { assert(false); }
                    return Err(GraphError::MissingObject);
                },
            };
            let m = if incoming { rec.source.id() } else { rec.target.id() };
            set.insert(m, ());
            proof {
                assert forall|x: ID| #[trigger] set@.contains_key(x) <==> exists|j: int| 0 <= j < i + 1 && endpoint(g, adj@[j].spec_id(), incoming) == x by {
                    if set@.contains_key(x) && x != m {
                        let j = choose|j: int| 0 <= j < i && endpoint(g, adj@[j].spec_id(), incoming) == x;
                        assert(0 <= j < i + 1);
                    }
                    if exists|j: int| 0 <= j < i + 1 && endpoint(g, adj@[j].spec_id(), incoming) == x {
                        let j = choose|j: int| 0 <= j < i + 1 && endpoint(g, adj@[j].spec_id(), incoming) == x;
                        if j < i {
                            assert(exists|j2: int| 0 <= j2 < i && endpoint(g, adj@[j2].spec_id(), incoming) == x);
                        }
                    }
                }
            }
            i += 1;
        }
        let keys = set.keys_vec();
        let out = nodes_of(&keys);
        proof {
            assert forall|m: ID| #[trigger] node_ids(out@).contains(m) <==> neighbor(g, id.spec_id(), incoming, m) by {
                assert(node_ids(out@) == keys@);
                if set@.contains_key(m) {
                    let j = choose|j: int| 0 <= j < adj@.len() && endpoint(g, adj@[j].spec_id(), incoming) == m;
                    assert(edge_ids(adj@)[j] == adj@[j].spec_id());
                    assert(edge_ids(adj@).contains(adj@[j].spec_id()));
                }
                if neighbor(g, id.spec_id(), incoming, m) {
                    let e = choose|e: ID| adjacent_to(g, id.spec_id(), incoming, e) && endpoint(g, e, incoming) == m;
                    assert(edge_ids(adj@).contains(e));
                    let j = choose|j: int| 0 <= j < edge_ids(adj@).len() && edge_ids(adj@)[j] == e;
                    assert(endpoint(g, adj@[j].spec_id(), incoming) == m);
                }
            }
        }
        Ok(out)
    }
}

impl GraphHandler {
    /// Breadth-first traversal along visible out-edges from a visible node,
    /// including the node itself, at most `max_depth` edges deep and at most
    /// `max_nodes` nodes long. Out-edges are followed in ascending identity order.
    pub fn traverse(&self, start: GraphNodeId, max_depth: usize, max_nodes: usize) -> (r: Result<Vec<GraphNodeId>, GraphError>)
        requires
            self.wf(),
        ensures
            !node_alive(self.view_state(), start.spec_id()) <==> r == Err::<Vec<GraphNodeId>, GraphError>(GraphError::MissingObject),
            r is Err ==> !node_alive(self.view_state(), start.spec_id()),
            r matches Ok(v) ==> {
                &&& v@.len() <= max_nodes
                &&& max_nodes > 0 ==> v@.len() >= 1 && v@[0] == start
                &&& node_ids(v@).no_duplicates()
                &&& forall|i: int| 0 <= i < v@.len() ==> node_alive(self.view_state(), (#[trigger] v@[i]).spec_id())
                    && reach_within(self.view_state(), start.spec_id(), v@[i].spec_id(), max_depth as int)
                &&& v@.len() < max_nodes ==> forall|m: ID| #[trigger] reach_within(self.view_state(), start.spec_id(), m, max_depth as int)
                    ==> node_ids(v@).contains(m)
                // breadth-first: a node listed earlier is no farther from the start
                &&& forall|i: int, j: int, d: int|
                    0 <= i < j < v@.len() && #[trigger] reach_within(self.view_state(), start.spec_id(), v@[j].spec_id(), d) ==> reach_within(
                        self.view_state(),
                        start.spec_id(),
                        (#[trigger] v@[i]).spec_id(),
                        d,
                    )
            },
    {
        if !self.state.node_is_alive(start.id()) {
            return Err(GraphError::MissingObject);
        }
        let ghost g = self.view_state();
        let mut seen: IdMap<()> = IdMap::new();
        let mut queue: Vec<(GraphNodeId, usize)> = Vec::new();
        queue.push((start, 0));
        let ghost mut paths: Seq<Seq<ID>> = seq![seq![start.spec_id()]];
        let mut head: usize = 0;
        let mut result: Vec<GraphNodeId> = Vec::new();
        let ghost mut rd: Seq<int> = Seq::empty();
        proof {
            assert(walk(g, seq![start.spec_id()]));
        }
        while head < queue.len() && result.len() < max_nodes
            invariant
                self.wf(),
                g == self.view_state(),
                node_alive(g, start.spec_id()),
                head <= queue@.len(),
                paths.len() == queue@.len(),
                queue@.len() >= 1,
                queue@[0] == (start, 0usize),
                head == 0 ==> queue@.len() == 1,
                queue_ok(g, start.spec_id(), paths, queue@, max_depth),
                result@.len() <= max_nodes,
                head == 0 ==> result@.len() == 0,
                head > 0 && max_nodes > 0 ==> result@.len() >= 1 && result@[0] == start,
                forall|i: int| 0 <= i < result@.len() ==> node_alive(g, (#[trigger] result@[i]).spec_id())
                    && reach_within(g, start.spec_id(), result@[i].spec_id(), max_depth as int),
                seen.wf(),
                forall|m: ID| #[trigger] seen@.contains_key(m) <==> node_ids(result@).contains(m),
                forall|m: ID| #[trigger] seen@.contains_key(m) <==> exists|j: int| 0 <= j < head && (#[trigger] queue@[j]).0.spec_id() == m,
                node_ids(result@).no_duplicates(),
                depths_sorted(queue@),
                head > 0 ==> forall|k: int| 0 <= k < queue@.len() ==> (#[trigger] queue@[k]).1 <= queue@[head - 1].1 + 1,
                forall|f: int| 0 <= f < head && #[trigger] first_at(queue@, f) && queue@[f].1 < max_depth ==> expanded(g, queue@, f),
                rd.len() == result@.len(),
                forall|i: int| 0 <= i < rd.len() ==> reach_within(g, start.spec_id(), (#[trigger] result@[i]).spec_id(), rd[i]),
                forall|i: int| 0 <= i < rd.len() ==> #[trigger] no_shorter(g, start.spec_id(), result@[i].spec_id(), rd[i]),
                forall|i: int, j: int| 0 <= i < j < rd.len() ==> #[trigger] rd[i] <= #[trigger] rd[j],
                head > 0 ==> forall|i: int| 0 <= i < rd.len() ==> #[trigger] rd[i] <= queue@[head - 1].1,
            decreases max_nodes - result@.len(), queue@.len() - head,
        {
            let (n, d) = queue[head];
            let ghost pn = paths[head as int];
            let ghost h0 = head;
            head += 1;
            proof {
                if h0 > 0 {
                    assert forall|k: int| 0 <= k < queue@.len() implies (#[trigger] queue@[k]).1 <= queue@[head - 1].1 + 1 by {
                        assert(queue@[h0 - 1].1 <= queue@[h0 as int].1);
                        assert(queue@[k].1 <= queue@[h0 - 1].1 + 1);
                    }
                } else {
                    assert forall|k: int| 0 <= k < queue@.len() implies (#[trigger] queue@[k]).1 <= queue@[head - 1].1 + 1 by {
                        assert(k == 0);
                    }
                }
            }
            if seen.contains_key(n.id()) {
                proof {
                    let j = choose|j: int| 0 <= j < h0 && (#[trigger] queue@[j]).0.spec_id() == n.spec_id();
                    assert(queue@[j].0 == n);
                    assert(!first_at(queue@, h0 as int));
                    assert forall|m: ID| #[trigger] seen@.contains_key(m) <==> exists|j: int|
                        0 <= j < head && (#[trigger] queue@[j]).0.spec_id() == m by {
                        if seen@.contains_key(m) {
                            let j = choose|j: int| 0 <= j < h0 && (#[trigger] queue@[j]).0.spec_id() == m;
                        }
                        if exists|j: int| 0 <= j < head && (#[trigger] queue@[j]).0.spec_id() == m {
                            let j = choose|j: int| 0 <= j < head && (#[trigger] queue@[j]).0.spec_id() == m;
                            if j == h0 {
                                assert(m == n.spec_id());
                            }
                        }
                    }
                }
                continue;
            }
            let ghost s0 = seen@;
            seen.insert(n.id(), ());
            let ghost r0 = result@;
            result.push(n);
            proof {
                let rd0 = rd;
                assert(queue@[h0 as int] == (n, d));
                assert(path_ok(g, start.spec_id(), pn, n.spec_id(), d as int));
                assert forall|p: Seq<ID>| #[trigger] walk(g, p) && p.len() > 0 && p[0] == start.spec_id() && p.last() == n.spec_id()
                    implies p.len() >= d + 1 by {
                    if p.len() < d + 1 {
                        let q = queue@;
                        assert forall|f: int| 0 <= f < q.len() && #[trigger] first_at(q, f) && q[f].1 < d implies expanded(g, q, f) by {
                            if f >= h0 {
                                assert(q[h0 as int].1 <= q[f].1);
                            }
                        }
                        lemma_bfs_prefix(g, q, p, d as int, p.len() - 1);
                        let j = choose|j: int| 0 <= j < q.len() && (#[trigger] q[j]).0.spec_id() == p[p.len() - 1] && q[j].1 <= p.len() - 1;
                        if j >= h0 {
                            assert(q[h0 as int].1 <= q[j].1);
                        }
                        assert(s0.contains_key(n.spec_id()));
                    }
                }
                assert(no_shorter(g, start.spec_id(), n.spec_id(), d as int));
                assert(reach_within(g, start.spec_id(), n.spec_id(), d as int)) by {
                    assert(walk(g, pn) && pn[0] == start.spec_id() && pn.last() == n.spec_id());
                }
                rd = rd.push(d as int);
                assert forall|i: int| 0 <= i < rd.len() implies reach_within(g, start.spec_id(), (#[trigger] result@[i]).spec_id(), rd[i]) by {
                    if i < rd0.len() {
                        assert(result@[i] == r0[i]);
                    }
                }
                assert forall|i: int| 0 <= i < rd.len() implies #[trigger] no_shorter(g, start.spec_id(), result@[i].spec_id(), rd[i]) by {
                    if i < rd0.len() {
                        assert(result@[i] == r0[i]);
                    }
                }
                assert forall|i: int| 0 <= i < rd.len() implies #[trigger] rd[i] <= queue@[head - 1].1 by {
                    if i < rd0.len() {
                        assert(rd0[i] <= queue@[h0 - 1].1);
                        assert(queue@[h0 - 1].1 <= queue@[h0 as int].1);
                    }
                }
                assert forall|i: int, j: int| 0 <= i < j < rd.len() implies #[trigger] rd[i] <= #[trigger] rd[j] by {
                    if j == rd0.len() {
                        assert(rd0[i] <= queue@[h0 - 1].1);
                        assert(queue@[h0 - 1].1 <= queue@[h0 as int].1);
                    }
                }
            }
            proof {
                assert(result@ == r0.push(n));
                assert(node_ids(result@) =~= node_ids(r0).push(n.spec_id()));
                assert(!node_ids(r0).contains(n.spec_id()));
                assert forall|i: int, j: int| 0 <= i < j < node_ids(result@).len() implies node_ids(result@)[i] != node_ids(result@)[j] by {
                    if j == node_ids(result@).len() - 1 {
                        assert(node_ids(r0).contains(node_ids(result@)[i]));
                    }
                }
                assert forall|m: ID| #[trigger] seen@.contains_key(m) <==> node_ids(result@).contains(m) by {
                    assert(seen@.contains_key(m) <==> (m == n.spec_id() || s0.contains_key(m)));
                    assert(s0.contains_key(m) <==> node_ids(r0).contains(m));
                    assert(node_ids(result@)[node_ids(r0).len() as int] == n.spec_id());
                    if node_ids(result@).contains(m) && m != n.spec_id() {
                        let i = choose|i: int| 0 <= i < node_ids(result@).len() && node_ids(result@)[i] == m;
                        assert(node_ids(r0)[i] == m);
                    }
                    if node_ids(r0).contains(m) {
                        let i = choose|i: int| 0 <= i < node_ids(r0).len() && node_ids(r0)[i] == m;
                        assert(node_ids(result@)[i] == m);
                    }
                }
                assert forall|m: ID| #[trigger] seen@.contains_key(m) <==> exists|j: int|
                    0 <= j < head && (#[trigger] queue@[j]).0.spec_id() == m by {
                    assert(seen@.contains_key(m) <==> (m == n.spec_id() || s0.contains_key(m)));
                    if s0.contains_key(m) {
                        let j = choose|j: int| 0 <= j < h0 && (#[trigger] queue@[j]).0.spec_id() == m;
                    }
                    if m == n.spec_id() {
                        assert(queue@[h0 as int].0.spec_id() == m);
                    }
                    if exists|j: int| 0 <= j < head && (#[trigger] queue@[j]).0.spec_id() == m {
                        let j = choose|j: int| 0 <= j < head && (#[trigger] queue@[j]).0.spec_id() == m;
                        if j < h0 {
                            assert(s0.contains_key(m));
                        }
                    }
                }
                assert(path_ok(g, start.spec_id(), pn, n.spec_id(), d as int));
                assert(reach_within(g, start.spec_id(), n.spec_id(), max_depth as int));
                if r0.len() == 0 {
                    assert(head - 1 == 0);
                }
            }
            if d < max_depth {
                let out = match self.state.adjacent(n, false) {
                    Ok(v) => v,
                    Err(e) => {
                        proof {
                            assert(path_ok(g, start.spec_id(), paths[head - 1], queue@[head - 1].0.spec_id(), queue@[head - 1].1 as int));
                            assert(node_alive(g, n.spec_id()));
                        }
                        return Err(e);
                    },
                };
                let ghost qb = queue@;
                let mut j: usize = 0;
                while j < out.len()
                    invariant
                        self.wf(),
                        g == self.view_state(),
                        node_alive(g, start.spec_id()),
                        head <= qb.len(),
                        head >= 1,
                        queue@.len() >= qb.len(),
                        forall|k: int| 0 <= k < qb.len() ==> queue@[k] == qb[k],
                        qb[head - 1] == (n, d),
                        paths.len() == queue@.len(),
                        queue@.len() >= 1,
                        queue@[0] == (start, 0usize),
                        queue_ok(g, start.spec_id(), paths, queue@, max_depth),
                        path_ok(g, start.spec_id(), pn, n.spec_id(), d as int),
                        d < max_depth,
                        j <= out@.len(),
                        forall|e: ID| #[trigger] edge_ids(out@).contains(e) <==> adjacent_to(g, n.spec_id(), false, e),
                        seen.wf(),
                        forall|m: ID| #[trigger] seen@.contains_key(m) <==> exists|i: int| 0 <= i < head && (#[trigger] qb[i]).0.spec_id() == m,
                        depths_sorted(queue@),
                        forall|k: int| 0 <= k < queue@.len() ==> (#[trigger] queue@[k]).1 <= d + 1,
                        forall|jj: int| 0 <= jj < j ==> exists|k: int|
                            0 <= k < queue@.len() && (#[trigger] queue@[k]).0.spec_id() == g.edges[(#[trigger] out@[jj]).spec_id()].target
                                && queue@[k].1 <= d + 1,
                    decreases out@.len() - j,
                {
                    let e = out[j];
                    proof { assert(edge_ids(out@)[j as int] == e.spec_id()); assert(edge_ids(out@).contains(e.spec_id())); }
                    let rec = match self.state.edge_record(e) {
                        Some(x) => x,
                        None => {
                            proof { assert(false); }
                            return Err(GraphError::MissingObject);
                        },
                    };
                    let t = rec.target;
                    let ghost q1 = queue@;
                    if !seen.contains_key(t.id()) {
                        let ghost q0 = queue@;
                        let ghost p0 = paths;
                        queue.push((t, d + 1));
                        proof {
                            let pt = pn.push(t.spec_id());
                            assert(neighbor(g, n.spec_id(), false, t.spec_id())) by {
                                assert(adjacent_to(g, n.spec_id(), false, e.spec_id()) && endpoint(g, e.spec_id(), false) == t.spec_id());
                            }
                            assert forall|i: int| 0 <= i < pt.len() - 1 implies #[trigger] neighbor(g, pt[i], false, pt[i + 1]) by {
                                if i < pn.len() - 1 {
                                    assert(pt[i] == pn[i] && pt[i + 1] == pn[i + 1]);
                                } else {
                                    assert(pt[i] == n.spec_id());
                                }
                            }
                            paths = paths.push(pt);
                            assert(path_ok(g, start.spec_id(), paths[queue@.len() - 1], t.spec_id(), (d + 1) as int));
                            assert forall|k: int| 0 <= k < queue@.len() implies path_ok(g, start.spec_id(), #[trigger] paths[k], queue@[k].0.spec_id(), queue@[k].1 as int)
                                && queue@[k].1 <= max_depth && node_alive(g, queue@[k].0.spec_id()) by {
                                assert(queue_ok(g, start.spec_id(), p0, q0, max_depth));
                                if k < q0.len() {
                                    assert(paths[k] == p0[k]);
                                    assert(queue@[k] == q0[k]);
                                }
                            }
                            assert forall|a: int, b: int| 0 <= a < b < queue@.len() implies (#[trigger] queue@[a]).1 <= (#[trigger] queue@[b]).1 by {
                                if b < q0.len() {
                                    assert(queue@[a] == q0[a] && queue@[b] == q0[b]);
                                } else {
                                    assert(queue@[a] == q0[a]);
                                }
                            }
                            assert forall|k: int| 0 <= k < queue@.len() implies (#[trigger] queue@[k]).1 <= d + 1 by {
                                if k < q0.len() {
                                    assert(queue@[k] == q0[k]);
                                }
                            }
                        }
                    } else {
                        proof {
                            let i = choose|i: int| 0 <= i < head && (#[trigger] qb[i]).0.spec_id() == t.spec_id();
                            assert(queue@[i] == qb[i]);
                            assert(queue@[head - 1] == qb[head - 1]);
                            if i < head - 1 {
                                assert(queue@[i].1 <= queue@[head - 1].1);
                            }
                        }
                    }
                    proof {
                        assert(g.edges[e.spec_id()].target == t.spec_id());
                        assert forall|jj: int| 0 <= jj < j + 1 implies exists|k: int|
                            0 <= k < queue@.len() && (#[trigger] queue@[k]).0.spec_id() == g.edges[(#[trigger] out@[jj]).spec_id()].target
                                && queue@[k].1 <= d + 1 by {
                            if jj < j {
                                let k = choose|k: int|
                                    0 <= k < q1.len() && (#[trigger] q1[k]).0.spec_id() == g.edges[out@[jj].spec_id()].target && q1[k].1 <= d + 1;
                                assert(queue@[k] == q1[k]);
                            } else {
                                if queue@.len() > q1.len() {
                                    assert(queue@[q1.len() as int] == (t, (d + 1) as usize));
                                } else {
                                    let i = choose|i: int| 0 <= i < head && (#[trigger] qb[i]).0.spec_id() == t.spec_id();
                                    assert(queue@[i] == qb[i]);
                                }
                            }
                        }
                    }
                    j += 1;
                }
                proof {
                    let f = head - 1;
                    assert(queue@[f] == (n, d));
                    assert forall|y: ID| #[trigger] neighbor(g, queue@[f].0.spec_id(), false, y) implies exists|k: int|
                        0 <= k < queue@.len() && (#[trigger] queue@[k]).0.spec_id() == y && queue@[k].1 <= queue@[f].1 + 1 by {
                        let e = choose|e: ID| adjacent_to(g, n.spec_id(), false, e) && #[trigger] endpoint(g, e, false) == y;
                        assert(edge_ids(out@).contains(e));
                        let jj = choose|jj: int| 0 <= jj < edge_ids(out@).len() && edge_ids(out@)[jj] == e;
                        assert(out@[jj].spec_id() == e);
                        let k = choose|k: int|
                            0 <= k < queue@.len() && (#[trigger] queue@[k]).0.spec_id() == g.edges[out@[jj].spec_id()].target && queue@[k].1 <= d + 1;
                    }
                    assert(expanded(g, queue@, f));
                    assert forall|f2: int| 0 <= f2 < head && #[trigger] first_at(queue@, f2) && queue@[f2].1 < max_depth implies expanded(g, queue@, f2) by {
                        if f2 < f {
                            assert forall|f3: int| 0 <= f3 < f2 implies (#[trigger] qb[f3]).0 != qb[f2].0 by {
                                assert(queue@[f3] == qb[f3] && queue@[f2] == qb[f2]);
                                assert(queue@[f3].0 != queue@[f2].0);
                            }
                            assert(first_at(qb, f2));
                            lemma_expanded_grow(g, qb, queue@, f2);
                        }
                    }
                    assert forall|m: ID| #[trigger] seen@.contains_key(m) <==> exists|i: int| 0 <= i < head && (#[trigger] queue@[i]).0.spec_id() == m by {
                        if seen@.contains_key(m) {
                            let i = choose|i: int| 0 <= i < head && (#[trigger] qb[i]).0.spec_id() == m;
                            assert(queue@[i] == qb[i]);
                        }
                        if exists|i: int| 0 <= i < head && (#[trigger] queue@[i]).0.spec_id() == m {
                            let i = choose|i: int| 0 <= i < head && (#[trigger] queue@[i]).0.spec_id() == m;
                            assert(queue@[i] == qb[i]);
                        }
                    }
                    assert forall|k: int| 0 <= k < queue@.len() implies (#[trigger] queue@[k]).1 <= queue@[head - 1].1 + 1 by {
                        assert(queue@[head - 1].1 == d);
                    }
                }
            }
        }
        proof {
            if max_nodes > 0 && head == 0 {
                assert(false);
            }
            if result@.len() < max_nodes {
                assert(head == queue@.len());
                assert forall|m: ID| #[trigger] reach_within(g, start.spec_id(), m, max_depth as int) implies node_ids(result@).contains(m) by {
                    let p = choose|p: Seq<ID>| #[trigger] walk(g, p) && p[0] == start.spec_id() && p.last() == m && p.len() <= max_depth + 1;
                    lemma_bfs_complete(g, queue@, p, max_depth, p.len() - 1);
                    let j = choose|j: int| 0 <= j < queue@.len() && (#[trigger] queue@[j]).0.spec_id() == p[p.len() - 1] && queue@[j].1 <= p.len() - 1;
                    assert(seen@.contains_key(m));
                }
            }
            assert forall|i: int, j: int, dd: int|
                0 <= i < j < result@.len() && #[trigger] reach_within(g, start.spec_id(), result@[j].spec_id(), dd) implies reach_within(
                    g,
                    start.spec_id(),
                    (#[trigger] result@[i]).spec_id(),
                    dd,
                ) by {
                let p = choose|p: Seq<ID>| #[trigger] walk(g, p) && p[0] == start.spec_id() && p.last() == result@[j].spec_id() && p.len() <= dd + 1;
                assert(no_shorter(g, start.spec_id(), result@[j].spec_id(), rd[j]));
                assert(p.len() >= rd[j] + 1);
                assert(rd[i] <= rd[j]);
                assert(reach_within(g, start.spec_id(), result@[i].spec_id(), rd[i]));
                let p2 = choose|p2: Seq<ID>| #[trigger] walk(g, p2) && p2[0] == start.spec_id() && p2.last() == result@[i].spec_id() && p2.len() <= rd[i] + 1;
                assert(walk(g, p2) && p2[0] == start.spec_id() && p2.last() == result@[i].spec_id() && p2.len() <= dd + 1);
            }
        }
        Ok(result)
    }
}

/// Every edge's endpoints are recorded nodes.
pub open spec fn endpoints_recorded(g: GraphView) -> bool {
    forall|e: ID|
        #[trigger] g.edges.contains_key(e) ==> g.nodes.contains_key(g.edges[e].source) && g.nodes.contains_key(
            g.edges[e].target,
        )
}

/// A map sends distinct keys to distinct values.
pub open spec fn injective(m: Map<ID, ID>) -> bool {
    forall|a: ID, b: ID| m.contains_key(a) && m.contains_key(b) && a != b ==> #[trigger] m[a] != #[trigger] m[b]
}

/// `x` is the copy of some key of `m`.
pub open spec fn copy_of(m: Map<ID, ID>, x: ID) -> bool {
    exists|k: ID| #[trigger] m.contains_key(k) && m[k] == x
}

/// A lifecycle with no delete and no restore.
pub open spec fn untouched(l: LifeView) -> bool {
    l.deletes == Map::<ID, u32>::empty() && l.restores == Map::<ID, (u32, Seq<ID>)>::empty()
}

/// The copy of edge `e` of `g` in `h` under `edges`, with its endpoints
/// copied under `nodes`: same lifecycle state and the same order key.
pub open spec fn edge_copied(g: GraphView, h: GraphView, nodes: Map<ID, ID>, edges: Map<ID, ID>, e: ID) -> bool {
    let x = edges[e];
    &&& h.edges.contains_key(x)
    &&& h.edges[x].source == nodes[g.edges[e].source]
    &&& h.edges[x].target == nodes[g.edges[e].target]
    &&& life_alive(h.edges[x].life) == life_alive(g.edges[e].life)
    &&& winner_value(h.edges[x].orders).0 == winner_value(g.edges[e].orders).0
}

/// `h` is a copy of `g` under new identities: `nodes` and `edges` send every
/// node and edge of `g` to a distinct one of `h`, which holds nothing else;
/// every copy keeps whether it is alive, and every edge its endpoints (as
/// copied) and its winning order key.
pub open spec fn copied(g: GraphView, h: GraphView, nodes: Map<ID, ID>, edges: Map<ID, ID>) -> bool {
    &&& nodes.dom() == g.nodes.dom()
    &&& edges.dom() == g.edges.dom()
    &&& injective(nodes)
    &&& injective(edges)
    &&& forall|x: ID| #[trigger] h.nodes.contains_key(x) <==> copy_of(nodes, x)
    &&& forall|x: ID| #[trigger] h.edges.contains_key(x) <==> copy_of(edges, x)
    &&& forall|n: ID|
        #[trigger] nodes.contains_key(n) ==> h.nodes.contains_key(nodes[n]) && life_alive(h.nodes[nodes[n]])
            == life_alive(g.nodes[n])
    &&& forall|e: ID| #[trigger] edges.contains_key(e) ==> edge_copied(g, h, nodes, edges, e)
}

/// A change that passes validation on its own adds no record but its creation's.
pub proof fn lemma_step_keys(g: GraphView, c: GraphChange)
    requires
        validation_result(g, seq![c]) is Ok,
        c.forward,
    ensures
        forall|x: ID| #[trigger] spec_step(g, c).nodes.contains_key(x) ==> g.nodes.contains_key(x) || (c.op is CreateNode && x == c.id),
        forall|x: ID| #[trigger] spec_step(g, c).edges.contains_key(x) ==> g.edges.contains_key(x) || (c.op is CreateEdge && x == c.id),
{
    assert(seq![c].drop_last() =~= Seq::<GraphChange>::empty());
    assert(seq![c].last() == c);
    let v = crate::state::validate_fold(g, seq![c]);
    assert(v == crate::state::validate_step(g, crate::state::validate_fold(g, Seq::<GraphChange>::empty()), c));
}

/// A creation by the next identity of a handler passes validation.
pub proof fn lemma_fresh_creation_valid(g: GraphView, c: GraphChange)
    requires
        c.forward,
        c.id.counter >= 0,
        !g.nodes.contains_key(c.id),
        !g.edges.contains_key(c.id),
        c.op matches GraphOp::CreateNode { id } && id.spec_id() == c.id,
    ensures
        validation_result(g, seq![c]) is Ok,
{
    assert(seq![c].drop_last() =~= Seq::<GraphChange>::empty());
    assert(seq![c].last() == c);
    let v0 = crate::state::validate_fold(g, Seq::<GraphChange>::empty());
    assert(v0.err is None && v0.nodes == Set::<ID>::empty() && v0.edges == Set::<ID>::empty());
    assert(op_valid(c.op, c.id));
    let v = crate::state::validate_fold(g, seq![c]);
    assert(v == crate::state::validate_step(g, v0, c));
    assert(v.err is None);
}

/// An edge creation by the next identity of a handler between recorded nodes passes validation.
pub proof fn lemma_fresh_edge_valid(g: GraphView, c: GraphChange)
    requires
        c.forward,
        c.id.counter >= 0,
        !g.nodes.contains_key(c.id),
        !g.edges.contains_key(c.id),
        c.op matches GraphOp::CreateEdge { id, source, target, .. } && id.spec_id() == c.id && g.nodes.contains_key(source.spec_id())
            && g.nodes.contains_key(target.spec_id()) && source.counter >= 0 && target.counter >= 0,
    ensures
        validation_result(g, seq![c]) is Ok,
{
    assert(seq![c].drop_last() =~= Seq::<GraphChange>::empty());
    assert(seq![c].last() == c);
    let v0 = crate::state::validate_fold(g, Seq::<GraphChange>::empty());
    assert(v0.err is None && v0.nodes == Set::<ID>::empty() && v0.edges == Set::<ID>::empty());
    assert(op_valid(c.op, c.id));
    let v = crate::state::validate_fold(g, seq![c]);
    assert(v == crate::state::validate_step(g, v0, c));
    assert(v.err is None);
}

/// A validated local change keeps every edge's endpoints recorded.
pub proof fn lemma_step_keeps_endpoints(g: GraphView, c: GraphChange)
    requires
        c.forward,
        validation_result(g, seq![c]) is Ok,
        endpoints_recorded(g),
    ensures
        endpoints_recorded(spec_step(g, c)),
{
    assert(seq![c].drop_last() =~= Seq::<GraphChange>::empty());
    assert(seq![c].last() == c);
    let v0 = crate::state::validate_fold(g, Seq::<GraphChange>::empty());
    assert(v0.err is None && v0.nodes == Set::<ID>::empty() && v0.edges == Set::<ID>::empty());
    let v = crate::state::validate_fold(g, seq![c]);
    assert(v == crate::state::validate_step(g, v0, c));
    assert(v.err is None);
    let h = spec_step(g, c);
    assert forall|e: ID| #[trigger] h.edges.contains_key(e) implies h.nodes.contains_key(h.edges[e].source) && h.nodes.contains_key(h.edges[e].target) by {
        match c.op {
            GraphOp::CreateEdge { id, source, target, .. } => {
                if e != id.spec_id() {
                    assert(g.edges.contains_key(e));
                }
            },
            _ => {
                assert(g.edges.contains_key(e));
            },
        }
    }
}

/// A forward creation of the diff creates `x`.
pub open spec fn diff_creates(ops: Seq<GraphChange>, x: ID) -> bool {
    exists|j: int|
        0 <= j < ops.len() && (#[trigger] ops[j]).forward && (ops[j].op is CreateNode || ops[j].op is CreateEdge)
            && op_object(ops[j].op) == x
}

impl GraphHandler {
    /// Apply a diff from history (an undo, or the changes of another graph) as
    /// fresh local operations. Its net effect is planned first against this
    /// graph, through `remap` (the diff's identities to this graph's, followed to
    /// the end of each chain); nothing is written unless planning succeeds.
    /// Then creations are written with new identities, each recorded in
    /// `remap`, and every other planned operation is written for the object
    /// that `remap` names.
    pub fn apply_delta(&mut self, diff: &GraphDiff, remap: &mut IdMap<ID>) -> (r: Result<(), GraphError>)
        requires
            old(self).wf(),
            diff.wf(),
            old(remap).wf(),
        ensures
            final(self).wf(),
            final(remap).wf(),
            final(self).spec_graph() == old(self).spec_graph(),
            final(self).spec_attached() == old(self).spec_attached(),
            final(self).jitter() == old(self).jitter(),
            r is Ok ==> forall|i: int| 0 <= i < diff.ops@.len() ==> op_valid((#[trigger] diff.ops@[i]).op, diff.ops@[i].id),
            forall|x: ID| #[trigger] old(remap)@.contains_key(x) ==> final(remap)@.contains_key(x),
            forall|x: ID|
                #[trigger] final(remap)@.contains_key(x) && !old(remap)@.contains_key(x) ==> diff_creates(diff.ops@, x)
                    && final(remap)@[x].peer == old(self).next_id().peer && old(self).next_id().counter
                    <= final(remap)@[x].counter < final(self).next_id().counter,
            final(self).next_id().peer == old(self).next_id().peer,
            old(self).next_id().counter <= final(self).next_id().counter,
            // an invalid operation is refused before anything is written
            (exists|i: int| 0 <= i < diff.ops@.len() && !op_valid((#[trigger] diff.ops@[i]).op, diff.ops@[i].id))
                ==> r == Err::<(), GraphError>(GraphError::InvalidOperation) && *final(self) == *old(self) && final(remap)@ == old(remap)@,
            // an empty diff writes nothing
            diff.ops@.len() == 0 && diff.orders@.dom().is_empty() ==> r is Ok && *final(self) == *old(self) && final(remap)@ == old(remap)@,
            // success writes the rebased plan as fresh local changes, one per planned
            // operation: each grounded in the diff, and every due key move among them
            r is Ok ==> exists|cs: Seq<GraphChange>| #[trigger] written_from(old(self).next_id(), old(self).next_lamport(), cs)
                && final(self).view_state() == crate::state::run(old(self).view_state(), cs)
                && final(self).next_id().counter == old(self).next_id().counter + cs.len()
                && (forall|k: int| #![trigger cs[k]] 0 <= k < cs.len() ==> exists|op: GraphOp|
                    planned_from(old(self).view_state(), resolved_map(old(remap)@, old(remap).entries@.len() as nat), *diff, op)
                    && #[trigger] localizes(op, cs[k].op))
                && (creates_no_edge(diff.ops@) ==> forall|kk: ID|
                    #[trigger] order_write_due(old(self).view_state(), resolved_map(old(remap)@, old(remap).entries@.len() as nat), *diff, kk)
                    ==> exists|k: int| 0 <= k < cs.len() && ((#[trigger] cs[k]).op matches GraphOp::SetEdgeOrder { position, .. }
                        && position@ == diff.orders@[kk].after->0.position@)),
    {
        let resolved = resolve_remap(remap);
        let plan = match self.state.local_diff_ops(diff, &resolved) {
            Ok(p) => p,
            Err(e) => {
                return Err(e);
            },
        };
        let ghost g0 = self.view_state();
        let ghost start = self.next_id();
        let ghost lamport0 = self.next_lamport();
        let ghost remap0 = remap@;
        let ghost mut cs: Seq<GraphChange> = Seq::empty();
        let mut i: usize = 0;
        while i < plan.len()
            invariant
                cs.len() == i,
                written_from(start, lamport0, cs),
                self.view_state() == crate::state::run(g0, cs),
                self.next_id().counter == start.counter + i,
                self.next_lamport() == lamport0 + i,
                forall|k: int| 0 <= k < i ==> localizes(plan@[k], #[trigger] cs[k].op),
                self.wf(),
                remap.wf(),
                diff.wf(),
                self.spec_graph() == old(self).spec_graph(),
                self.spec_attached() == old(self).spec_attached(),
                self.jitter() == old(self).jitter(),
                start == old(self).next_id(),
                remap0 == old(remap)@,
                i == 0 ==> *self == *old(self) && remap@ == old(remap)@,
                forall|q: int| 0 <= q < diff.ops@.len() ==> op_valid((#[trigger] diff.ops@[q]).op, diff.ops@[q].id),
                diff.ops@.len() == 0 && diff.orders@.dom().is_empty() ==> plan@.len() == 0,
                self.next_id().peer == start.peer,
                start.counter <= self.next_id().counter,
                i <= plan@.len(),
                forall|q: int| 0 <= q < plan@.len() ==> planned_from(g0, resolved@, *diff, #[trigger] plan@[q]),
                forall|x: ID| #[trigger] remap0.contains_key(x) ==> remap@.contains_key(x),
                forall|x: ID|
                    #[trigger] remap@.contains_key(x) && !remap0.contains_key(x) ==> diff_creates(diff.ops@, x)
                        && remap@[x].peer == start.peer && start.counter <= remap@[x].counter < self.next_id().counter,
            decreases plan@.len() - i,
        {
            let ghost before = *self;
            let ghost m0 = remap@;
            let op = &plan[i];
            let created: Option<ID> = match op {
                GraphOp::CreateNode { .. } => Some(op.object()),
                GraphOp::CreateEdge { .. } => Some(op.object()),
                _ => None,
            };
            let next = GraphOp::duplicate(op);
            let local = match next {
                GraphOp::CreateNode { .. } => GraphOp::CreateNode { id: GraphNodeId::from_id(self.next) },
                GraphOp::CreateEdge { source, target, position, .. } => GraphOp::CreateEdge {
                    id: GraphEdgeId::from_id(self.next),
                    source: GraphNodeId::from_id(follow_remap(remap, source.id())),
                    target: GraphNodeId::from_id(follow_remap(remap, target.id())),
                    position,
                },
                GraphOp::DeleteNode { id } => GraphOp::DeleteNode { id: GraphNodeId::from_id(follow_remap(remap, id.id())) },
                GraphOp::DeleteEdge { id } => GraphOp::DeleteEdge { id: GraphEdgeId::from_id(follow_remap(remap, id.id())) },
                GraphOp::RestoreNode { id, deletes } => GraphOp::RestoreNode {
                    id: GraphNodeId::from_id(follow_remap(remap, id.id())),
                    deletes,
                },
                GraphOp::RestoreEdge { id, deletes } => GraphOp::RestoreEdge {
                    id: GraphEdgeId::from_id(follow_remap(remap, id.id())),
                    deletes,
                },
                GraphOp::SetEdgeOrder { id, position } => GraphOp::SetEdgeOrder {
                    id: GraphEdgeId::from_id(follow_remap(remap, id.id())),
                    position,
                },
            };
            let ghost c = self.change_of(local);
            proof {
                assert(localizes(plan@[i as int], local));
            }
            let written = match self.write(local) {
                Ok(w) => w,
                Err(e) => {
                    return Err(e);
                },
            };
            proof {
                let cs0 = cs;
                cs = cs.push(c);
                assert(cs.drop_last() =~= cs0);
                assert forall|k: int| 0 <= k < i + 1 implies localizes(plan@[k], #[trigger] cs[k].op) by {
                    if k < i {
                        assert(cs[k] == cs0[k]);
                    }
                }
                assert forall|k: int| 0 <= k < cs.len() implies (#[trigger] cs[k]).id == (ID { peer: start.peer, counter: (start.counter + k) as i32 })
                    && cs[k].lamport == lamport0 + k && cs[k].forward by {
                    if k < i {
                        assert(cs[k] == cs0[k]);
                    }
                }
            }
            match created {
                Some(x) => {
                    proof {
                        assert(planned_from(g0, resolved@, *diff, plan@[i as int]));
                        assert(created_by(diff.ops@, *op));
                        let j = choose|j: int| 0 <= j < diff.ops@.len() && (#[trigger] diff.ops@[j]).forward && recreates(diff.ops@[j].op, *op);
                        assert(diff_creates(diff.ops@, x));
                    }
                    remap.insert(x, written);
                },
                None => {},
            }
            proof {
                assert forall|x: ID|
                    #[trigger] remap@.contains_key(x) && !remap0.contains_key(x) implies diff_creates(diff.ops@, x)
                        && remap@[x].peer == start.peer && start.counter <= remap@[x].counter < self.next_id().counter by {
                    if m0.contains_key(x) && !(created matches Some(y) && y == x) {
                        assert(remap@[x] == m0[x]);
                    }
                }
            }
            i += 1;
        }
        proof {
            assert forall|k: int| #![trigger cs[k]] 0 <= k < cs.len() implies exists|op: GraphOp|
                planned_from(g0, resolved@, *diff, op) && #[trigger] localizes(op, cs[k].op) by {
                assert(planned_from(g0, resolved@, *diff, plan@[k]));
                assert(localizes(plan@[k], cs[k].op));
            }
            if creates_no_edge(diff.ops@) {
                assert forall|kk: ID| #[trigger] order_write_due(g0, resolved@, *diff, kk) implies exists|k: int| 0 <= k < cs.len()
                    && ((#[trigger] cs[k]).op matches GraphOp::SetEdgeOrder { position, .. } && position@ == diff.orders@[kk].after->0.position@) by {
                    let q = choose|q: int| 0 <= q < plan@.len() && (#[trigger] plan@[q] matches GraphOp::SetEdgeOrder { id, position }
                        && id.spec_id() == kk && position@ == diff.orders@[kk].after->0.position@);
                    assert(localizes(plan@[q], cs[q].op));
                }
            }
            assert(written_from(start, lamport0, cs));
        }
        Ok(())
    }
}

impl GraphHandler {
    /// Copy this graph into a fresh attached graph `graph` whose operations carry
    /// `peer`: every node is created, then every edge (at its winning order key,
    /// deleted again when its lifecycle is dead), then every dead node is
    /// deleted; each with a new identity.
    pub fn attach(&self, peer: u64, graph: ID) -> (r: Result<GraphHandler, GraphError>)
        requires
            self.wf(),
        ensures
            r matches Ok(t) ==> {
                &&& t.wf()
                &&& t.spec_attached()
                &&& t.spec_graph() == graph
                &&& t.next_id().peer == peer
                &&& exists|nodes: Map<ID, ID>, edges: Map<ID, ID>| #[trigger] copied(self.view_state(), t.view_state(), nodes, edges)
            },
            // each record costs at most two writes; with room for them the copy succeeds
            2 * (self.view_state().nodes.dom().len() + self.view_state().edges.dom().len()) < i32::MAX ==> r is Ok,
    {
        let ghost g = self.view_state();
        proof { self.lemma_endpoints(); }
        let mut t = GraphHandler::with_peer(peer, graph);
        let nrecs = self.node_records();
        let erecs = self.edge_records();
        let ghost fits = 2 * (g.nodes.dom().len() + g.edges.dom().len()) < i32::MAX;
        proof {
            crate::state::lemma_sorted_len(crate::state::node_record_ids(nrecs@));
            assert(crate::state::node_record_ids(nrecs@).to_set() =~= g.nodes.dom()) by {
                assert forall|x: ID| crate::state::node_record_ids(nrecs@).to_set().contains(x) <==> g.nodes.dom().contains(x) by {
                    if g.nodes.contains_key(x) {
                        let k = choose|k: int| 0 <= k < nrecs@.len() && (#[trigger] nrecs@[k]).id.spec_id() == x;
                        assert(crate::state::node_record_ids(nrecs@)[k] == x);
                    }
                    if crate::state::node_record_ids(nrecs@).to_set().contains(x) {
                        let k = choose|k: int| 0 <= k < crate::state::node_record_ids(nrecs@).len() && crate::state::node_record_ids(nrecs@)[k] == x;
                        assert(nrecs@[k].id.spec_id() == x);
                    }
                }
            }
            crate::state::lemma_sorted_len(crate::state::edge_record_ids(erecs@));
            assert(crate::state::edge_record_ids(erecs@).to_set() =~= g.edges.dom()) by {
                assert forall|x: ID| crate::state::edge_record_ids(erecs@).to_set().contains(x) <==> g.edges.dom().contains(x) by {
                    if g.edges.contains_key(x) {
                        let k = choose|k: int| 0 <= k < erecs@.len() && (#[trigger] erecs@[k]).id.spec_id() == x;
                        assert(crate::state::edge_record_ids(erecs@)[k] == x);
                    }
                    if crate::state::edge_record_ids(erecs@).to_set().contains(x) {
                        let k = choose|k: int| 0 <= k < crate::state::edge_record_ids(erecs@).len() && crate::state::edge_record_ids(erecs@)[k] == x;
                        assert(erecs@[k].id.spec_id() == x);
                    }
                }
            }
            assert(nrecs@.len() == g.nodes.dom().len());
            assert(erecs@.len() == g.edges.dom().len());
        }
        let mut remap: IdMap<ID> = IdMap::new();
        let mut i: usize = 0;
        while i < nrecs.len()
            invariant
                g == self.view_state(),
                t.wf(),
                t.spec_attached(),
                t.spec_graph() == graph,
                t.next_id().peer == peer,
                remap.wf(),
                i <= nrecs@.len(),
                forall|k: int| 0 <= k < nrecs@.len() ==> node_record_ok(g, (#[trigger] nrecs@[k]).id.spec_id(), Some(nrecs@[k])),
                crate::idmap::sorted_ids(crate::state::node_record_ids(nrecs@)),
                forall|n: ID| g.nodes.contains_key(n) <==> exists|k: int| 0 <= k < nrecs@.len() && (#[trigger] nrecs@[k]).id.spec_id() == n,
                forall|n: ID| #[trigger] remap@.contains_key(n) <==> exists|k: int| 0 <= k < i && (#[trigger] nrecs@[k]).id.spec_id() == n,
                injective(remap@),
                forall|x: ID| #[trigger] t.view_state().nodes.contains_key(x) <==> copy_of(remap@, x),
                forall|x: ID| #[trigger] t.view_state().nodes.contains_key(x) ==> x.peer == peer && x.counter < t.next_id().counter
                    && untouched(t.view_state().nodes[x]),
                t.view_state().edges == Map::<ID, crate::state::EdgeView>::empty(),
                t.next_id().counter == i && t.next_lamport() == i,
                fits == (2 * (nrecs@.len() + erecs@.len()) < i32::MAX),
                fits == (2 * (g.nodes.dom().len() + g.edges.dom().len()) < i32::MAX),
            decreases nrecs@.len() - i,
        {
            let ghost before = t;
            let ghost m0 = remap@;
            let n = match t.create_node() {
                Ok(n) => n,
                Err(e) => {
                    return Err(e);
                },
            };
            let key = nrecs[i].id.id();
            proof {
                if m0.contains_key(key) {
                    let k = choose|k: int| 0 <= k < i && (#[trigger] nrecs@[k]).id.spec_id() == key;
                    assert(crate::state::node_record_ids(nrecs@)[k] == key);
                    assert(crate::state::node_record_ids(nrecs@)[i as int] == key);
                    assert(id_lt(crate::state::node_record_ids(nrecs@)[k], crate::state::node_record_ids(nrecs@)[i as int]));
                }
            }
            remap.insert(key, n.id());
            proof {
                assert(!before.view_state().nodes.contains_key(n.spec_id()));
                assert forall|a: ID, b: ID| remap@.contains_key(a) && remap@.contains_key(b) && a != b implies #[trigger] remap@[a] != #[trigger] remap@[b] by {
                    if a == key {
                        assert(before.view_state().nodes.contains_key(m0[b]));
                    } else if b == key {
                        assert(before.view_state().nodes.contains_key(m0[a]));
                    }
                }
                assert forall|x: ID| #[trigger] t.view_state().nodes.contains_key(x) <==> copy_of(remap@, x) by {
                    if x == n.spec_id() {
                        assert(remap@.contains_key(key) && remap@[key] == x);
                    } else {
                        if copy_of(remap@, x) {
                            let k = choose|k: ID| #[trigger] remap@.contains_key(k) && remap@[k] == x;
                            assert(m0.contains_key(k) && m0[k] == x);
                        }
                        if before.view_state().nodes.contains_key(x) {
                            let k = choose|k: ID| #[trigger] m0.contains_key(k) && m0[k] == x;
                            assert(remap@.contains_key(k) && remap@[k] == x);
                        }
                    }
                }
                assert forall|q: ID| #[trigger] remap@.contains_key(q) <==> exists|k: int| 0 <= k < i + 1 && (#[trigger] nrecs@[k]).id.spec_id() == q by {
                    if q == key {
                        assert(nrecs@[i as int].id.spec_id() == q);
                    }
                }
            }
            i += 1;
        }
        proof {
            assert forall|n: ID| #[trigger] remap@.contains_key(n) <==> g.nodes.contains_key(n) by {
                if g.nodes.contains_key(n) {
                    let k = choose|k: int| 0 <= k < nrecs@.len() && (#[trigger] nrecs@[k]).id.spec_id() == n;
                }
            }
        }
        let ghost hn = t.view_state().nodes;
        proof {
            assert forall|x: ID| #[trigger] hn.contains_key(x) implies untouched(hn[x]) by {}
        }
        let ghost mut ecopy: Map<ID, ID> = Map::empty();
        let mut i: usize = 0;
        while i < erecs.len()
            invariant
                g == self.view_state(),
                endpoints_recorded(g),
                t.wf(),
                t.spec_attached(),
                t.spec_graph() == graph,
                t.next_id().peer == peer,
                remap.wf(),
                i <= erecs@.len(),
                forall|k: int| 0 <= k < erecs@.len() ==> edge_record_ok(g, (#[trigger] erecs@[k]).id.spec_id(), Some(erecs@[k])),
                crate::idmap::sorted_ids(crate::state::edge_record_ids(erecs@)),
                forall|f: ID| g.edges.contains_key(f) <==> exists|k: int| 0 <= k < erecs@.len() && (#[trigger] erecs@[k]).id.spec_id() == f,
                forall|n: ID| #[trigger] remap@.contains_key(n) <==> g.nodes.contains_key(n),
                injective(remap@),
                t.view_state().nodes == hn,
                forall|x: ID| #[trigger] hn.contains_key(x) ==> untouched(hn[x]),
                forall|x: ID| #[trigger] hn.contains_key(x) <==> copy_of(remap@, x),
                forall|x: ID| #[trigger] hn.contains_key(x) ==> x.peer == peer && x.counter < t.next_id().counter,
                forall|e: ID| #[trigger] ecopy.contains_key(e) <==> exists|k: int| 0 <= k < i && (#[trigger] erecs@[k]).id.spec_id() == e,
                injective(ecopy),
                forall|x: ID| #[trigger] t.view_state().edges.contains_key(x) <==> copy_of(ecopy, x),
                forall|x: ID| #[trigger] t.view_state().edges.contains_key(x) ==> x.peer == peer && x.counter < t.next_id().counter,
                forall|e: ID| #[trigger] ecopy.contains_key(e) ==> edge_copied(g, t.view_state(), remap@, ecopy, e),
                t.next_id().counter as int == t.next_lamport() as int,
                0 <= t.next_id().counter <= nrecs@.len() + 2 * i,
                fits == (2 * (nrecs@.len() + erecs@.len()) < i32::MAX),
                fits == (2 * (g.nodes.dom().len() + g.edges.dom().len()) < i32::MAX),
            decreases erecs@.len() - i,
        {
            let rec = &erecs[i];
            let ghost e = rec.id.spec_id();
            proof {
                assert(edge_record_ok(g, e, Some(erecs@[i as int])));
                assert(g.nodes.contains_key(g.edges[e].source) && g.nodes.contains_key(g.edges[e].target));
            }
            let s = match remap.get(rec.source.id()) {
                Some(x) => *x,
                None => {
                    proof { assert(false); }
                    return Err(GraphError::InvalidReference);
                },
            };
            let d = match remap.get(rec.target.id()) {
                Some(x) => *x,
                None => {
                    proof { assert(false); }
                    return Err(GraphError::InvalidReference);
                },
            };
            let ghost before = t;
            let eid = GraphEdgeId::from_id(t.next);
            let op = GraphOp::CreateEdge {
                id: eid,
                source: GraphNodeId::from_id(s),
                target: GraphNodeId::from_id(d),
                position: rec.position.clone(),
            };
            let ghost op_g = op;
            proof {
                t.lemma_fresh();
                assert(remap@.contains_key(rec.source.spec_id()) && remap@[rec.source.spec_id()] == s);
                assert(remap@.contains_key(rec.target.spec_id()) && remap@[rec.target.spec_id()] == d);
                assert(copy_of(remap@, s));
                assert(copy_of(remap@, d));
                assert(hn.contains_key(s) && hn.contains_key(d));
                lemma_fresh_edge_valid(t.view_state(), t.change_of(op_g));
            }
            match t.write(op) {
                Ok(_) => {},
                Err(err) => {
                    return Err(err);
                },
            }
            let ghost mid = t;
            proof {
                let c = before.change_of(op_g);
                assert(!before.view_state().edges.contains_key(eid.spec_id()));
                let regs = mid.view_state().edges[eid.spec_id()].orders;
                assert(regs == map![crate::state::write_key(c) => (c.id.counter, rec.position@)]);
                assert(is_winner(regs, crate::state::write_key(c)));
                lemma_winner_key(regs, crate::state::write_key(c));
                assert(winner_value(regs).0 == rec.position@);
            }
            if !rec.alive {
                proof {
                    t.lemma_fresh();
                    reveal_validation_single(t.view_state(), t.change_of(GraphOp::DeleteEdge { id: eid }));
                }
                match t.write(GraphOp::DeleteEdge { id: eid }) {
                    Ok(_) => {},
                    Err(err) => {
                        return Err(err);
                    },
                }
                proof {
                    let l = t.view_state().edges[eid.spec_id()].life;
                    let c = mid.change_of(GraphOp::DeleteEdge { id: eid });
                    assert(l.deletes.contains_key(c.id));
                    assert(l.restores == Map::<ID, (u32, Seq<ID>)>::empty());
                    assert(!crate::life::restored(l.restores, c.id));
                    assert(!life_alive(l));
                }
            }
            proof {
                let h = t.view_state();
                let x = eid.spec_id();
                let e0 = ecopy;
                ecopy = ecopy.insert(e, x);
                assert(life_alive(h.edges[x].life) == life_alive(g.edges[e].life));
                assert(edge_copied(g, h, remap@, ecopy, e));
                if e0.contains_key(e) {
                    let k = choose|k: int| 0 <= k < i && (#[trigger] erecs@[k]).id.spec_id() == e;
                    assert(crate::state::edge_record_ids(erecs@)[k] == e);
                    assert(crate::state::edge_record_ids(erecs@)[i as int] == e);
                    assert(id_lt(crate::state::edge_record_ids(erecs@)[k], crate::state::edge_record_ids(erecs@)[i as int]));
                }
                assert forall|a: ID, b: ID| ecopy.contains_key(a) && ecopy.contains_key(b) && a != b implies #[trigger] ecopy[a] != #[trigger] ecopy[b] by {
                    if a == e {
                        assert(before.view_state().edges.contains_key(e0[b]));
                    } else if b == e {
                        assert(before.view_state().edges.contains_key(e0[a]));
                    }
                }
                assert forall|y: ID| #[trigger] h.edges.contains_key(y) <==> copy_of(ecopy, y) by {
                    if y == x {
                        assert(ecopy.contains_key(e) && ecopy[e] == y);
                    } else {
                        if copy_of(ecopy, y) {
                            let k = choose|k: ID| #[trigger] ecopy.contains_key(k) && ecopy[k] == y;
                            assert(e0.contains_key(k) && e0[k] == y);
                        }
                        if before.view_state().edges.contains_key(y) {
                            let k = choose|k: ID| #[trigger] e0.contains_key(k) && e0[k] == y;
                            assert(ecopy.contains_key(k) && ecopy[k] == y);
                        }
                    }
                }
                assert forall|f: ID| #[trigger] ecopy.contains_key(f) implies edge_copied(g, h, remap@, ecopy, f) by {
                    if f != e {
                        assert(edge_copied(g, before.view_state(), remap@, e0, f));
                        assert(e0[f] != x);
                        assert(h.edges[e0[f]] == before.view_state().edges[e0[f]]);
                    }
                }
                assert forall|q: ID| #[trigger] ecopy.contains_key(q) <==> exists|k: int| 0 <= k < i + 1 && (#[trigger] erecs@[k]).id.spec_id() == q by {
                    if q == e {
                        assert(erecs@[i as int].id.spec_id() == q);
                    }
                }
            }
            i += 1;
        }
        proof {
            assert forall|f: ID| #[trigger] ecopy.contains_key(f) <==> g.edges.contains_key(f) by {
                if g.edges.contains_key(f) {
                    let k = choose|k: int| 0 <= k < erecs@.len() && (#[trigger] erecs@[k]).id.spec_id() == f;
                }
            }
        }
        let ghost he = t.view_state().edges;
        proof {
            assert forall|k: int| 0 <= k < nrecs@.len() implies untouched(t.view_state().nodes[remap@[(#[trigger] nrecs@[k]).id.spec_id()]]) by {
                let n = nrecs@[k].id.spec_id();
                assert(g.nodes.contains_key(n));
                assert(remap@.contains_key(n));
                assert(copy_of(remap@, remap@[n]));
                assert(hn.contains_key(remap@[n]));
            }
        }
        let mut i: usize = 0;
        while i < nrecs.len()
            invariant
                g == self.view_state(),
                t.wf(),
                t.spec_attached(),
                t.spec_graph() == graph,
                t.next_id().peer == peer,
                remap.wf(),
                i <= nrecs@.len(),
                forall|k: int| 0 <= k < nrecs@.len() ==> node_record_ok(g, (#[trigger] nrecs@[k]).id.spec_id(), Some(nrecs@[k])),
                crate::idmap::sorted_ids(crate::state::node_record_ids(nrecs@)),
                forall|n: ID| #[trigger] remap@.contains_key(n) <==> g.nodes.contains_key(n),
                injective(remap@),
                t.view_state().edges == he,
                forall|x: ID| #[trigger] t.view_state().nodes.contains_key(x) <==> hn.contains_key(x),
                forall|x: ID| #[trigger] hn.contains_key(x) <==> copy_of(remap@, x),
                forall|n: ID| g.nodes.contains_key(n) <==> exists|k: int| 0 <= k < nrecs@.len() && (#[trigger] nrecs@[k]).id.spec_id() == n,
                forall|k: int|
                    0 <= k < i ==> life_alive(t.view_state().nodes[remap@[(#[trigger] nrecs@[k]).id.spec_id()]]) == nrecs@[k].alive,
                forall|k: int|
                    i <= k < nrecs@.len() ==> untouched(t.view_state().nodes[remap@[(#[trigger] nrecs@[k]).id.spec_id()]]),
                t.next_id().counter as int == t.next_lamport() as int,
                0 <= t.next_id().counter <= nrecs@.len() + 2 * erecs@.len() + i,
                fits == (2 * (nrecs@.len() + erecs@.len()) < i32::MAX),
                fits == (2 * (g.nodes.dom().len() + g.edges.dom().len()) < i32::MAX),
            decreases nrecs@.len() - i,
        {
            let key = nrecs[i].id.id();
            proof {
                assert(g.nodes.contains_key(key));
            }
            let x = match remap.get(key) {
                Some(v) => *v,
                None => {
                    proof { assert(false); }
                    return Err(GraphError::InvalidReference);
                },
            };
            let ghost before = t;
            if !nrecs[i].alive {
                proof {
                    t.lemma_fresh();
                    assert(copy_of(remap@, x));
                    assert(t.view_state().nodes.contains_key(x));
                    reveal_validation_single(t.view_state(), t.change_of(GraphOp::DeleteNode { id: crate::ids::node_of(x) }));
                }
                match t.write(GraphOp::DeleteNode { id: GraphNodeId::from_id(x) }) {
                    Ok(_) => {},
                    Err(err) => {
                        return Err(err);
                    },
                }
                proof {
                    let l = t.view_state().nodes[x];
                    let c = before.change_of(GraphOp::DeleteNode { id: crate::ids::node_of(x) });
                    assert(untouched(before.view_state().nodes[x]));
                    assert(l.deletes.contains_key(c.id));
                    assert(!crate::life::restored(l.restores, c.id));
                    assert(!life_alive(l));
                }
            } else {
                proof {
                    assert(untouched(t.view_state().nodes[x]));
                    assert(life_alive(t.view_state().nodes[x]));
                }
            }
            proof {
                assert forall|k: int|
                    0 <= k < i + 1 implies life_alive(t.view_state().nodes[remap@[(#[trigger] nrecs@[k]).id.spec_id()]]) == nrecs@[k].alive by {
                    if k < i {
                        let y = remap@[nrecs@[k].id.spec_id()];
                        assert(id_lt(crate::state::node_record_ids(nrecs@)[k], crate::state::node_record_ids(nrecs@)[i as int]));
                        assert(nrecs@[k].id.spec_id() != key);
                        assert(y != x);
                    }
                }
                assert forall|k: int|
                    i + 1 <= k < nrecs@.len() implies untouched(t.view_state().nodes[remap@[(#[trigger] nrecs@[k]).id.spec_id()]]) by {
                    let y = remap@[nrecs@[k].id.spec_id()];
                    assert(id_lt(crate::state::node_record_ids(nrecs@)[i as int], crate::state::node_record_ids(nrecs@)[k]));
                    assert(nrecs@[k].id.spec_id() != key);
                    assert(y != x);
                }
            }
            i += 1;
        }
        proof {
            let h = t.view_state();
            assert forall|n: ID| #[trigger] remap@.contains_key(n) implies h.nodes.contains_key(remap@[n]) && life_alive(h.nodes[remap@[n]])
                == life_alive(g.nodes[n]) by {
                let k = choose|k: int| 0 <= k < nrecs@.len() && (#[trigger] nrecs@[k]).id.spec_id() == n;
                assert(node_record_ok(g, n, Some(nrecs@[k])));
                assert(hn.contains_key(remap@[n]));
            }
            assert forall|x: ID| #[trigger] h.nodes.contains_key(x) <==> copy_of(remap@, x) by {
                assert(h.nodes.contains_key(x) <==> hn.contains_key(x));
            }
            assert(remap@.dom() =~= g.nodes.dom());
            assert(ecopy.dom() =~= g.edges.dom());
            assert(copied(g, h, remap@, ecopy));
        }
        Ok(t)
    }
}

impl GraphHandler {
    /// The visible nodes and edges of this graph at its current version.
    pub fn snapshot(&self) -> (r: Result<GraphSnapshot, GraphRepairError>)
        requires
            self.wf(),
        ensures
            !self.spec_attached() <==> r == Err::<GraphSnapshot, GraphRepairError>(GraphRepairError::DetachedContainer),
            r is Err ==> !self.spec_attached(),
            r matches Ok(s) ==> {
                &&& s.wf()
                &&& s.spec_graph() == self.spec_graph()
                &&& s.spec_version() == self.spec_version()
                &&& forall|n: ID| #[trigger] snapshot_node_ids(s.spec_nodes()).contains(n) <==> node_alive(self.view_state(), n)
                &&& forall|e: ID| #[trigger] snapshot_edge_ids(s.spec_edges()).contains(e) <==> edge_visible(self.view_state(), e)
                &&& forall|i: int| 0 <= i < s.spec_edges().len() ==> snapshot_edge_ok(self.view_state(), #[trigger] s.spec_edges()[i])
            },
    {
        if !self.attached {
            return Err(GraphRepairError::DetachedContainer);
        }
        let ghost g = self.view_state();
        let nodes = self.state.nodes();
        let ids = self.state.edges();
        let mut edges: Vec<GraphSnapshotEdge> = Vec::new();
        let mut i: usize = 0;
        while i < ids.len()
            invariant
                self.wf(),
                g == self.view_state(),
                i <= ids@.len(),
                edges@.len() == i,
                forall|e: ID| #[trigger] edge_ids(ids@).contains(e) <==> edge_visible(g, e),
                forall|k: int| 0 <= k < i ==> (#[trigger] edges@[k]).id == ids@[k] && snapshot_edge_ok(g, edges@[k]),
            decreases ids@.len() - i,
        {
            let id = ids[i];
            proof { assert(edge_ids(ids@)[i as int] == id.spec_id()); assert(edge_ids(ids@).contains(id.spec_id())); }
            let rec = match self.state.edge_record(id) {
                Some(x) => x,
                None => {
                    proof { assert(false); }
                    return Err(GraphRepairError::InvalidPlan);
                },
            };
            edges.push(GraphSnapshotEdge { id, source: rec.source, target: rec.target });
            i += 1;
        }
        proof {
            assert(snapshot_edge_ids(edges@) =~= edge_ids(ids@));
            assert(snapshot_node_ids(nodes@) =~= node_ids(nodes@));
            crate::idmap::lemma_sorted_no_dups(snapshot_node_ids(nodes@));
            crate::idmap::lemma_sorted_no_dups(snapshot_edge_ids(edges@));
        }
        let version = self.version.clone();
        let s = GraphSnapshot::new(self.graph, version, nodes, edges);
        proof {
            assert forall|n: ID| #[trigger] snapshot_node_ids(s.spec_nodes()).contains(n) <==> snapshot_node_ids(nodes@).contains(n) by {
                if snapshot_node_ids(s.spec_nodes()).contains(n) {
                    let k = choose|k: int| 0 <= k < s.spec_nodes().len() && snapshot_node_ids(s.spec_nodes())[k] == n;
                    assert(s.spec_nodes().contains(s.spec_nodes()[k]));
                    let j = choose|j: int| 0 <= j < nodes@.len() && nodes@[j] == s.spec_nodes()[k];
                    assert(snapshot_node_ids(nodes@)[j] == n);
                }
                if snapshot_node_ids(nodes@).contains(n) {
                    let j = choose|j: int| 0 <= j < nodes@.len() && snapshot_node_ids(nodes@)[j] == n;
                    assert(nodes@.contains(nodes@[j]));
                    assert(s.spec_nodes().contains(nodes@[j]));
                    let k = choose|k: int| 0 <= k < s.spec_nodes().len() && s.spec_nodes()[k] == nodes@[j];
                    assert(snapshot_node_ids(s.spec_nodes())[k] == n);
                }
            }
            assert forall|e: ID| #[trigger] snapshot_edge_ids(s.spec_edges()).contains(e) <==> snapshot_edge_ids(edges@).contains(e) by {
                if snapshot_edge_ids(s.spec_edges()).contains(e) {
                    let k = choose|k: int| 0 <= k < s.spec_edges().len() && snapshot_edge_ids(s.spec_edges())[k] == e;
                    assert(s.spec_edges().contains(s.spec_edges()[k]));
                    let j = choose|j: int| 0 <= j < edges@.len() && edges@[j] == s.spec_edges()[k];
                    assert(snapshot_edge_ids(edges@)[j] == e);
                }
                if snapshot_edge_ids(edges@).contains(e) {
                    let j = choose|j: int| 0 <= j < edges@.len() && snapshot_edge_ids(edges@)[j] == e;
                    assert(edges@.contains(edges@[j]));
                    assert(s.spec_edges().contains(edges@[j]));
                    let k = choose|k: int| 0 <= k < s.spec_edges().len() && s.spec_edges()[k] == edges@[j];
                    assert(snapshot_edge_ids(s.spec_edges())[k] == e);
                }
            }
            assert forall|i: int| 0 <= i < s.spec_edges().len() implies snapshot_edge_ok(self.view_state(), #[trigger] s.spec_edges()[i]) by {
                assert(s.spec_edges().contains(s.spec_edges()[i]));
                let j = choose|j: int| 0 <= j < edges@.len() && edges@[j] == s.spec_edges()[i];
            }
        }
        Ok(s)
    }

    /// Delete the selected edges, each once and in ascending order, but only while
    /// the graph is still at `expected` and every selected edge is visible.
    pub fn delete_edges_if_version(&mut self, expected: &Vec<ID>, edges: &Vec<GraphEdgeId>) -> (r: Result<usize, GraphRepairError>)
        requires
            old(self).wf(),
        ensures
            final(self).wf(),
            !old(self).spec_attached() ==> r == Err::<usize, GraphRepairError>(GraphRepairError::DetachedContainer),
            old(self).spec_attached() && expected@ != old(self).spec_version() ==> r == Err::<usize, GraphRepairError>(GraphRepairError::StalePlan),
            old(self).spec_attached() && expected@ == old(self).spec_version()
                && (exists|x: ID| #[trigger] edge_ids(edges@).contains(x) && !edge_visible(old(self).view_state(), x))
                ==> (r matches Err(GraphRepairError::InvalidSelection(x)) && first_invisible(old(self).view_state(), edge_ids(edges@), x.spec_id())),
            r matches Err(GraphRepairError::InvalidSelection(x)) ==> first_invisible(old(self).view_state(), edge_ids(edges@), x.spec_id()),
            old(self).spec_attached() && expected@ == old(self).spec_version()
                && (forall|x: ID| #[trigger] edge_ids(edges@).contains(x) ==> edge_visible(old(self).view_state(), x))
                ==> (r is Ok <==> (forall|x: ID| #[trigger] edge_ids(edges@).contains(x) ==> x.counter >= 0)
                    && old(self).next_id().counter + distinct_count(edge_ids(edges@)) <= i32::MAX
                    && old(self).next_lamport() + distinct_count(edge_ids(edges@)) <= u32::MAX),
            r is Err ==> Self::unchanged(*old(self), *final(self)),
            r matches Ok(n) ==> exists|sel: Seq<ID>| {
                &&& #[trigger] sorted_ids(sel)
                &&& forall|x: ID| sel.contains(x) <==> edge_ids(edges@).contains(x)
                &&& n == sel.len()
                &&& deleted_prefix(*old(self), *final(self), sel, n as int, false)
            },
    {
        if !self.attached {
            return Err(GraphRepairError::DetachedContainer);
        }
        let mut set: IdMap<()> = IdMap::new();
        let mut i: usize = 0;
        while i < edges.len()
            invariant
                i <= edges@.len(),
                set.wf(),
                forall|x: ID| #[trigger] set@.contains_key(x) <==> edge_ids(edges@).subrange(0, i as int).contains(x),
            decreases edges@.len() - i,
        {
            let ghost s0 = set@;
            set.insert(edges[i].id(), ());
            proof {
                assert(set@ == s0.insert(edges@[i as int].spec_id(), ()));
                assert forall|x: ID| #[trigger] set@.contains_key(x) <==> edge_ids(edges@).subrange(0, i + 1).contains(x) by {
                    let a = edge_ids(edges@).subrange(0, i as int);
                    let b = edge_ids(edges@).subrange(0, i + 1);
                    assert(b == a.push(edges@[i as int].spec_id()));
                    assert(s0.contains_key(x) <==> a.contains(x));
                    assert(b[i as int] == edges@[i as int].spec_id());
                    if a.contains(x) {
                        let k = choose|k: int| 0 <= k < a.len() && a[k] == x;
                        assert(b[k] == x);
                    }
                    if b.contains(x) && x != edges@[i as int].spec_id() {
                        let k = choose|k: int| 0 <= k < b.len() && b[k] == x;
                        assert(a[k] == x);
                    }
                }
            }
            i += 1;
        }
        proof { assert(edge_ids(edges@).subrange(0, edges@.len() as int) =~= edge_ids(edges@)); }
        let sel = set.keys_vec();
        let ghost g = self.view_state();
        let ghost sel_s = sel@;
        proof {
            crate::idmap::lemma_sorted_no_dups(sel@);
            assert forall|x: ID| sel@.contains(x) <==> edge_ids(edges@).contains(x) by {
                assert(set@.contains_key(x) <==> set.keys().contains(x));
            }
            assert(distinct_count(edge_ids(edges@)) == sel@.len()) by {
                lemma_distinct_count(sel@, edge_ids(edges@));
            }
        }
        if !vec_id_eq(&self.version, expected) {
            return Err(GraphRepairError::StalePlan);
        }
        let mut k: usize = 0;
        while k < sel.len()
            invariant
                self.wf(),
                *self == *old(self),
                g == self.view_state(),
                self.spec_attached(),
                expected@ == self.spec_version(),
                k <= sel@.len(),
                sorted_ids(sel@),
                forall|x: ID| sel@.contains(x) <==> edge_ids(edges@).contains(x),
                forall|j: int| 0 <= j < k ==> edge_visible(g, #[trigger] sel@[j]),
            decreases sel@.len() - k,
        {
            if !self.state.edge_is_visible(sel[k]) {
                proof {
                    assert forall|y: ID| edge_ids(edges@).contains(y) && id_lt(y, sel@[k as int]) implies edge_visible(g, y) by {
                        assert(sel@.contains(y));
                        let j = choose|j: int| 0 <= j < sel@.len() && sel@[j] == y;
                        if j >= k {
                            if j > k {
                                assert(id_lt(sel@[k as int], sel@[j]));
                            }
                        }
                    }
                    assert(sel@.contains(sel@[k as int]));
                }
                return Err(GraphRepairError::InvalidSelection(GraphEdgeId::from_id(sel[k])));
            }
            k += 1;
        }
        proof {
            assert forall|x: ID| #[trigger] edge_ids(edges@).contains(x) implies edge_visible(g, x) by {
                assert(sel@.contains(x));
            }
        }
        let n = sel.len();
        let mut nonneg = true;
        let mut k: usize = 0;
        while k < n
            invariant
                n == sel@.len(),
                k <= n,
                nonneg <==> forall|j: int| 0 <= j < k ==> (#[trigger] sel@[j]).counter >= 0,
            decreases n - k,
        {
            if sel[k].counter < 0 {
                nonneg = false;
            }
            k += 1;
        }
        proof {
            assert((forall|j: int| 0 <= j < n ==> (#[trigger] sel@[j]).counter >= 0) <==> (forall|x: ID| #[trigger] edge_ids(edges@).contains(x) ==> x.counter >= 0)) by {
                if forall|j: int| 0 <= j < n ==> (#[trigger] sel@[j]).counter >= 0 {
                    assert forall|x: ID| #[trigger] edge_ids(edges@).contains(x) implies x.counter >= 0 by {
                        assert(sel@.contains(x));
                    }
                }
                if forall|x: ID| #[trigger] edge_ids(edges@).contains(x) ==> x.counter >= 0 {
                    assert forall|j: int| 0 <= j < n implies (#[trigger] sel@[j]).counter >= 0 by {
                        assert(sel@.contains(sel@[j]));
                    }
                }
            }
        }
        if !nonneg || n > (i32::MAX - self.next.counter) as usize || n > (u32::MAX - self.lamport) as usize {
            return Err(GraphRepairError::InvalidPlan);
        }
        proof {
            assert forall|j: int| 0 <= j < n implies self.view_state().edges.contains_key(#[trigger] sel@[j]) && sel@[j].counter >= 0 by {
                assert(sel@.contains(sel@[j]));
                assert(edge_ids(edges@).contains(sel@[j]));
            }
        }
        self.delete_each(&sel, false);
        Ok(n)
    }

    /// Delete every visible node, one at a time in ascending order. Nothing is
    /// deleted unless every delete can be written.
    pub fn clear(&mut self) -> (r: Result<(), GraphError>)
        requires
            old(self).wf(),
        ensures
            final(self).wf(),
            r is Ok <==> (forall|n: ID| node_alive(old(self).view_state(), n) ==> n.counter >= 0)
                && old(self).next_id().counter + visible_node_set(old(self).view_state()).len() <= i32::MAX
                && old(self).next_lamport() + visible_node_set(old(self).view_state()).len() <= u32::MAX,
            r is Err ==> r == Err::<(), GraphError>(GraphError::InvalidOperation) && Self::unchanged(*old(self), *final(self)),
            r is Ok ==> exists|sel: Seq<ID>| {
                &&& #[trigger] sorted_ids(sel)
                &&& forall|x: ID| sel.contains(x) <==> node_alive(old(self).view_state(), x)
                &&& deleted_prefix(*old(self), *final(self), sel, sel.len() as int, true)
            },
    {
        let ids = self.state.nodes();
        let ghost g = self.view_state();
        let n = ids.len();
        let mut nonneg = true;
        let mut k: usize = 0;
        while k < n
            invariant
                n == ids@.len(),
                k <= n,
                nonneg <==> forall|j: int| 0 <= j < k ==> (#[trigger] ids@[j]).spec_id().counter >= 0,
            decreases n - k,
        {
            if ids[k].counter < 0 {
                nonneg = false;
            }
            k += 1;
        }
        let sel = node_id_vec(&ids);
        proof {
            crate::idmap::lemma_sorted_no_dups(sel@);
            assert forall|x: ID| sel@.contains(x) <==> node_alive(g, x) by {
                assert(sel@ == node_ids(ids@));
            }
            assert(visible_node_set(g).len() == sel@.len()) by {
                assert(visible_node_set(g) =~= sel@.to_set());
                sel@.unique_seq_to_set();
            }
            assert((forall|j: int| 0 <= j < n ==> (#[trigger] ids@[j]).spec_id().counter >= 0) <==> (forall|x: ID| node_alive(g, x) ==> x.counter >= 0)) by {
                if forall|j: int| 0 <= j < n ==> (#[trigger] ids@[j]).spec_id().counter >= 0 {
                    assert forall|x: ID| node_alive(g, x) implies x.counter >= 0 by {
                        assert(sel@.contains(x));
                        let j = choose|j: int| 0 <= j < sel@.len() && sel@[j] == x;
                        assert(ids@[j].spec_id() == sel@[j]);
                    }
                }
                if forall|x: ID| node_alive(g, x) ==> x.counter >= 0 {
                    assert forall|j: int| 0 <= j < n implies (#[trigger] ids@[j]).spec_id().counter >= 0 by {
                        assert(ids@[j].spec_id() == sel@[j]);
                        assert(sel@.contains(sel@[j]));
                    }
                }
            }
        }
        if !nonneg || n > (i32::MAX - self.next.counter) as usize || n > (u32::MAX - self.lamport) as usize {
            return Err(GraphError::InvalidOperation);
        }
        proof {
            assert forall|j: int| 0 <= j < n implies self.view_state().nodes.contains_key(#[trigger] sel@[j]) && sel@[j].counter >= 0 by {
                assert(sel@.contains(sel@[j]));
                assert(ids@[j].spec_id() == sel@[j]);
            }
        }
        self.delete_each(&sel, true);
        Ok(())
    }

    /// Delete each listed node (or edge) in order, one change each.
    fn delete_each(&mut self, sel: &Vec<ID>, nodes: bool)
        requires
            old(self).wf(),
            forall|j: int| 0 <= j < sel@.len() ==> (if nodes { old(self).view_state().nodes.contains_key(#[trigger] sel@[j]) } else {
                old(self).view_state().edges.contains_key(sel@[j]) }) && sel@[j].counter >= 0,
            old(self).next_id().counter + sel@.len() <= i32::MAX,
            old(self).next_lamport() + sel@.len() <= u32::MAX,
        ensures
            final(self).wf(),
            deleted_prefix(*old(self), *final(self), sel@, sel@.len() as int, nodes),
    {
        let ghost h0 = *self;
        let n = sel.len();
        let mut k: usize = 0;
        proof { assert(sel@.subrange(0, 0) =~= Seq::<ID>::empty()); }
        while k < n
            invariant
                self.wf(),
                n == sel@.len(),
                k <= n,
                h0 == *old(self),
                forall|j: int| 0 <= j < n ==> sel@[j].counter >= 0,
                h0.next_id().counter + n <= i32::MAX,
                h0.next_lamport() + n <= u32::MAX,
                h0.next_id().counter >= 0,
                deleted_prefix(h0, *self, sel@, k as int, nodes),
                forall|j: int| k <= j < n ==> (if nodes { self.view_state().nodes.contains_key(#[trigger] sel@[j]) } else {
                    self.view_state().edges.contains_key(sel@[j]) }),
            decreases n - k,
        {
            let ghost before = *self;
            if nodes {
                let r = self.delete_node(GraphNodeId::from_id(sel[k]));
                proof { assert(r is Ok); }
            } else {
                let r = self.delete_edge(GraphEdgeId::from_id(sel[k]));
                proof { assert(r is Ok); }
            }
            proof {
                let s0 = sel@.subrange(0, k as int);
                let s1 = sel@.subrange(0, k + 1);
                assert(s1.drop_last() =~= s0);
                assert(s1.last() == sel@[k as int]);
                assert(self.view_state() == deletes_of(h0.view_state(), h0.next_id(), h0.next_lamport(), s1, nodes));
                assert forall|j: int| k + 1 <= j < n implies (if nodes { self.view_state().nodes.contains_key(#[trigger] sel@[j]) } else {
                    self.view_state().edges.contains_key(sel@[j]) }) by {
                    if nodes {
                        assert(before.view_state().nodes.contains_key(sel@[j]));
                    } else {
                        assert(before.view_state().edges.contains_key(sel@[j]));
                    }
                }
            }
            k += 1;
        }
        proof {
            assert(sel@.subrange(0, n as int) =~= sel@);
        }
    }
}

/// Operation identities of a list of nodes.
fn node_id_vec(v: &Vec<GraphNodeId>) -> (r: Vec<ID>)
    ensures
        r@ == node_ids(v@),
{
    let mut r: Vec<ID> = Vec::new();
    let mut i: usize = 0;
    while i < v.len()
        invariant
            i <= v@.len(),
            r@ == node_ids(v@).subrange(0, i as int),
        decreases v@.len() - i,
    {
        r.push(v[i].id());
        i += 1;
        assert(r@ =~= node_ids(v@).subrange(0, i as int));
    }
    assert(node_ids(v@).subrange(0, v@.len() as int) =~= node_ids(v@));
    r
}

/// The edges a repair plan deletes, in plan order.
pub open spec fn plan_edges(plan: RepairPlan) -> Seq<ID> {
    plan.spec_deletions().map_values(|d: crate::analysis::RepairDeletion| d.edge.spec_id())
}

/// Apply a repair plan to the graph it was made for: delete its edges, but only
/// while the graph is still at the plan's version and every edge is visible.
pub fn apply_repair(graph: &mut GraphHandler, plan: &RepairPlan) -> (r: Result<usize, GraphRepairError>)
    requires
        old(graph).wf(),
    ensures
        final(graph).wf(),
        old(graph).spec_graph() != plan.spec_graph() ==> r == Err::<usize, GraphRepairError>(GraphRepairError::WrongGraph),
        old(graph).spec_graph() == plan.spec_graph() && !old(graph).spec_attached() ==> r == Err::<usize, GraphRepairError>(GraphRepairError::DetachedContainer),
        old(graph).spec_graph() == plan.spec_graph() && old(graph).spec_attached() && plan.spec_version() != old(graph).spec_version()
            ==> r == Err::<usize, GraphRepairError>(GraphRepairError::StalePlan),
        r matches Err(GraphRepairError::InvalidSelection(x)) ==> first_invisible(old(graph).view_state(), plan_edges(*plan), x.spec_id()),
        old(graph).spec_graph() == plan.spec_graph() && old(graph).spec_attached() && plan.spec_version() == old(graph).spec_version()
            && (exists|x: ID| #[trigger] plan_edges(*plan).contains(x) && !edge_visible(old(graph).view_state(), x))
            ==> (r matches Err(GraphRepairError::InvalidSelection(x)) && first_invisible(old(graph).view_state(), plan_edges(*plan), x.spec_id())),
        // with every planned edge visible, the plan succeeds exactly when identities and clocks suffice
        old(graph).spec_graph() == plan.spec_graph() && old(graph).spec_attached() && plan.spec_version() == old(graph).spec_version()
            && (forall|x: ID| #[trigger] plan_edges(*plan).contains(x) ==> edge_visible(old(graph).view_state(), x))
            ==> (r is Ok <==> (forall|x: ID| #[trigger] plan_edges(*plan).contains(x) ==> x.counter >= 0)
                && old(graph).next_id().counter + distinct_count(plan_edges(*plan)) <= i32::MAX
                && old(graph).next_lamport() + distinct_count(plan_edges(*plan)) <= u32::MAX),
        r is Err ==> GraphHandler::unchanged(*old(graph), *final(graph)),
        r matches Ok(n) ==> exists|sel: Seq<ID>| {
            &&& #[trigger] sorted_ids(sel)
            &&& forall|x: ID| sel.contains(x) <==> plan_edges(*plan).contains(x)
            &&& n == sel.len()
            &&& deleted_prefix(*old(graph), *final(graph), sel, n as int, false)
        },
{
    if graph.id() != plan.graph() {
        return Err(GraphRepairError::WrongGraph);
    }
    let deletions = plan.deletions();
    let mut edges: Vec<GraphEdgeId> = Vec::new();
    let mut i: usize = 0;
    while i < deletions.len()
        invariant
            i <= deletions@.len(),
            deletions@ == plan.spec_deletions(),
            edge_ids(edges@) == plan_edges(*plan).subrange(0, i as int),
        decreases deletions@.len() - i,
    {
        let ghost e0 = edges@;
        edges.push(deletions[i].edge);
        proof {
            assert(edges@ == e0.push(deletions@[i as int].edge));
            assert(edge_ids(edges@) =~= edge_ids(e0).push(deletions@[i as int].edge.spec_id()));
        }
        i += 1;
        assert(edge_ids(edges@) =~= plan_edges(*plan).subrange(0, i as int));
    }
    proof { assert(plan_edges(*plan).subrange(0, deletions@.len() as int) =~= plan_edges(*plan)); }
    graph.delete_edges_if_version(plan.version(), &edges)
}

/// Two identity lists are equal.
fn vec_id_eq(a: &Vec<ID>, b: &Vec<ID>) -> (r: bool)
    ensures
        r <==> a@ == b@,
{
    if a.len() != b.len() {
        return false;
    }
    let mut i: usize = 0;
    while i < a.len()
        invariant
            a@.len() == b@.len(),
            i <= a@.len(),
            forall|j: int| 0 <= j < i ==> a@[j] == b@[j],
        decreases a@.len() - i,
    {
        if a[i].peer != b[i].peer || a[i].counter != b[i].counter {
            return false;
        }
        i += 1;
    }
    assert(a@ =~= b@);
    true
}

/// The edge record in a snapshot matches the graph.
pub open spec fn snapshot_edge_ok(g: GraphView, x: GraphSnapshotEdge) -> bool {
    &&& edge_visible(g, x.id.spec_id())
    &&& x.source.spec_id() == g.edges[x.id.spec_id()].source
    &&& x.target.spec_id() == g.edges[x.id.spec_id()].target
}

/// `x` is the least selected identity that is not a visible edge.
pub open spec fn first_invisible(g: GraphView, sel: Seq<ID>, x: ID) -> bool {
    &&& sel.contains(x)
    &&& !edge_visible(g, x)
    &&& forall|y: ID| sel.contains(y) && id_lt(y, x) ==> edge_visible(g, y)
}

/// The number of distinct identities in `s`.
pub open spec fn distinct_count(s: Seq<ID>) -> nat {
    s.to_set().len()
}

/// A strictly ascending sequence with the same elements as `s` is as long as `s` has distinct elements.
proof fn lemma_distinct_count(sel: Seq<ID>, s: Seq<ID>)
    requires
        sel.no_duplicates(),
        forall|x: ID| sel.contains(x) <==> s.contains(x),
    ensures
        distinct_count(s) == sel.len(),
{
    assert(sel.to_set() =~= s.to_set());
    sel.unique_seq_to_set();
}

/// Deleting the edges of `sel` in order, the `k`-th with identity `start + k` and
/// Lamport time `lamport + k`.
pub open spec fn deletes_of(g: GraphView, start: ID, lamport: u32, sel: Seq<ID>, nodes: bool) -> GraphView
    decreases sel.len(),
{
    if sel.len() == 0 {
        g
    } else {
        let k = sel.len() - 1;
        spec_step(
            deletes_of(g, start, lamport, sel.drop_last(), nodes),
            GraphChange {
                id: ID { peer: start.peer, counter: (start.counter + k) as i32 },
                lamport: (lamport + k) as u32,
                op: if nodes { GraphOp::DeleteNode { id: crate::ids::node_of(sel.last()) } } else { GraphOp::DeleteEdge { id: crate::ids::edge_of(sel.last()) } },
                forward: true,
            },
        )
    }
}

/// After deleting the first `n` identities of a selection: the state, the
/// identities and clock consumed, and the frontier.
pub open spec fn deleted_prefix(h0: GraphHandler, h: GraphHandler, sel: Seq<ID>, n: int, nodes: bool) -> bool {
    &&& h.view_state() == deletes_of(h0.view_state(), h0.next_id(), h0.next_lamport(), sel.subrange(0, n), nodes)
    &&& h.next_id() == (ID { peer: h0.next_id().peer, counter: (h0.next_id().counter + n) as i32 })
    &&& h.next_lamport() == h0.next_lamport() + n
    &&& n > 0 ==> h.spec_version() == seq![ID { peer: h0.next_id().peer, counter: (h0.next_id().counter + n - 1) as i32 }]
    &&& n == 0 ==> h.spec_version() == h0.spec_version()
    &&& h.spec_graph() == h0.spec_graph()
    &&& h.spec_attached() == h0.spec_attached()
    &&& h.jitter() == h0.jitter()
}

/// Consecutive nodes of `p` are joined by visible edges, in direction.
pub open spec fn walk(g: GraphView, p: Seq<ID>) -> bool {
    &&& p.len() >= 1
    &&& forall|i: int| 0 <= i < p.len() - 1 ==> #[trigger] neighbor(g, p[i], false, p[i + 1])
}

/// Each queued node has a walk from `s` as long as its recorded depth, within the bound.
pub open spec fn queue_ok(g: GraphView, s: ID, paths: Seq<Seq<ID>>, queue: Seq<(GraphNodeId, usize)>, max_depth: usize) -> bool {
    &&& paths.len() == queue.len()
    &&& forall|k: int| 0 <= k < queue.len() ==> path_ok(g, s, #[trigger] paths[k], queue[k].0.spec_id(), queue[k].1 as int)
        && queue[k].1 <= max_depth && node_alive(g, queue[k].0.spec_id())
}

/// No earlier queue entry holds the node of entry `f`.
pub open spec fn first_at(q: Seq<(GraphNodeId, usize)>, f: int) -> bool {
    forall|f2: int| 0 <= f2 < f ==> (#[trigger] q[f2]).0 != q[f].0
}

/// Every out-neighbor of the node of entry `f` is queued at most one level deeper.
pub open spec fn expanded(g: GraphView, q: Seq<(GraphNodeId, usize)>, f: int) -> bool {
    forall|y: ID|
        #[trigger] neighbor(g, q[f].0.spec_id(), false, y) ==> exists|j: int|
            0 <= j < q.len() && (#[trigger] q[j]).0.spec_id() == y && q[j].1 <= q[f].1 + 1
}

/// Queue depths never decrease.
pub open spec fn depths_sorted(q: Seq<(GraphNodeId, usize)>) -> bool {
    forall|i: int, j: int| 0 <= i < j < q.len() ==> (#[trigger] q[i]).1 <= (#[trigger] q[j]).1
}

/// The first entry of the queue that holds the node of entry `j`.
pub proof fn lemma_first_entry(q: Seq<(GraphNodeId, usize)>, j: int) -> (f: int)
    requires
        0 <= j < q.len(),
    ensures
        0 <= f <= j,
        q[f].0 == q[j].0,
        first_at(q, f),
    decreases j,
{
    if exists|f2: int| 0 <= f2 < j && (#[trigger] q[f2]).0 == q[j].0 {
        let f2 = choose|f2: int| 0 <= f2 < j && (#[trigger] q[f2]).0 == q[j].0;
        lemma_first_entry(q, f2)
    } else {
        j
    }
}

/// Queued entries stay where they are as the queue grows.
pub proof fn lemma_expanded_grow(g: GraphView, q: Seq<(GraphNodeId, usize)>, q2: Seq<(GraphNodeId, usize)>, f: int)
    requires
        0 <= f < q.len(),
        q.len() <= q2.len(),
        forall|k: int| 0 <= k < q.len() ==> q2[k] == q[k],
        expanded(g, q, f),
    ensures
        expanded(g, q2, f),
        first_at(q, f) ==> first_at(q2, f),
{
    assert forall|y: ID| #[trigger] neighbor(g, q2[f].0.spec_id(), false, y) implies exists|j: int|
        0 <= j < q2.len() && (#[trigger] q2[j]).0.spec_id() == y && q2[j].1 <= q2[f].1 + 1 by {
        assert(q2[f] == q[f]);
        assert(neighbor(g, q[f].0.spec_id(), false, y));
        let j = choose|j: int| 0 <= j < q.len() && (#[trigger] q[j]).0.spec_id() == y && q[j].1 <= q[f].1 + 1;
        assert(q2[j] == q[j]);
    }
    if first_at(q, f) {
        assert forall|f2: int| 0 <= f2 < f implies (#[trigger] q2[f2]).0 != q2[f].0 by {
            assert(q2[f2] == q[f2]);
            assert(q[f2].0 != q[f].0);
        }
    }
}

/// When every queued entry has been processed, each node on a walk of at most
/// `max_depth` edges from the first entry's node has an entry no deeper than
/// its place on the walk.
pub proof fn lemma_bfs_complete(g: GraphView, q: Seq<(GraphNodeId, usize)>, p: Seq<ID>, max_depth: usize, i: int)
    requires
        q.len() >= 1,
        q[0].1 == 0,
        depths_sorted(q),
        forall|f: int| 0 <= f < q.len() && #[trigger] first_at(q, f) && q[f].1 < max_depth ==> expanded(g, q, f),
        walk(g, p),
        p[0] == q[0].0.spec_id(),
        p.len() <= max_depth + 1,
        0 <= i < p.len(),
    ensures
        exists|j: int| 0 <= j < q.len() && (#[trigger] q[j]).0.spec_id() == p[i] && q[j].1 <= i,
    decreases i,
{
    if i == 0 {
        assert(q[0].0.spec_id() == p[0] && q[0].1 <= 0);
    } else {
        lemma_bfs_complete(g, q, p, max_depth, i - 1);
        let j = choose|j: int| 0 <= j < q.len() && (#[trigger] q[j]).0.spec_id() == p[i - 1] && q[j].1 <= i - 1;
        let f = lemma_first_entry(q, j);
        if f < j {
            assert(q[f].1 <= q[j].1);
        }
        assert(first_at(q, f));
        assert(q[f].1 < max_depth);
        assert(expanded(g, q, f));
        let x = i - 1;
        assert(neighbor(g, p[x], false, p[x + 1]));
        assert(p[x + 1] == p[i]);
        assert(q[f].0.spec_id() == p[i - 1]);
        let k = choose|k: int| 0 <= k < q.len() && (#[trigger] q[k]).0.spec_id() == p[i] && q[k].1 <= q[f].1 + 1;
        assert(q[k].0.spec_id() == p[i] && q[k].1 <= i);
    }
}

/// Breadth-first search below depth `k`: once every first queue entry shallower than
/// `k` is expanded, a walk from the start reaches its `i`-th node (`i <= k`) at
/// some queue entry no deeper than `i`.
pub proof fn lemma_bfs_prefix(g: GraphView, q: Seq<(GraphNodeId, usize)>, p: Seq<ID>, k: int, i: int)
    requires
        q.len() >= 1,
        q[0].1 == 0,
        depths_sorted(q),
        forall|f: int| 0 <= f < q.len() && #[trigger] first_at(q, f) && q[f].1 < k ==> expanded(g, q, f),
        walk(g, p),
        p[0] == q[0].0.spec_id(),
        0 <= i < p.len(),
        i <= k,
    ensures
        exists|j: int| 0 <= j < q.len() && (#[trigger] q[j]).0.spec_id() == p[i] && q[j].1 <= i,
    decreases i,
{
    if i == 0 {
        assert(q[0].0.spec_id() == p[0] && q[0].1 <= 0);
    } else {
        lemma_bfs_prefix(g, q, p, k, i - 1);
        let j = choose|j: int| 0 <= j < q.len() && (#[trigger] q[j]).0.spec_id() == p[i - 1] && q[j].1 <= i - 1;
        let f = lemma_first_entry(q, j);
        if f < j {
            assert(q[f].1 <= q[j].1);
        }
        assert(first_at(q, f));
        assert(q[f].1 < k);
        assert(expanded(g, q, f));
        let x = i - 1;
        assert(neighbor(g, p[x], false, p[x + 1]));
        assert(p[x + 1] == p[i]);
        let kk = choose|kk: int| 0 <= kk < q.len() && (#[trigger] q[kk]).0.spec_id() == p[i] && q[kk].1 <= q[f].1 + 1;
        assert(q[kk].0.spec_id() == p[i] && q[kk].1 <= i);
    }
}

/// Every walk from `s` to `m` has at least `d` edges.
pub open spec fn no_shorter(g: GraphView, s: ID, m: ID, d: int) -> bool {
    forall|p: Seq<ID>| #[trigger] walk(g, p) && p.len() > 0 && p[0] == s && p.last() == m ==> p.len() >= d + 1
}

/// `p` is a walk of `d` edges from `s` to `m`.
pub open spec fn path_ok(g: GraphView, s: ID, p: Seq<ID>, m: ID, d: int) -> bool {
    walk(g, p) && p.len() == d + 1 && p[0] == s && p.last() == m
}

/// `m` can be reached from `s` along at most `d` visible edges.
pub open spec fn reach_within(g: GraphView, s: ID, m: ID, d: int) -> bool {
    exists|p: Seq<ID>| #[trigger] walk(g, p) && p[0] == s && p.last() == m && p.len() <= d + 1
}

/// Node identities for a list of operation identities.
fn nodes_of(ids: &Vec<ID>) -> (r: Vec<GraphNodeId>)
    ensures
        node_ids(r@) == ids@,
{
    let mut r: Vec<GraphNodeId> = Vec::new();
    let mut i: usize = 0;
    while i < ids.len()
        invariant
            i <= ids@.len(),
            node_ids(r@) == ids@.subrange(0, i as int),
        decreases ids@.len() - i,
    {
        let ghost r0 = r@;
        let n = GraphNodeId::from_id(ids[i]);
        r.push(n);
        assert(r@ == r0.push(n));
        assert(node_ids(r@) =~= node_ids(r0).push(ids@[i as int]));
        i += 1;
        assert(node_ids(r@) =~= ids@.subrange(0, i as int));
    }
    assert(ids@.subrange(0, ids@.len() as int) =~= ids@);
    r
}

/// The far end of edge `e` seen from a node: its source for an incoming edge,
/// else its target.
pub open spec fn endpoint(g: GraphView, e: ID, incoming: bool) -> ID {
    if incoming { g.edges[e].source } else { g.edges[e].target }
}

/// `m` is joined to `n` by a visible edge (into `n` when `incoming`, out of it otherwise).
pub open spec fn neighbor(g: GraphView, n: ID, incoming: bool, m: ID) -> bool {
    exists|e: ID| adjacent_to(g, n, incoming, e) && #[trigger] endpoint(g, e, incoming) == m
}

/// Every out-edge of `source`, in order, sits before position `p`.
pub open spec fn after_all_out(g: GraphView, source: ID, p: Seq<u8>) -> bool {
    forall|s: Seq<(Seq<u8>, ID)>| #[trigger] ordered_out(g, source, s) ==> forall|k: int|
        0 <= k < s.len() ==> #[trigger] crate::position::lex_lt(s[k].0, p)
}

/// Tags that name exactly the active delete tags of a life are known to it, and they
/// are all nonnegative exactly when every active tag is.
proof fn lemma_active_tags(tags: Seq<ID>, life: crate::life::LifeView, obj: ID)
    requires
        tags_match(tags, life),
    ensures
        crate::state::tags_known(Map::empty(), obj, tags, life.deletes, true),
        (forall|i: int| 0 <= i < tags.len() ==> crate::op::nonnegative(#[trigger] tags[i]))
            <==> (forall|t: ID| crate::life::is_active_tag(life, t) ==> t.counter >= 0),
{
    assert forall|i: int| 0 <= i < tags.len() implies life.deletes.contains_key(#[trigger] tags[i]) by {
        assert(tags.contains(tags[i]));
    }
    if forall|i: int| 0 <= i < tags.len() ==> crate::op::nonnegative(#[trigger] tags[i]) {
        assert forall|t: ID| crate::life::is_active_tag(life, t) implies t.counter >= 0 by {
            assert(tags.contains(t));
            let i = choose|i: int| 0 <= i < tags.len() && tags[i] == t;
            assert(crate::op::nonnegative(tags[i]));
        }
    }
    if forall|t: ID| crate::life::is_active_tag(life, t) ==> t.counter >= 0 {
        assert forall|i: int| 0 <= i < tags.len() implies crate::op::nonnegative(#[trigger] tags[i]) by {
            assert(tags.contains(tags[i]));
        }
    }
}

/// Validating one forward change: what each operation asks of the records.
proof fn reveal_validation_single(g: GraphView, c: GraphChange)
    requires
        c.forward,
        c.id.counter >= 0,
    ensures
        (validation_result(g, seq![c]) is Ok) <==> (match c.op {
            GraphOp::DeleteNode { id } => id.spec_id().counter >= 0 && g.nodes.contains_key(id.spec_id()),
            GraphOp::DeleteEdge { id } => id.spec_id().counter >= 0 && g.edges.contains_key(id.spec_id()),
            GraphOp::RestoreNode { id, deletes } => crate::op::op_valid(c.op, c.id) && g.nodes.contains_key(id.spec_id())
                && crate::state::tags_known(Map::empty(), id.spec_id(), deletes@, g.nodes[id.spec_id()].deletes, true),
            GraphOp::RestoreEdge { id, deletes } => crate::op::op_valid(c.op, c.id) && g.edges.contains_key(id.spec_id())
                && crate::state::tags_known(Map::empty(), id.spec_id(), deletes@, g.edges[id.spec_id()].life.deletes, true),
            _ => validation_result(g, seq![c]) is Ok,
        }),
{
    assert(seq![c].drop_last() =~= Seq::<GraphChange>::empty());
    assert(seq![c].last() == c);
    assert(crate::state::validate_fold(g, seq![c]) == crate::state::validate_step(g, crate::state::validate_fold(g, Seq::<GraphChange>::empty()), c));
}

} // verus!
