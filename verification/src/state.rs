//! Remove-wins graph state: lifecycle records of nodes and edges, and the order
//! register of every edge. Visibility, adjacency and per-source order are derived
//! from the records.
use vstd::prelude::*;
use crate::ids::{ID, GraphNodeId, GraphEdgeId, IdLp, IdFull, id_lt, node_of, edge_of};
use crate::idmap::{IdMap, sorted_ids, lemma_filter_ids};
use crate::life::{Life, LifeView, life_alive, is_active_tag, spec_delete, spec_restore};
use crate::register::{Register, RegisterView, winner_value};
use crate::op::{GraphOp, GraphChange, GraphNode, GraphEdge, GraphOrderValue, GraphOrderDelta, GraphDiff, GraphError, op_valid, op_is_node, op_object};
use crate::position::GraphPosition;
use crate::order_index::{OrderIndex, OrderedGraphEdge, sorted_entries, index_has};

verus! {

/// The mathematical content of an edge record.
pub struct EdgeView {
    pub source: ID,
    pub target: ID,
    pub life: LifeView,
    pub orders: RegisterView,
}

/// The mathematical content of a graph: lifecycle records by creation identity.
pub struct GraphView {
    pub nodes: Map<ID, LifeView>,
    pub edges: Map<ID, EdgeView>,
}

pub open spec fn new_life(lamport: u32) -> LifeView {
    LifeView { created_at: lamport, deletes: Map::empty(), restores: Map::empty() }
}

pub open spec fn node_alive(g: GraphView, n: ID) -> bool {
    g.nodes.contains_key(n) && life_alive(g.nodes[n])
}

pub open spec fn edge_alive(g: GraphView, e: ID) -> bool {
    g.edges.contains_key(e) && life_alive(g.edges[e].life)
}

/// An edge is visible when it is alive and both endpoints are alive.
pub open spec fn edge_visible(g: GraphView, e: ID) -> bool {
    edge_alive(g, e) && node_alive(g, g.edges[e].source) && node_alive(g, g.edges[e].target)
}

/// The edges that name `n` as source or target.
pub open spec fn incident(g: GraphView, n: ID) -> Set<ID> {
    Set::new(|e: ID| g.edges.contains_key(e) && (g.edges[e].source == n || g.edges[e].target == n))
}

/// The winning order register of an edge: position bytes and full identity of the write.
pub open spec fn order_of(g: GraphView, e: ID) -> Option<(Seq<u8>, IdFull)> {
    if g.edges.contains_key(e) {
        Some(winner_value(g.edges[e].orders))
    } else {
        None
    }
}

pub open spec fn order_view(v: Option<GraphOrderValue>) -> Option<(Seq<u8>, IdFull)> {
    match v {
        Some(o) => Some((o.position@, o.last_order)),
        None => None,
    }
}

/// The writer key of a change: its Lamport clock and peer.
pub open spec fn write_key(c: GraphChange) -> IdLp {
    IdLp { lamport: c.lamport, peer: c.id.peer }
}

/// Delete tags listed by a record: the active tags, ascending.
pub open spec fn tags_match(tags: Seq<ID>, life: LifeView) -> bool {
    sorted_ids(tags) && forall|t: ID| tags.contains(t) <==> is_active_tag(life, t)
}

/// `r` is the record of node `n`: `None` when the node's creation is absent.
pub open spec fn node_record_ok(g: GraphView, n: ID, r: Option<GraphNode>) -> bool {
    match r {
        None => !g.nodes.contains_key(n),
        Some(x) => {
            &&& g.nodes.contains_key(n)
            &&& x.id.spec_id() == n
            &&& x.alive == life_alive(g.nodes[n])
            &&& x.visible == node_alive(g, n)
            &&& tags_match(x.delete_tags@, g.nodes[n])
        },
    }
}

/// `r` is the record of edge `e`: `None` when the edge's creation is absent.
pub open spec fn edge_record_ok(g: GraphView, e: ID, r: Option<GraphEdge>) -> bool {
    match r {
        None => !g.edges.contains_key(e),
        Some(x) => {
            &&& g.edges.contains_key(e)
            &&& x.id.spec_id() == e
            &&& x.source.spec_id() == g.edges[e].source
            &&& x.target.spec_id() == g.edges[e].target
            &&& (x.position@, x.last_order) == winner_value(g.edges[e].orders)
            &&& x.alive == life_alive(g.edges[e].life)
            &&& x.visible == edge_visible(g, e)
            &&& tags_match(x.delete_tags@, g.edges[e].life)
        },
    }
}

/// The effect of one change on the records.
pub open spec fn spec_step(g: GraphView, c: GraphChange) -> GraphView {
    match c.op {
        GraphOp::CreateNode { id } => {
            let n = id.spec_id();
            if !c.forward {
                GraphView { nodes: g.nodes.remove(n), ..g }
            } else if g.nodes.contains_key(n) {
                g
            } else {
                GraphView { nodes: g.nodes.insert(n, new_life(c.lamport)), ..g }
            }
        },
        GraphOp::CreateEdge { id, source, target, position } => {
            let e = id.spec_id();
            if c.forward {
                GraphView {
                    edges: g.edges.insert(
                        e,
                        EdgeView {
                            source: source.spec_id(),
                            target: target.spec_id(),
                            life: new_life(c.lamport),
                            orders: map![write_key(c) => (c.id.counter, position@)],
                        },
                    ),
                    ..g
                }
            } else {
                GraphView { edges: g.edges.remove(e), ..g }
            }
        },
        GraphOp::DeleteNode { id } => {
            let n = id.spec_id();
            GraphView { nodes: g.nodes.insert(n, spec_delete(g.nodes[n], c.id, c.lamport, c.forward)), ..g }
        },
        GraphOp::RestoreNode { id, deletes } => {
            let n = id.spec_id();
            GraphView {
                nodes: g.nodes.insert(n, spec_restore(g.nodes[n], c.id, c.lamport, deletes@, c.forward)),
                ..g
            }
        },
        GraphOp::DeleteEdge { id } => {
            let e = id.spec_id();
            GraphView {
                edges: g.edges.insert(e, EdgeView { life: spec_delete(g.edges[e].life, c.id, c.lamport, c.forward), ..g.edges[e] }),
                ..g
            }
        },
        GraphOp::RestoreEdge { id, deletes } => {
            let e = id.spec_id();
            GraphView {
                edges: g.edges.insert(
                    e,
                    EdgeView { life: spec_restore(g.edges[e].life, c.id, c.lamport, deletes@, c.forward), ..g.edges[e] },
                ),
                ..g
            }
        },
        GraphOp::SetEdgeOrder { id, position } => {
            let e = id.spec_id();
            let orders = if c.forward {
                g.edges[e].orders.insert(write_key(c), (c.id.counter, position@))
            } else {
                g.edges[e].orders.remove(write_key(c))
            };
            GraphView { edges: g.edges.insert(e, EdgeView { orders, ..g.edges[e] }), ..g }
        },
    }
}

/// A change can be applied: the object it targets is recorded, and retracting an
/// order write leaves the edge another write.
pub open spec fn step_ok(g: GraphView, c: GraphChange) -> bool {
    match c.op {
        GraphOp::CreateNode { .. } => true,
        GraphOp::CreateEdge { .. } => true,
        GraphOp::DeleteNode { id } => g.nodes.contains_key(id.spec_id()),
        GraphOp::RestoreNode { id, .. } => g.nodes.contains_key(id.spec_id()),
        GraphOp::DeleteEdge { id } => g.edges.contains_key(id.spec_id()),
        GraphOp::RestoreEdge { id, .. } => g.edges.contains_key(id.spec_id()),
        GraphOp::SetEdgeOrder { id, .. } => {
            &&& g.edges.contains_key(id.spec_id())
            &&& !c.forward ==> exists|k: IdLp| #[trigger] g.edges[id.spec_id()].orders.contains_key(k) && k != write_key(c)
        },
    }
}

/// The records after a sequence of changes.
pub open spec fn run(g: GraphView, cs: Seq<GraphChange>) -> GraphView
    decreases cs.len(),
{
    if cs.len() == 0 {
        g
    } else {
        spec_step(run(g, cs.drop_last()), cs.last())
    }
}

/// Every change of the sequence can be applied after its predecessors.
pub open spec fn changes_ok(g: GraphView, cs: Seq<GraphChange>) -> bool
    decreases cs.len(),
{
    if cs.len() == 0 {
        true
    } else {
        changes_ok(g, cs.drop_last()) && step_ok(run(g, cs.drop_last()), cs.last())
    }
}

/// Nodes whose records one change refreshes.
pub open spec fn step_nodes(c: GraphChange) -> Set<ID> {
    if op_is_node(c.op) {
        set![op_object(c.op)]
    } else {
        Set::empty()
    }
}

/// Edges whose records one change refreshes, given the records after it.
pub open spec fn step_edges(after: GraphView, c: GraphChange) -> Set<ID> {
    if op_is_node(c.op) {
        incident(after, op_object(c.op))
    } else {
        set![op_object(c.op)]
    }
}

pub open spec fn touched_nodes(cs: Seq<GraphChange>) -> Set<ID>
    decreases cs.len(),
{
    if cs.len() == 0 {
        Set::empty()
    } else {
        touched_nodes(cs.drop_last()) + step_nodes(cs.last())
    }
}

pub open spec fn touched_edges(g: GraphView, cs: Seq<GraphChange>) -> Set<ID>
    decreases cs.len(),
{
    if cs.len() == 0 {
        Set::empty()
    } else {
        touched_edges(g, cs.drop_last()) + step_edges(run(g, cs), cs.last())
    }
}

pub open spec fn is_order_op(op: GraphOp) -> bool {
    op is CreateEdge || op is SetEdgeOrder
}

/// The source recorded in an order delta: the edge's source before the change,
/// or the created edge's source.
pub open spec fn order_source(g: GraphView, c: GraphChange) -> ID {
    match c.op {
        GraphOp::CreateEdge { source, .. } => source.spec_id(),
        _ => g.edges[op_object(c.op)].source,
    }
}

/// For every edge whose winning order changed in some step: its source and its
/// order before the first such step.
pub open spec fn order_changes(g: GraphView, cs: Seq<GraphChange>) -> Map<ID, (ID, Option<(Seq<u8>, IdFull)>)>
    decreases cs.len(),
{
    if cs.len() == 0 {
        Map::empty()
    } else {
        let prev = order_changes(g, cs.drop_last());
        let g0 = run(g, cs.drop_last());
        let c = cs.last();
        let e = op_object(c.op);
        if is_order_op(c.op) && order_of(g0, e) != order_of(spec_step(g0, c), e) && !prev.contains_key(e) {
            prev.insert(e, (order_source(g0, c), order_of(g0, e)))
        } else {
            prev
        }
    }
}

/// The records, order deltas and operations that applying `cs` to `g` reports.
pub open spec fn diff_ok(g: GraphView, cs: Seq<GraphChange>, d: GraphDiff) -> bool {
    let last = run(g, cs);
    let oc = order_changes(g, cs);
    &&& d.wf()
    &&& d.ops@ == cs
    &&& d.nodes@.dom() == touched_nodes(cs)
    &&& forall|n: ID| #[trigger] d.nodes@.contains_key(n) ==> node_record_ok(last, n, d.nodes@[n])
    &&& d.edges@.dom() == touched_edges(g, cs)
    &&& forall|e: ID| #[trigger] d.edges@.contains_key(e) ==> edge_record_ok(last, e, d.edges@[e])
    &&& d.orders@.dom() == oc.dom()
    &&& forall|e: ID| #[trigger] d.orders@.contains_key(e) ==> {
        &&& d.orders@[e].source.spec_id() == oc[e].0
        &&& order_view(d.orders@[e].before) == oc[e].1
        &&& order_view(d.orders@[e].after) == order_of(last, e)
    }
}


pub proof fn lemma_node_record_frame(g0: GraphView, g1: GraphView, n: ID, r: Option<GraphNode>)
    requires
        node_record_ok(g0, n, r),
        g0.nodes.contains_key(n) == g1.nodes.contains_key(n),
        g0.nodes.contains_key(n) ==> g0.nodes[n] == g1.nodes[n],
    ensures
        node_record_ok(g1, n, r),
{
}

pub proof fn lemma_edge_record_frame(g0: GraphView, g1: GraphView, e: ID, r: Option<GraphEdge>)
    requires
        edge_record_ok(g0, e, r),
        g0.edges.contains_key(e) == g1.edges.contains_key(e),
        g0.edges.contains_key(e) ==> {
            let s = g0.edges[e].source;
            let t = g0.edges[e].target;
            &&& g0.edges[e] == g1.edges[e]
            &&& g0.nodes.contains_key(s) == g1.nodes.contains_key(s)
            &&& g0.nodes.contains_key(s) ==> g0.nodes[s] == g1.nodes[s]
            &&& g0.nodes.contains_key(t) == g1.nodes.contains_key(t)
            &&& g0.nodes.contains_key(t) ==> g0.nodes[t] == g1.nodes[t]
        },
    ensures
        edge_record_ok(g1, e, r),
{
}

/// One more change extends `run`, `changes_ok` and the reported sets by one step.
pub proof fn lemma_unfold_take(g: GraphView, cs: Seq<GraphChange>, i: int)
    requires
        0 <= i < cs.len(),
    ensures
        cs.take(i + 1).drop_last() == cs.take(i),
        cs.take(i + 1).last() == cs[i],
        run(g, cs.take(i + 1)) == spec_step(run(g, cs.take(i)), cs[i]),
        changes_ok(g, cs.take(i + 1)) == (changes_ok(g, cs.take(i)) && step_ok(run(g, cs.take(i)), cs[i])),
        touched_nodes(cs.take(i + 1)) == touched_nodes(cs.take(i)) + step_nodes(cs[i]),
        touched_edges(g, cs.take(i + 1)) == touched_edges(g, cs.take(i)) + step_edges(run(g, cs.take(i + 1)), cs[i]),
{
    assert(cs.take(i + 1).drop_last() =~= cs.take(i));
}

pub proof fn lemma_changes_ok_prefix(g: GraphView, cs: Seq<GraphChange>, i: int)
    requires
        changes_ok(g, cs),
        0 <= i <= cs.len(),
    ensures
        changes_ok(g, cs.take(i)),
    decreases cs.len() - i,
{
    if i < cs.len() {
        lemma_changes_ok_prefix(g, cs, i + 1);
        lemma_unfold_take(g, cs, i);
    } else {
        assert(cs.take(i) =~= cs);
    }
}


/// Two optional order values hold the same position and winning write.
pub fn same_order(a: &Option<GraphOrderValue>, b: &Option<GraphOrderValue>) -> (r: bool)
    ensures
        r == (order_view(*a) == order_view(*b)),
{
    match (a, b) {
        (None, None) => true,
        (Some(x), Some(y)) => x.position.same(&y.position) && x.last_order == y.last_order,
        _ => false,
    }
}


/// What validation has learned after a prefix of a batch: creations and deletes
/// made by the batch, and the first error.
pub struct Validation {
    pub nodes: Set<ID>,
    pub edges: Set<ID>,
    /// Delete operation identity to the identity of the deleted object.
    pub deletes: Map<ID, ID>,
    pub err: Option<GraphError>,
}

pub open spec fn known_node(g: GraphView, a: Validation, n: ID) -> bool {
    g.nodes.contains_key(n) || a.nodes.contains(n)
}

pub open spec fn known_edge(g: GraphView, a: Validation, e: ID) -> bool {
    g.edges.contains_key(e) || a.edges.contains(e)
}

/// Every tag names a delete of `obj`, made earlier in the batch or recorded.
pub open spec fn tags_known(batch: Map<ID, ID>, obj: ID, tags: Seq<ID>, recorded: Map<ID, u32>, has_record: bool) -> bool {
    forall|i: int| 0 <= i < tags.len() ==> ((batch.contains_key(#[trigger] tags[i]) && batch[tags[i]] == obj)
        || (has_record && recorded.contains_key(tags[i])))
}

pub open spec fn rejected(a: Validation, e: GraphError) -> Validation {
    Validation { err: Some(e), ..a }
}

/// One validation step. Retracting changes are checked for identity only.
pub open spec fn validate_step(g: GraphView, a: Validation, c: GraphChange) -> Validation {
    if a.err is Some {
        a
    } else if !op_valid(c.op, c.id) {
        rejected(a, GraphError::InvalidOperation)
    } else if !c.forward {
        a
    } else {
        let bad = rejected(a, GraphError::InvalidReference);
        match c.op {
            GraphOp::CreateNode { id } => {
                let n = id.spec_id();
                if g.nodes.contains_key(n) || g.edges.contains_key(n) || a.edges.contains(n) || a.nodes.contains(n) {
                    bad
                } else {
                    Validation { nodes: a.nodes.insert(n), ..a }
                }
            },
            GraphOp::CreateEdge { id, source, target, .. } => {
                let e = id.spec_id();
                if g.edges.contains_key(e) || g.nodes.contains_key(e) || a.nodes.contains(e) || a.edges.contains(e)
                    || !known_node(g, a, source.spec_id()) || !known_node(g, a, target.spec_id()) {
                    bad
                } else {
                    Validation { edges: a.edges.insert(e), ..a }
                }
            },
            GraphOp::DeleteNode { id } => {
                if !known_node(g, a, id.spec_id()) {
                    bad
                } else {
                    Validation { deletes: a.deletes.insert(c.id, id.spec_id()), ..a }
                }
            },
            GraphOp::DeleteEdge { id } => {
                if !known_edge(g, a, id.spec_id()) {
                    bad
                } else {
                    Validation { deletes: a.deletes.insert(c.id, id.spec_id()), ..a }
                }
            },
            GraphOp::RestoreNode { id, deletes } => {
                let n = id.spec_id();
                if !known_node(g, a, n) {
                    bad
                } else if !tags_known(a.deletes, n, deletes@, if g.nodes.contains_key(n) { g.nodes[n].deletes } else { Map::empty() }, g.nodes.contains_key(n)) {
                    bad
                } else {
                    a
                }
            },
            GraphOp::RestoreEdge { id, deletes } => {
                let e = id.spec_id();
                if !known_edge(g, a, e) {
                    bad
                } else if !tags_known(a.deletes, e, deletes@, if g.edges.contains_key(e) { g.edges[e].life.deletes } else { Map::empty() }, g.edges.contains_key(e)) {
                    bad
                } else {
                    a
                }
            },
            GraphOp::SetEdgeOrder { id, .. } => {
                if !known_edge(g, a, id.spec_id()) {
                    bad
                } else {
                    a
                }
            },
        }
    }
}

pub open spec fn validate_fold(g: GraphView, cs: Seq<GraphChange>) -> Validation
    decreases cs.len(),
{
    if cs.len() == 0 {
        Validation { nodes: Set::empty(), edges: Set::empty(), deletes: Map::empty(), err: None }
    } else {
        validate_step(g, validate_fold(g, cs.drop_last()), cs.last())
    }
}

/// The result of validating a batch against the records: the first error, if any.
pub open spec fn validation_result(g: GraphView, cs: Seq<GraphChange>) -> Result<(), GraphError> {
    match validate_fold(g, cs).err {
        None => Ok(()),
        Some(e) => Err(e),
    }
}

pub open spec fn batch_view(nodes: Map<ID, ()>, edges: Map<ID, ()>, deletes: Map<ID, ID>) -> Validation {
    Validation { nodes: nodes.dom(), edges: edges.dom(), deletes, err: None }
}

pub proof fn lemma_validation_error_persists(g: GraphView, cs: Seq<GraphChange>, i: int)
    requires
        0 <= i <= cs.len(),
        validate_fold(g, cs.take(i)).err is Some,
    ensures
        validate_fold(g, cs).err == validate_fold(g, cs.take(i)).err,
    decreases cs.len() - i,
{
    if i < cs.len() {
        assert(cs.take(i + 1).drop_last() =~= cs.take(i));
        lemma_validation_error_persists(g, cs, i + 1);
    } else {
        assert(cs.take(i) =~= cs);
    }
}


/// A batch of forward changes that passes validation can be applied: everything
/// validation accepts as known is recorded when the change that names it runs.
pub proof fn lemma_validated_batch_applies(g: GraphView, cs: Seq<GraphChange>)
    requires
        validate_fold(g, cs).err is None,
        forall|i: int| 0 <= i < cs.len() ==> (#[trigger] cs[i]).forward,
    ensures
        changes_ok(g, cs),
        forall|n: ID| known_node(g, validate_fold(g, cs), n) ==> #[trigger] run(g, cs).nodes.contains_key(n),
        forall|e: ID| known_edge(g, validate_fold(g, cs), e) ==> #[trigger] run(g, cs).edges.contains_key(e),
    decreases cs.len(),
{
    if cs.len() > 0 {
        let d = cs.drop_last();
        let c = cs.last();
        assert forall|i: int| 0 <= i < d.len() implies (#[trigger] d[i]).forward by {
            assert(d[i] == cs[i]);
        }
        assert(cs[cs.len() - 1] == c);
        assert(validate_fold(g, d).err is None);
        lemma_validated_batch_applies(g, d);
        let a = validate_fold(g, d);
        let g0 = run(g, d);
        let g1 = spec_step(g0, c);
        match c.op {
            GraphOp::CreateNode { id } => {
                assert forall|n: ID| known_node(g, validate_fold(g, cs), n) implies #[trigger] g1.nodes.contains_key(n) by {
                    if n != id.spec_id() {
                        assert(known_node(g, a, n));
                    }
                }
                assert forall|e: ID| known_edge(g, validate_fold(g, cs), e) implies #[trigger] g1.edges.contains_key(e) by {
                    assert(known_edge(g, a, e));
                }
            },
            GraphOp::CreateEdge { id, .. } => {
                assert forall|n: ID| known_node(g, validate_fold(g, cs), n) implies #[trigger] g1.nodes.contains_key(n) by {
                    assert(known_node(g, a, n));
                }
                assert forall|e: ID| known_edge(g, validate_fold(g, cs), e) implies #[trigger] g1.edges.contains_key(e) by {
                    if e != id.spec_id() {
                        assert(known_edge(g, a, e));
                    }
                }
            },
            _ => {
                assert forall|n: ID| known_node(g, validate_fold(g, cs), n) implies #[trigger] g1.nodes.contains_key(n) by {
                    assert(known_node(g, a, n));
                    assert(g0.nodes.contains_key(n));
                }
                assert forall|e: ID| known_edge(g, validate_fold(g, cs), e) implies #[trigger] g1.edges.contains_key(e) by {
                    assert(known_edge(g, a, e));
                    assert(g0.edges.contains_key(e));
                }
            },
        }
    }
}


pub open spec fn node_ids(s: Seq<GraphNodeId>) -> Seq<ID> {
    s.map_values(|x: GraphNodeId| x.spec_id())
}

pub open spec fn edge_ids(s: Seq<GraphEdgeId>) -> Seq<ID> {
    s.map_values(|x: GraphEdgeId| x.spec_id())
}

/// Visible edges adjacent to `n`: those that end at `n` when `incoming`, else those that start there.
pub open spec fn adjacent_to(g: GraphView, n: ID, incoming: bool, e: ID) -> bool {
    edge_visible(g, e) && (if incoming { g.edges[e].target == n } else { g.edges[e].source == n })
}

/// The order entries of the visible out-edges of `source`: `(winning position, edge)`.
pub open spec fn out_entry(g: GraphView, source: ID, x: (Seq<u8>, ID)) -> bool {
    adjacent_to(g, source, false, x.1) && x.0 == winner_value(g.edges[x.1].orders).0
}

/// `s` lists the visible out-edges of `source` sorted by `(position, edge id)`.
pub open spec fn ordered_out(g: GraphView, source: ID, s: Seq<(Seq<u8>, ID)>) -> bool {
    sorted_entries(s) && forall|x: (Seq<u8>, ID)| s.contains(x) <==> out_entry(g, source, x)
}

pub open spec fn ordered_view(s: Seq<OrderedGraphEdge>) -> Seq<(Seq<u8>, ID)> {
    s.map_values(|x: OrderedGraphEdge| (x.position@, x.edge_id.spec_id()))
}

/// Every listed edge carries its recorded target.
pub open spec fn targets_ok(g: GraphView, s: Seq<OrderedGraphEdge>) -> bool {
    forall|i: int| 0 <= i < s.len() ==> g.edges.contains_key((#[trigger] s[i]).edge_id.spec_id())
        && s[i].target.spec_id() == g.edges[s[i].edge_id.spec_id()].target
}


pub open spec fn visible_node_set(g: GraphView) -> Set<ID> {
    Set::new(|n: ID| node_alive(g, n))
}

pub open spec fn visible_edge_set(g: GraphView) -> Set<ID> {
    Set::new(|e: ID| edge_visible(g, e))
}

/// A strictly ascending sequence has as many elements as its set.
pub proof fn lemma_sorted_len(s: Seq<ID>)
    requires
        sorted_ids(s),
    ensures
        s.to_set().len() == s.len(),
{
    assert(s.no_duplicates()) by {
        assert forall|i: int, j: int| 0 <= i < s.len() && 0 <= j < s.len() && i != j implies s[i] != s[j] by {
            if i < j {
                assert(id_lt(s[i], s[j]));
            } else {
                assert(id_lt(s[j], s[i]));
            }
        }
    }
    s.unique_seq_to_set();
}


pub open spec fn node_record_ids(s: Seq<GraphNode>) -> Seq<ID> {
    s.map_values(|x: GraphNode| x.id.spec_id())
}

pub open spec fn edge_record_ids(s: Seq<GraphEdge>) -> Seq<ID> {
    s.map_values(|x: GraphEdge| x.id.spec_id())
}


/// Every recorded edge holds finitely many order writes, and at least one.
pub open spec fn registers_wf(g: GraphView) -> bool {
    forall|e: ID| #[trigger] g.edges.contains_key(e) ==> g.edges[e].orders.dom().finite()
        && exists|k: IdLp| #[trigger] g.edges[e].orders.contains_key(k)
}

/// An edge record: endpoints, lifecycle and order register.
pub struct Edge {
    pub source: GraphNodeId,
    pub target: GraphNodeId,
    pub life: Life,
    pub orders: Register,
}

impl View for Edge {
    type V = EdgeView;

    open spec fn view(&self) -> EdgeView {
        EdgeView { source: self.source.spec_id(), target: self.target.spec_id(), life: self.life@, orders: self.orders@ }
    }
}

impl Edge {
    pub open spec fn wf(&self) -> bool {
        self.life.wf() && self.orders.wf() && self.orders@.dom().len() > 0
    }
}

/// The records of one graph, and the local key-generation policy.
pub struct GraphState {
    nodes: IdMap<Life>,
    edges: IdMap<Edge>,
    /// Local key-generation policy, never persisted or synchronized.
    order_jitter: u8,
}

impl View for GraphState {
    type V = GraphView;

    closed spec fn view(&self) -> GraphView {
        GraphView {
            nodes: self.nodes@.map_values(|l: Life| l@),
            edges: self.edges@.map_values(|e: Edge| e@),
        }
    }
}

impl GraphState {
    /// Local key-generation policy: bytes of random suffix appended to generated keys.
    pub closed spec fn jitter(&self) -> u8 {
        self.order_jitter
    }

    pub fn order_jitter(&self) -> (r: u8)
        ensures
            r == self.jitter(),
    {
        self.order_jitter
    }

    pub fn set_order_jitter(&mut self, jitter: u8)
        ensures
            final(self)@ == old(self)@,
            final(self).jitter() == jitter,
            old(self).wf() ==> final(self).wf(),
    {
        self.order_jitter = jitter;
    }

    pub closed spec fn wf(&self) -> bool {
        &&& self.nodes.wf()
        &&& self.edges.wf()
        &&& forall|n: ID| #[trigger] self.nodes@.contains_key(n) ==> self.nodes@[n].wf()
        &&& forall|e: ID| #[trigger] self.edges@.contains_key(e) ==> self.edges@[e].wf()
    }

    /// An empty graph.
    pub fn new() -> (r: GraphState)
        ensures
            r.wf(),
            r@.nodes == Map::<ID, LifeView>::empty(),
            r@.edges == Map::<ID, EdgeView>::empty(),
            r.jitter() == 0,
    {
        let r = GraphState { nodes: IdMap::new(), edges: IdMap::new(), order_jitter: 0 };
        proof {
            assert(r@.nodes =~= Map::<ID, LifeView>::empty());
            assert(r@.edges =~= Map::<ID, EdgeView>::empty());
        }
        r
    }

    /// Node `n` is recorded and alive.
    pub fn node_is_alive(&self, n: ID) -> (r: bool)
        requires
            self.wf(),
        ensures
            r == node_alive(self@, n),
    {
        match self.nodes.get(n) {
            Some(life) => life.alive(),
            None => false,
        }
    }

    pub fn has_node(&self, n: ID) -> (r: bool)
        requires
            self.wf(),
        ensures
            r == self@.nodes.contains_key(n),
    {
        self.nodes.contains_key(n)
    }

    pub fn has_edge(&self, e: ID) -> (r: bool)
        requires
            self.wf(),
        ensures
            r == self@.edges.contains_key(e),
    {
        self.edges.contains_key(e)
    }

    /// The record of a node: lifecycle state, visibility and active delete tags.
    pub fn node_record(&self, id: GraphNodeId) -> (r: Option<GraphNode>)
        requires
            self.wf(),
        ensures
            node_record_ok(self@, id.spec_id(), r),
    {
        match self.nodes.get(id.id()) {
            Some(life) => {
                let alive = life.alive();
                Some(GraphNode { id, alive, visible: alive, delete_tags: life.active() })
            },
            None => None,
        }
    }

    /// The node and edge records, ascending by identity, with what they describe.
    pub fn entries(&self) -> (r: (&Vec<(ID, Life)>, &Vec<(ID, Edge)>))
        requires
            self.wf(),
        ensures
            forall|k: int| 0 <= k < r.0@.len() ==> (#[trigger] r.0@[k]).1.wf(),
            forall|k: int| 0 <= k < r.1@.len() ==> (#[trigger] r.1@[k]).1.wf(),
            crate::idmap::fold_pairs(r.0@).map_values(|l: Life| l@) == self@.nodes,
            crate::idmap::fold_pairs(r.1@).map_values(|e: Edge| e@) == self@.edges,
    {
        proof {
            crate::idmap::lemma_fold_view(&self.nodes);
            crate::idmap::lemma_fold_view(&self.edges);
            assert forall|k: int| 0 <= k < self.nodes.entries@.len() implies (#[trigger] self.nodes.entries@[k]).1.wf() by {
                self.nodes.lemma_at(k);
            }
            assert forall|k: int| 0 <= k < self.edges.entries@.len() implies (#[trigger] self.edges.entries@[k]).1.wf() by {
                self.edges.lemma_at(k);
            }
        }
        (&self.nodes.entries, &self.edges.entries)
    }

    /// A graph state from well-formed records, with the default key policy.
    pub fn from_parts(nodes: IdMap<Life>, edges: IdMap<Edge>) -> (r: GraphState)
        requires
            nodes.wf(),
            edges.wf(),
            forall|n: ID| #[trigger] nodes@.contains_key(n) ==> nodes@[n].wf(),
            forall|e: ID| #[trigger] edges@.contains_key(e) ==> edges@[e].wf(),
        ensures
            r.wf(),
            r@ == (GraphView { nodes: nodes@.map_values(|l: Life| l@), edges: edges@.map_values(|e: Edge| e@) }),
            r.jitter() == 0,
    {
        GraphState { nodes, edges, order_jitter: 0 }
    }

    /// Push the delete and restore changes of one lifecycle.
    fn push_life_history(ops: &mut Vec<GraphChange>, life: &Life, obj: ID, is_node: bool, Ghost(g): Ghost<GraphView>)
        requires
            life.wf(),
            is_node ==> g.nodes.contains_key(obj) && g.nodes[obj] == life@,
            !is_node ==> g.edges.contains_key(obj) && g.edges[obj].life == life@,
            forall|k: int| 0 <= k < old(ops)@.len() ==> history_change(g, #[trigger] old(ops)@[k]),
        ensures
            forall|k: int| 0 <= k < final(ops)@.len() ==> history_change(g, #[trigger] final(ops)@[k]),
            forall|c: GraphChange| #[trigger] old(ops)@.contains(c) ==> final(ops)@.contains(c),
            life_listed(life@, final(ops)@, obj, is_node),
            final(ops)@.len() >= old(ops)@.len(),
            forall|k: int| 0 <= k < old(ops)@.len() ==> final(ops)@[k] == old(ops)@[k],
            distinct_from(final(ops)@, old(ops)@.len() as int),
            forall|k: int| old(ops)@.len() <= k < final(ops)@.len() ==> op_object((#[trigger] final(ops)@[k]).op) == obj
                && life_op(final(ops)@[k].op, is_node),
    {
        let ghost o0 = ops@;
        proof {
            life.deletes.lemma_view();
            life.restores.lemma_view();
        }
        let mut k: usize = 0;
        while k < life.deletes.len()
            invariant
                life.wf(),
                is_node ==> g.nodes.contains_key(obj) && g.nodes[obj] == life@,
                !is_node ==> g.edges.contains_key(obj) && g.edges[obj].life == life@,
                k <= life.deletes.entries@.len(),
                forall|q: int| 0 <= q < ops@.len() ==> history_change(g, #[trigger] ops@[q]),
                forall|c: GraphChange| #[trigger] o0.contains(c) ==> ops@.contains(c),
                ops@.len() == o0.len() + k,
                forall|j: int| 0 <= j < o0.len() ==> ops@[j] == o0[j],
                forall|j: int| 0 <= j < k ==> (#[trigger] ops@[o0.len() + j]).id == life.deletes.entries@[j].0
                    && ops@[o0.len() + j].op == delete_op(obj, is_node),
                forall|q: int|
                    0 <= q < k ==> ops@.contains(
                        GraphChange {
                            id: (#[trigger] life.deletes.entries@[q]).0,
                            lamport: life@.deletes[life.deletes.entries@[q].0],
                            op: delete_op(obj, is_node),
                            forward: true,
                        },
                    ),
            decreases life.deletes.entries@.len() - k,
        {
            let t = life.deletes.key_at(k);
            let lp = *life.deletes.value_at(k);
            proof { life.deletes.lemma_at(k as int); }
            let op = if is_node { GraphOp::DeleteNode { id: GraphNodeId::from_id(obj) } } else { GraphOp::DeleteEdge { id: GraphEdgeId::from_id(obj) } };
            let ghost before = ops@;
            let c = GraphChange { id: t, lamport: lp, op, forward: true };
            proof {
                assert(c == GraphChange { id: t, lamport: life@.deletes[t], op: delete_op(obj, is_node), forward: true });
            }
            ops.push(c);
            proof {
                lemma_push_grows(before, c);
            }
            k += 1;
        }
        let ghost o1 = ops@;
        let mut k: usize = 0;
        while k < life.restores.len()
            invariant
                life.wf(),
                is_node ==> g.nodes.contains_key(obj) && g.nodes[obj] == life@,
                !is_node ==> g.edges.contains_key(obj) && g.edges[obj].life == life@,
                k <= life.restores.entries@.len(),
                forall|q: int| 0 <= q < ops@.len() ==> history_change(g, #[trigger] ops@[q]),
                forall|c: GraphChange| #[trigger] o1.contains(c) ==> ops@.contains(c),
                ops@.len() == o1.len() + k,
                forall|j: int| 0 <= j < o1.len() ==> ops@[j] == o1[j],
                forall|j: int| 0 <= j < k ==> (#[trigger] ops@[o1.len() + j]).id == life.restores.entries@[j].0
                    && op_object(ops@[o1.len() + j].op) == obj
                    && (if is_node { ops@[o1.len() + j].op is RestoreNode } else { ops@[o1.len() + j].op is RestoreEdge }),
                forall|q: int|
                    0 <= q < k ==> exists|c: GraphChange|
                        #[trigger] ops@.contains(c) && c.id == (#[trigger] life.restores.entries@[q]).0 && c.forward && c.lamport
                            == life@.restores[life.restores.entries@[q].0].0 && restore_about(
                            c.op,
                            obj,
                            is_node,
                            life@.restores[life.restores.entries@[q].0].1,
                        ),
            decreases life.restores.entries@.len() - k,
        {
            let t = life.restores.key_at(k);
            let entry = life.restores.value_at(k);
            proof {
                life.restores.lemma_at(k as int);
                assert(life@.restores[t] == (entry.0, entry.1@));
            }
            let tags = crate::life::copy_ids(&entry.1);
            let op = if is_node {
                GraphOp::RestoreNode { id: GraphNodeId::from_id(obj), deletes: tags }
            } else {
                GraphOp::RestoreEdge { id: GraphEdgeId::from_id(obj), deletes: tags }
            };
            let ghost before = ops@;
            let c = GraphChange { id: t, lamport: entry.0, op, forward: true };
            ops.push(c);
            proof {
                lemma_push_grows(before, c);
                assert(restore_about(c.op, obj, is_node, life@.restores[t].1));
                assert forall|q: int|
                    0 <= q < k + 1 implies exists|c2: GraphChange|
                        #[trigger] ops@.contains(c2) && c2.id == (#[trigger] life.restores.entries@[q]).0 && c2.forward
                            && c2.lamport == life@.restores[life.restores.entries@[q].0].0 && restore_about(
                            c2.op,
                            obj,
                            is_node,
                            life@.restores[life.restores.entries@[q].0].1,
                        ) by {
                    if q < k {
                        let c2 = choose|c2: GraphChange|
                            #[trigger] before.contains(c2) && c2.id == life.restores.entries@[q].0 && c2.forward
                                && c2.lamport == life@.restores[life.restores.entries@[q].0].0 && restore_about(
                                c2.op,
                                obj,
                                is_node,
                                life@.restores[life.restores.entries@[q].0].1,
                            );
                        assert(ops@.contains(c2));
                    } else {
                        assert(ops@.contains(c));
                    }
                }
            }
            k += 1;
        }
        proof {
            assert forall|t: ID| #[trigger] life@.deletes.contains_key(t) implies ops@.contains(
                GraphChange { id: t, lamport: life@.deletes[t], op: delete_op(obj, is_node), forward: true },
            ) by {
                let q = choose|q: int| 0 <= q < life.deletes.entries@.len() && life.deletes.entries@[q].0 == t;
                assert(o1.contains(
                    GraphChange {
                        id: life.deletes.entries@[q].0,
                        lamport: life@.deletes[life.deletes.entries@[q].0],
                        op: delete_op(obj, is_node),
                        forward: true,
                    },
                ));
            }
            assert forall|r: ID| #[trigger] life@.restores.contains_key(r) implies exists|c: GraphChange|
                #[trigger] ops@.contains(c) && c.id == r && c.forward && c.lamport == life@.restores[r].0 && restore_about(
                    c.op,
                    obj,
                    is_node,
                    life@.restores[r].1,
                ) by {
                assert(life.restores@.contains_key(r));
                let q = choose|q: int| 0 <= q < life.restores.entries@.len() && life.restores.entries@[q].0 == r;
                assert(life.restores.entries@[q].0 == r);
            }
        }
        proof {
            let nd = life.deletes.entries@.len();
            assert(o1.len() == o0.len() + nd);
            assert forall|x: int, y: int| o0.len() <= x < y < ops@.len() implies #[trigger] ops@[x] != #[trigger] ops@[y] by {
                if y < o1.len() {
                    assert(ops@[x] == o1[x] && ops@[y] == o1[y]);
                    let jx = x - o0.len();
                    let jy = y - o0.len();
                    assert(o1[o0.len() + jx].id == life.deletes.entries@[jx].0);
                    assert(o1[o0.len() + jy].id == life.deletes.entries@[jy].0);
                    assert(life.deletes.keys()[jx] == life.deletes.entries@[jx].0);
                    assert(life.deletes.keys()[jy] == life.deletes.entries@[jy].0);
                    assert(crate::ids::id_lt(life.deletes.keys()[jx], life.deletes.keys()[jy]));
                } else if x < o1.len() {
                    assert(ops@[x] == o1[x]);
                    let jx = x - o0.len();
                    assert(o1[o0.len() + jx].op == delete_op(obj, is_node));
                    let jy = y - o1.len();
                    assert(ops@[o1.len() + jy] == ops@[y]);
                } else {
                    let jx = x - o1.len();
                    let jy = y - o1.len();
                    assert(ops@[o1.len() + jx] == ops@[x]);
                    assert(ops@[o1.len() + jy] == ops@[y]);
                    assert(life.restores.keys()[jx] == life.restores.entries@[jx].0);
                    assert(life.restores.keys()[jy] == life.restores.entries@[jy].0);
                    assert(crate::ids::id_lt(life.restores.keys()[jx], life.restores.keys()[jy]));
                }
            }
            assert forall|k: int| o0.len() <= k < ops@.len() implies op_object((#[trigger] ops@[k]).op) == obj
                && life_op(ops@[k].op, is_node) by {
                if k < o1.len() {
                    assert(ops@[k] == o1[k]);
                    let j = k - o0.len();
                    assert(o1[o0.len() + j].op == delete_op(obj, is_node));
                } else {
                    let j = k - o1.len();
                    assert(ops@[o1.len() + j] == ops@[k]);
                }
            }
            assert forall|j: int| 0 <= j < o0.len() implies ops@[j] == o0[j] by {
                assert(ops@[j] == o1[j]);
            }
        }
    }

    /// The whole recorded history as a diff from the empty graph: each creation,
    /// delete, restore and order write as a forward change, ordered by Lamport
    /// clock and then peer, with the current record of every node and edge and
    /// every edge's winning order.
    pub fn to_diff(&self) -> (r: GraphDiff)
        requires
            self.wf(),
            creations_kept(self@),
        ensures
            r.wf(),
            forall|i: int| 0 <= i < r.ops@.len() ==> history_change(self@, #[trigger] r.ops@[i]),
            forall|i: int, j: int| 0 <= i < j < r.ops@.len() ==> clock_le(#[trigger] r.ops@[i], #[trigger] r.ops@[j]),
            forall|n: ID| #[trigger] r.nodes@.contains_key(n) <==> self@.nodes.contains_key(n),
            forall|n: ID| #[trigger] r.nodes@.contains_key(n) ==> r.nodes@[n] is Some && node_record_ok(self@, n, r.nodes@[n]),
            forall|e: ID| #[trigger] r.edges@.contains_key(e) <==> self@.edges.contains_key(e),
            forall|e: ID| #[trigger] r.edges@.contains_key(e) ==> r.edges@[e] is Some && edge_record_ok(self@, e, r.edges@[e]),
            forall|e: ID| #[trigger] r.orders@.contains_key(e) <==> self@.edges.contains_key(e),
            forall|e: ID| #[trigger] r.orders@.contains_key(e) ==> r.orders@[e].source.spec_id() == self@.edges[e].source
                && r.orders@[e].before is None && order_view(r.orders@[e].after) == order_of(self@, e),
            forall|n: ID| #[trigger] self@.nodes.contains_key(n) ==> node_listed(self@, r.ops@, n),
            forall|e: ID| #[trigger] self@.edges.contains_key(e) ==> edge_listed(self@, r.ops@, e),
            // no change is listed twice
            r.ops@.no_duplicates(),
    {
        let ghost g = self@;
        let mut ops: Vec<GraphChange> = Vec::new();
        let mut nodes: IdMap<Option<GraphNode>> = IdMap::new();
        let mut i: usize = 0;
        while i < self.nodes.len()
            invariant
                self.wf(),
                g == self@,
                i <= self.nodes.entries@.len(),
                nodes.wf(),
                forall|q: int| 0 <= q < ops@.len() ==> history_change(g, #[trigger] ops@[q]),
                forall|x: ID| #[trigger] nodes@.contains_key(x) <==> self.nodes.keys().subrange(0, i as int).contains(x),
                forall|x: ID| #[trigger] nodes@.contains_key(x) ==> nodes@[x] is Some && node_record_ok(g, x, nodes@[x]),
                forall|x: ID| #[trigger] nodes@.contains_key(x) ==> node_listed(g, ops@, x),
                ops@.no_duplicates(),
                forall|q: int| 0 <= q < ops@.len() ==> op_is_node((#[trigger] ops@[q]).op)
                    && self.nodes.keys().subrange(0, i as int).contains(op_object(ops@[q].op)),
            decreases self.nodes.entries@.len() - i,
        {
            let n = self.nodes.key_at(i);
            let life = self.nodes.value_at(i);
            proof { self.nodes.lemma_at(i as int); }
            let ghost before = ops@;
            let created = GraphChange { id: n, lamport: life.created_at, op: GraphOp::CreateNode { id: GraphNodeId::from_id(n) }, forward: true };
            ops.push(created);
            let ghost mid = ops@;
            proof {
                lemma_push_grows(before, created);
            }
            proof {
                assert forall|q: int| 0 <= q < before.len() implies op_object((#[trigger] before[q]).op) != n by {
                    let x = op_object(before[q].op);
                    let sub = self.nodes.keys().subrange(0, i as int);
                    let j = choose|j: int| 0 <= j < sub.len() && sub[j] == x;
                    assert(self.nodes.keys()[j] == x);
                    assert(crate::ids::id_lt(self.nodes.keys()[j], self.nodes.keys()[i as int]));
                }
                assert forall|x: int, y: int| 0 <= x < y < mid.len() implies #[trigger] mid[x] != #[trigger] mid[y] by {
                    if y == before.len() {
                        assert(mid[x] == before[x]);
                    } else {
                        assert(mid[x] == before[x] && mid[y] == before[y]);
                    }
                }
            }
            Self::push_life_history(&mut ops, life, n, true, Ghost(g));
            proof {
                assert forall|x: int, y: int| 0 <= x < y < ops@.len() implies #[trigger] ops@[x] != #[trigger] ops@[y] by {
                    if y < mid.len() {
                        assert(ops@[x] == mid[x] && ops@[y] == mid[y]);
                        assert(mid.no_duplicates());
                    } else if x >= mid.len() {
                    } else {
                        assert(ops@[x] == mid[x]);
                        assert(op_object(ops@[y].op) == n && life_op(ops@[y].op, true));
                        if x < before.len() {
                            assert(mid[x] == before[x]);
                        }
                    }
                }
                let sub1 = self.nodes.keys().subrange(0, i + 1);
                assert(sub1[i as int] == n);
                assert forall|q: int| 0 <= q < ops@.len() implies op_is_node((#[trigger] ops@[q]).op)
                    && self.nodes.keys().subrange(0, i + 1).contains(op_object(ops@[q].op)) by {
                    if q < before.len() {
                        assert(ops@[q] == mid[q] && mid[q] == before[q]);
                        let sub = self.nodes.keys().subrange(0, i as int);
                        let x = op_object(before[q].op);
                        let j = choose|j: int| 0 <= j < sub.len() && sub[j] == x;
                        assert(sub1[j] == x);
                    } else if q < mid.len() {
                        assert(ops@[q] == mid[q]);
                    }
                }
                assert forall|c: GraphChange| #[trigger] before.contains(c) implies ops@.contains(c) by {
                    assert(mid.contains(c));
                }
                lemma_listed_grow(g, before, ops@);
                assert(ops@.contains(created));
                assert(node_listed(g, ops@, n));
            }
            let rec = self.node_record(GraphNodeId::from_id(n));
            nodes.insert(n, rec);
            proof {
                let a = self.nodes.keys().subrange(0, i as int);
                let b = self.nodes.keys().subrange(0, i + 1);
                assert(b == a.push(n));
                assert forall|x: ID| #[trigger] nodes@.contains_key(x) <==> b.contains(x) by {
                    if a.contains(x) {
                        let k = choose|k: int| 0 <= k < a.len() && a[k] == x;
                        assert(b[k] == x);
                    }
                    if b.contains(x) && x != n {
                        let k = choose|k: int| 0 <= k < b.len() && b[k] == x;
                        assert(a[k] == x);
                    }
                    if x == n {
                        assert(b[i as int] == x);
                    }
                }
                assert forall|x: ID| #[trigger] nodes@.contains_key(x) implies node_listed(g, ops@, x) by {
                    if x != n {
                        assert(a.contains(x));
                        assert(node_listed(g, before, x));
                    }
                }
            }
            i += 1;
        }
        proof {
            assert forall|x: ID| #[trigger] g.nodes.contains_key(x) implies node_listed(g, ops@, x) by {
                self.nodes.lemma_view();
                let q = choose|q: int| 0 <= q < self.nodes.entries@.len() && self.nodes.entries@[q].0 == x;
                assert(self.nodes.keys()[q] == x);
                assert(self.nodes.keys().subrange(0, self.nodes.entries@.len() as int) =~= self.nodes.keys());
                assert(nodes@.contains_key(x));
            }
        }
        let mut edges: IdMap<Option<GraphEdge>> = IdMap::new();
        let mut orders: IdMap<GraphOrderDelta> = IdMap::new();
        let mut i: usize = 0;
        while i < self.edges.len()
            invariant
                self.wf(),
                g == self@,
                creations_kept(g),
                i <= self.edges.entries@.len(),
                edges.wf(),
                orders.wf(),
                forall|q: int| 0 <= q < ops@.len() ==> history_change(g, #[trigger] ops@[q]),
                forall|x: ID| #[trigger] edges@.contains_key(x) <==> self.edges.keys().subrange(0, i as int).contains(x),
                forall|x: ID| #[trigger] edges@.contains_key(x) ==> edges@[x] is Some && edge_record_ok(g, x, edges@[x]),
                forall|x: ID| #[trigger] orders@.contains_key(x) <==> self.edges.keys().subrange(0, i as int).contains(x),
                forall|x: ID| #[trigger] orders@.contains_key(x) ==> orders@[x].source.spec_id() == g.edges[x].source
                    && orders@[x].before is None && order_view(orders@[x].after) == order_of(g, x),
                forall|x: ID| #[trigger] g.nodes.contains_key(x) ==> node_listed(g, ops@, x),
                forall|x: ID| #[trigger] edges@.contains_key(x) ==> edge_listed(g, ops@, x),
                ops@.no_duplicates(),
                forall|q: int| 0 <= q < ops@.len() ==> op_is_node((#[trigger] ops@[q]).op)
                    || self.edges.keys().subrange(0, i as int).contains(op_object(ops@[q].op)),
            decreases self.edges.entries@.len() - i,
        {
            let e = self.edges.key_at(i);
            let edge = self.edges.value_at(i);
            proof {
                self.edges.lemma_at(i as int);
                assert(g.edges[e] == edge@);
            }
            let creation = IdLp { lamport: edge.life.created_at, peer: e.peer };
            let position = match edge.orders.get(creation) {
                Some((_, p)) => p.clone(),
                None => {
                    proof {
                        assert(g.edges.contains_key(e));
                        assert(false);
                    }
                    GraphPosition::duplicate(&edge.orders.writes[0].2)
                },
            };
            let ghost before = ops@;
            let created = GraphChange {
                id: e,
                lamport: edge.life.created_at,
                op: GraphOp::CreateEdge { id: GraphEdgeId::from_id(e), source: edge.source, target: edge.target, position },
                forward: true,
            };
            proof {
                assert forall|q: int| 0 <= q < before.len() && !op_is_node((#[trigger] before[q]).op) implies op_object(before[q].op) != e by {
                    let x = op_object(before[q].op);
                    let sub = self.edges.keys().subrange(0, i as int);
                    let j = choose|j: int| 0 <= j < sub.len() && sub[j] == x;
                    assert(self.edges.keys()[j] == x);
                    assert(crate::ids::id_lt(self.edges.keys()[j], self.edges.keys()[i as int]));
                }
            }
            ops.push(created);
            proof {
                lemma_push_grows(before, created);
                assert forall|x: int, y: int| 0 <= x < y < ops@.len() implies #[trigger] ops@[x] != #[trigger] ops@[y] by {
                    if y == before.len() {
                        assert(ops@[x] == before[x]);
                    } else {
                        assert(ops@[x] == before[x] && ops@[y] == before[y]);
                    }
                }
            }
            let ghost m0 = ops@;
            let mut k: usize = 0;
            while k < edge.orders.writes.len()
                invariant
                    edge.wf(),
                    g.edges.contains_key(e),
                    g.edges[e] == edge@,
                    k <= edge.orders.writes@.len(),
                    forall|q: int| 0 <= q < ops@.len() ==> history_change(g, #[trigger] ops@[q]),
                    forall|c: GraphChange| #[trigger] before.contains(c) ==> ops@.contains(c),
                    ops@.contains(created),
                    ops@.no_duplicates(),
                    ops@.len() >= m0.len(),
                    forall|q: int| 0 <= q < m0.len() ==> ops@[q] == m0[q],
                    forall|q: int| 0 <= q < before.len() && !op_is_node((#[trigger] before[q]).op) ==> op_object(before[q].op) != e,
                    m0.len() == before.len() + 1,
                    m0[before.len() as int] == created,
                    created.op is CreateEdge,
                    forall|q: int| 0 <= q < before.len() ==> m0[q] == before[q],
                    forall|q: int| m0.len() <= q < ops@.len() ==> ((#[trigger] ops@[q]).op is SetEdgeOrder && op_object(ops@[q].op) == e
                        && exists|j: int| 0 <= j < k && (#[trigger] edge.orders.writes@[j]).0.peer == ops@[q].id.peer
                            && edge.orders.writes@[j].0.lamport == ops@[q].lamport),
                    forall|q: int|
                        0 <= q < k && (ID { peer: (#[trigger] edge.orders.writes@[q]).0.peer, counter: edge.orders.writes@[q].1 }) != e
                            ==> order_write_listed(g, ops@, e, edge.orders.writes@[q].0),
                decreases edge.orders.writes@.len() - k,
            {
                let (w, counter, p) = (edge.orders.writes[k].0, edge.orders.writes[k].1, &edge.orders.writes[k].2);
                proof { edge.orders.lemma_entry(k as int); }
                let writer = ID { peer: w.peer, counter };
                if writer != e {
                    let ghost o0 = ops@;
                    let c = GraphChange {
                        id: writer,
                        lamport: w.lamport,
                        op: GraphOp::SetEdgeOrder { id: GraphEdgeId::from_id(e), position: p.clone() },
                        forward: true,
                    };
                    proof {
                        assert(op_object(c.op) == e && c.op is SetEdgeOrder);
                        assert(w == edge.orders.writes@[k as int].0);
                        assert forall|q: int| 0 <= q < o0.len() implies o0[q] != c by {
                            if q < before.len() {
                                assert(o0[q] == m0[q] && m0[q] == before[q]);
                                if !op_is_node(before[q].op) {
                                    assert(op_object(before[q].op) != e);
                                    assert(o0[q] != c);
                                } else {
                                    assert(!op_is_node(c.op));
                                    assert(o0[q] != c);
                                }
                            } else if q == before.len() {
                                assert(o0[q] == m0[q]);
                                assert(o0[q] == created);
                            } else {
                                assert(m0.len() <= q);
                                let j = choose|j: int| 0 <= j < k && (#[trigger] edge.orders.writes@[j]).0.peer == o0[q].id.peer
                                    && edge.orders.writes@[j].0.lamport == o0[q].lamport;
                                assert(edge.orders.writes@[j].0 != edge.orders.writes@[k as int].0);
                                if o0[q] == c {
                                    assert(edge.orders.writes@[j].0 == (IdLp { lamport: w.lamport, peer: w.peer }));
                                    assert(false);
                                }
                            }
                        }
                    }
                    ops.push(c);
                    proof {
                        lemma_push_grows(o0, c);
                        assert forall|x: int, y: int| 0 <= x < y < ops@.len() implies #[trigger] ops@[x] != #[trigger] ops@[y] by {
                            if y == o0.len() {
                                assert(ops@[x] == o0[x]);
                            } else {
                                assert(ops@[x] == o0[x] && ops@[y] == o0[y]);
                            }
                        }
                        assert forall|q: int| m0.len() <= q < ops@.len() implies ((#[trigger] ops@[q]).op is SetEdgeOrder && op_object(ops@[q].op) == e
                            && exists|j: int| 0 <= j < k + 1 && (#[trigger] edge.orders.writes@[j]).0.peer == ops@[q].id.peer
                                && edge.orders.writes@[j].0.lamport == ops@[q].lamport) by {
                            if q < o0.len() {
                                assert(ops@[q] == o0[q]);
                            } else {
                                assert(ops@[q] == c);
                                assert(edge.orders.writes@[k as int].0 == w);
                            }
                        }
                        lemma_listed_grow(g, o0, ops@);
                        assert(g.edges[e].orders[w] == (counter, p@));
                        assert(order_write_listed(g, ops@, e, w));
                        assert forall|q: int|
                            0 <= q < k + 1 && (ID { peer: (#[trigger] edge.orders.writes@[q]).0.peer, counter: edge.orders.writes@[q].1 }) != e
                                implies order_write_listed(g, ops@, e, edge.orders.writes@[q].0) by {
                            if q < k {
                                assert(order_write_listed(g, o0, e, edge.orders.writes@[q].0));
                            }
                        }
                    }
                }
                k += 1;
            }
            let ghost mid = ops@;
            Self::push_life_history(&mut ops, &edge.life, e, false, Ghost(g));
            proof {
                assert forall|x: int, y: int| 0 <= x < y < ops@.len() implies #[trigger] ops@[x] != #[trigger] ops@[y] by {
                    if y < mid.len() {
                        assert(ops@[x] == mid[x] && ops@[y] == mid[y]);
                        assert(mid.no_duplicates());
                    } else if x >= mid.len() {
                    } else {
                        assert(ops@[x] == mid[x]);
                        assert(op_object(ops@[y].op) == e && life_op(ops@[y].op, false));
                        if x < before.len() {
                            assert(mid[x] == m0[x] && m0[x] == before[x]);
                        } else if x == before.len() {
                            assert(mid[x] == m0[x]);
                        }
                    }
                }
                let sub1 = self.edges.keys().subrange(0, i + 1);
                assert(sub1[i as int] == e);
                assert forall|q: int| 0 <= q < ops@.len() implies op_is_node((#[trigger] ops@[q]).op)
                    || self.edges.keys().subrange(0, i + 1).contains(op_object(ops@[q].op)) by {
                    if q < before.len() {
                        assert(ops@[q] == mid[q] && mid[q] == m0[q] && m0[q] == before[q]);
                        if !op_is_node(before[q].op) {
                            let sub = self.edges.keys().subrange(0, i as int);
                            let x = op_object(before[q].op);
                            let j = choose|j: int| 0 <= j < sub.len() && sub[j] == x;
                            assert(sub1[j] == x);
                        }
                    } else if q < mid.len() {
                        assert(ops@[q] == mid[q]);
                        if q == before.len() {
                            assert(mid[q] == m0[q]);
                        }
                    }
                }
                assert forall|c: GraphChange| #[trigger] before.contains(c) implies ops@.contains(c) by {
                    assert(mid.contains(c));
                }
                lemma_listed_grow(g, mid, ops@);
                lemma_listed_grow(g, before, ops@);
                assert(ops@.contains(created));
                assert forall|w: IdLp|
                    #[trigger] g.edges[e].orders.contains_key(w) && (ID { peer: w.peer, counter: g.edges[e].orders[w].0 }) != e
                        implies order_write_listed(g, ops@, e, w) by {
                    let q = choose|q: int| 0 <= q < edge.orders.writes@.len() && #[trigger] edge.orders.writes@[q].0 == w;
                    edge.orders.lemma_entry(q);
                    assert(order_write_listed(g, mid, e, w));
                }
                assert(edge_listed(g, ops@, e));
            }
            let rec = self.edge_record(GraphEdgeId::from_id(e));
            edges.insert(e, rec);
            let after = self.order_value(e);
            orders.insert(e, GraphOrderDelta { source: edge.source, before: None, after });
            proof {
                let a = self.edges.keys().subrange(0, i as int);
                let b = self.edges.keys().subrange(0, i + 1);
                assert(b == a.push(e));
                assert forall|x: ID| #[trigger] edges@.contains_key(x) <==> b.contains(x) by {
                    if a.contains(x) {
                        let k = choose|k: int| 0 <= k < a.len() && a[k] == x;
                        assert(b[k] == x);
                    }
                    if b.contains(x) && x != e {
                        let k = choose|k: int| 0 <= k < b.len() && b[k] == x;
                        assert(a[k] == x);
                    }
                    if x == e {
                        assert(b[i as int] == x);
                    }
                }
                assert forall|x: ID| #[trigger] orders@.contains_key(x) <==> b.contains(x) by {
                    assert(orders@.contains_key(x) <==> edges@.contains_key(x));
                }
                assert forall|x: ID| #[trigger] edges@.contains_key(x) implies edge_listed(g, ops@, x) by {
                    if x != e {
                        assert(a.contains(x));
                        assert(edge_listed(g, before, x));
                    }
                }
                assert forall|x: ID| #[trigger] g.nodes.contains_key(x) implies node_listed(g, ops@, x) by {
                    assert(node_listed(g, before, x));
                }
            }
            i += 1;
        }
        proof {
            assert(self.nodes.keys().subrange(0, self.nodes.entries@.len() as int) =~= self.nodes.keys());
            assert(self.edges.keys().subrange(0, self.edges.entries@.len() as int) =~= self.edges.keys());
        }
        let ghost unsorted = ops@;
        let sorted = sort_changes(ops, Ghost(g));
        proof {
            unsorted.unique_seq_to_set();
            assert(sorted@.to_set() =~= unsorted.to_set());
            sorted@.lemma_no_dup_set_cardinality();
            lemma_listed_grow(g, unsorted, sorted@);
            assert forall|x: ID| #[trigger] g.edges.contains_key(x) implies edge_listed(g, sorted@, x) by {
                self.edges.lemma_view();
                let q = choose|q: int| 0 <= q < self.edges.entries@.len() && self.edges.entries@[q].0 == x;
                assert(self.edges.keys()[q] == x);
                assert(edges@.contains_key(x));
                assert(edge_listed(g, unsorted, x));
            }
            assert forall|x: ID| #[trigger] g.nodes.contains_key(x) implies node_listed(g, sorted@, x) by {
                assert(node_listed(g, unsorted, x));
            }
        }
        GraphDiff { ops: sorted, nodes, edges, orders }
    }

    /// An independent copy with the same records and policy.
    pub fn duplicate(&self) -> (r: GraphState)
        requires
            self.wf(),
        ensures
            r.wf(),
            r@ == self@,
            r.jitter() == self.jitter(),
    {
        let mut nodes: Vec<(ID, Life)> = Vec::new();
        let mut i: usize = 0;
        while i < self.nodes.entries.len()
            invariant
                self.wf(),
                i <= self.nodes.entries@.len(),
                nodes@.len() == i,
                forall|k: int| 0 <= k < i ==> (#[trigger] nodes@[k]).0 == self.nodes.entries@[k].0
                    && nodes@[k].1@ == self.nodes.entries@[k].1@ && nodes@[k].1.wf(),
            decreases self.nodes.entries@.len() - i,
        {
            proof { self.nodes.lemma_at(i as int); }
            let e = &self.nodes.entries[i];
            nodes.push((e.0, e.1.duplicate()));
            i += 1;
        }
        let mut edges: Vec<(ID, Edge)> = Vec::new();
        let mut i: usize = 0;
        while i < self.edges.entries.len()
            invariant
                self.wf(),
                i <= self.edges.entries@.len(),
                edges@.len() == i,
                forall|k: int| 0 <= k < i ==> (#[trigger] edges@[k]).0 == self.edges.entries@[k].0
                    && edges@[k].1@ == self.edges.entries@[k].1@ && edges@[k].1.wf(),
            decreases self.edges.entries@.len() - i,
        {
            proof { self.edges.lemma_at(i as int); }
            let e = &self.edges.entries[i];
            let copy = Edge { source: e.1.source, target: e.1.target, life: e.1.life.duplicate(), orders: e.1.orders.duplicate() };
            edges.push((e.0, copy));
            i += 1;
        }
        let r = GraphState { nodes: IdMap { entries: nodes }, edges: IdMap { entries: edges }, order_jitter: self.order_jitter };
        proof {
            assert(r.nodes.keys() =~= self.nodes.keys());
            assert(r.edges.keys() =~= self.edges.keys());
            assert forall|n: ID| #[trigger] r.nodes@.contains_key(n) implies r.nodes@[n]@ == self.nodes@[n]@ && r.nodes@[n].wf() by {
                let j = r.nodes.keys().index_of(n);
                r.nodes.lemma_at(j);
                self.nodes.lemma_at(j);
            }
            assert forall|e: ID| #[trigger] r.edges@.contains_key(e) implies r.edges@[e]@ == self.edges@[e]@ && r.edges@[e].wf() by {
                let j = r.edges.keys().index_of(e);
                r.edges.lemma_at(j);
                self.edges.lemma_at(j);
            }
            assert(r@.nodes =~= self@.nodes);
            assert(r@.edges =~= self@.edges);
        }
        r
    }

    /// What applying one change would report, without applying it: the change is
    /// validated as a batch of its own, and the diff is that of its application.
    pub fn preview(&self, change: GraphChange) -> (r: Result<GraphDiff, GraphError>)
        requires
            self.wf(),
            !change.forward ==> step_ok(self@, change),
        ensures
            match r {
                Ok(d) => validation_result(self@, seq![change]) is Ok && diff_ok(self@, seq![change], d),
                Err(e) => validation_result(self@, seq![change]) == Err::<(), GraphError>(e),
            },
    {
        let changes = vec![change];
        proof { assert(changes@ =~= seq![change]); }
        match self.validate_changes(&changes) {
            Err(e) => Err(e),
            Ok(()) => {
                proof {
                    if change.forward {
                        lemma_validated_batch_applies(self@, changes@);
                    } else {
                        assert(changes@.drop_last() =~= Seq::<GraphChange>::empty());
                        assert(changes@.last() == change);
                        assert(changes_ok(self@, changes@.drop_last()));
                        assert(run(self@, changes@.drop_last()) == self@);
                        assert(changes_ok(self@, changes@));
                    }
                }
                let mut local = self.duplicate();
                Ok(local.apply_changes(changes))
            },
        }
    }

    /// The lifecycle of a recorded node.
    pub fn node_life(&self, id: ID) -> (r: Option<&Life>)
        requires
            self.wf(),
        ensures
            r is None <==> !self@.nodes.contains_key(id),
            r matches Some(l) ==> l.wf() && l@ == self@.nodes[id],
    {
        self.nodes.get(id)
    }

    /// The lifecycle, source and target of a recorded edge.
    pub fn edge_life(&self, id: ID) -> (r: Option<(&Life, GraphNodeId, GraphNodeId)>)
        requires
            self.wf(),
        ensures
            r is None <==> !self@.edges.contains_key(id),
            r matches Some(x) ==> x.0.wf() && x.0@ == self@.edges[id].life && x.1.spec_id() == self@.edges[id].source
                && x.2.spec_id() == self@.edges[id].target,
    {
        match self.edges.get(id) {
            Some(e) => Some((&e.life, e.source, e.target)),
            None => None,
        }
    }

    /// The recorded edges whose source is `source`, ascending, alive or not.
    pub fn edges_from(&self, source: ID) -> (r: Vec<GraphEdgeId>)
        requires
            self.wf(),
        ensures
            forall|e: ID| #[trigger] edge_ids(r@).contains(e) <==> self@.edges.contains_key(e) && self@.edges[e].source == source,
            r@.len() <= self@.edges.dom().len(),
            forall|a: int, b: int| 0 <= a < b < r@.len() ==> id_lt((#[trigger] r@[a]).spec_id(), (#[trigger] r@[b]).spec_id()),
    {
        let mut r: Vec<GraphEdgeId> = Vec::new();
        let n = self.edges.len();
        let mut i: usize = 0;
        while i < n
            invariant
                self.wf(),
                n == self.edges.entries@.len(),
                i <= n,
                r@.len() <= i,
                forall|e: ID| #[trigger] edge_ids(r@).contains(e) <==> exists|k: int| 0 <= k < i && self.edges.keys()[k] == e
                    && self@.edges[e].source == source,
                forall|a: int, b: int| 0 <= a < b < r@.len() ==> id_lt((#[trigger] r@[a]).spec_id(), (#[trigger] r@[b]).spec_id()),
                i < n ==> forall|a: int| 0 <= a < r@.len() ==> id_lt((#[trigger] r@[a]).spec_id(), self.edges.keys()[i as int]),
            decreases n - i,
        {
            let k = self.edges.key_at(i);
            let src = self.edges.value_at(i).source;
            proof {
                self.edges.lemma_at(i as int);
                assert(self@.edges[k] == self.edges@[k]@);
                assert(self@.edges[k].source == src.spec_id());
            }
            let ghost r0 = r@;
            if src.id() == source {
                r.push(GraphEdgeId::from_id(k));
            }
            proof {
                assert forall|a: int, b: int| 0 <= a < b < r@.len() implies id_lt((#[trigger] r@[a]).spec_id(), (#[trigger] r@[b]).spec_id()) by {
                    if b >= r0.len() {
                        assert(r@[a] == r0[a]);
                    } else {
                        assert(r@[a] == r0[a] && r@[b] == r0[b]);
                    }
                }
                if i + 1 < n {
                    assert(id_lt(self.edges.keys()[i as int], self.edges.keys()[i + 1]));
                    assert forall|a: int| 0 <= a < r@.len() implies id_lt((#[trigger] r@[a]).spec_id(), self.edges.keys()[i + 1]) by {
                        if a < r0.len() {
                            assert(r@[a] == r0[a]);
                        }
                    }
                }
                assert forall|e: ID| #[trigger] edge_ids(r@).contains(e) <==> exists|q: int| 0 <= q < i + 1 && self.edges.keys()[q] == e
                    && self@.edges[e].source == source by {
                    let pushed = src.id() == source;
                    if pushed {
                        assert(edge_ids(r@) =~= edge_ids(r0).push(k));
                    } else {
                        assert(edge_ids(r@) =~= edge_ids(r0));
                    }
                    if edge_ids(r@).contains(e) {
                        if edge_ids(r0).contains(e) {
                            let q = choose|q: int| 0 <= q < i && self.edges.keys()[q] == e && self@.edges[e].source == source;
                            assert(0 <= q < i + 1);
                        } else {
                            let j = choose|j: int| 0 <= j < edge_ids(r@).len() && edge_ids(r@)[j] == e;
                            if j < edge_ids(r0).len() {
                                assert(edge_ids(r0)[j] == e);
                            }
                            assert(e == k);
                            assert(self.edges.keys()[i as int] == e);
                        }
                    }
                    if exists|q: int| 0 <= q < i + 1 && self.edges.keys()[q] == e && self@.edges[e].source == source {
                        let q = choose|q: int| 0 <= q < i + 1 && self.edges.keys()[q] == e && self@.edges[e].source == source;
                        if q < i {
                            assert(edge_ids(r0).contains(e));
                            let j = choose|j: int| 0 <= j < edge_ids(r0).len() && edge_ids(r0)[j] == e;
                            assert(edge_ids(r@)[j] == e);
                        } else {
                            assert(e == k);
                            assert(pushed);
                            assert(edge_ids(r@)[edge_ids(r0).len() as int] == e);
                        }
                    }
                }
            }
            i += 1;
        }
        proof {
            self.edges.lemma_view();
            assert forall|e: ID| #[trigger] edge_ids(r@).contains(e) <==> self@.edges.contains_key(e) && self@.edges[e].source == source by {
                if self@.edges.contains_key(e) && self@.edges[e].source == source {
                    let q = self.edges.keys().index_of(e);
                    assert(self.edges.keys()[q] == e);
                }
            }
            assert(self@.edges.dom() =~= self.edges@.dom());
        }
        r
    }

    /// The winning order register of an edge, if the edge is recorded.
    pub fn order_value(&self, e: ID) -> (r: Option<GraphOrderValue>)
        requires
            self.wf(),
        ensures
            order_view(r) == order_of(self@, e),
    {
        match self.edges.get(e) {
            Some(edge) => {
                let (position, last_order) = edge.orders.winner_full();
                Some(GraphOrderValue { position, last_order })
            },
            None => None,
        }
    }

    /// The record of an edge: endpoints, winning order, lifecycle state, visibility.
    pub fn edge_record(&self, id: GraphEdgeId) -> (r: Option<GraphEdge>)
        requires
            self.wf(),
        ensures
            edge_record_ok(self@, id.spec_id(), r),
    {
        match self.edges.get(id.id()) {
            Some(edge) => {
                let alive = edge.life.alive();
                let visible = alive && self.node_is_alive(edge.source.id()) && self.node_is_alive(edge.target.id());
                let (position, last_order) = edge.orders.winner_full();
                Some(GraphEdge {
                    id,
                    source: edge.source,
                    target: edge.target,
                    position,
                    last_order,
                    alive,
                    visible,
                    delete_tags: edge.life.active(),
                })
            },
            None => None,
        }
    }

    /// The recorded edges that name `n` as source or target, ascending.
    pub fn incident(&self, n: ID) -> (r: Vec<ID>)
        requires
            self.wf(),
        ensures
            sorted_ids(r@),
            forall|e: ID| #[trigger] r@.contains(e) <==> incident(self@, n).contains(e),
    {
        let ghost pred = |e: ID| incident(self@, n).contains(e);
        let ghost keys = self.edges.keys();
        let mut out: Vec<ID> = Vec::new();
        let mut i: usize = 0;
        proof { reveal(Seq::filter); assert(keys.subrange(0, 0) =~= Seq::<ID>::empty()); }
        while i < self.edges.len()
            invariant
                self.wf(),
                keys == self.edges.keys(),
                pred == (|e: ID| incident(self@, n).contains(e)),
                i <= self.edges.entries@.len(),
                out@ == keys.subrange(0, i as int).filter(pred),
            decreases self.edges.entries@.len() - i,
        {
            let e = self.edges.key_at(i);
            let edge = self.edges.value_at(i);
            proof {
                self.edges.lemma_at(i as int);
                assert(keys.subrange(0, i + 1) =~= keys.subrange(0, i as int).push(e));
                keys.subrange(0, i as int).lemma_filter_push(e, pred);
            }
            if edge.source.id() == n || edge.target.id() == n {
                out.push(e);
            }
            i += 1;
        }
        proof {
            assert(keys.subrange(0, i as int) =~= keys);
            lemma_filter_ids(keys, pred);
            self.edges.lemma_view();
            assert forall|e: ID| #[trigger] out@.contains(e) <==> incident(self@, n).contains(e) by {
                if incident(self@, n).contains(e) {
                    assert(self.edges@.dom().contains(e));
                    assert(keys.to_set().contains(e));
                }
            }
        }
        out
    }

    /// Apply one change to the records.
    pub fn apply_one(&mut self, c: &GraphChange)
        requires
            old(self).wf(),
            step_ok(old(self)@, *c),
        ensures
            final(self).wf(),
            final(self)@ == spec_step(old(self)@, *c),
            final(self).jitter() == old(self).jitter(),
    {
        let ghost g = self@;
        match &c.op {
            GraphOp::CreateNode { id } => {
                if c.forward {
                    if !self.nodes.contains_key(id.id()) {
                        self.nodes.insert(id.id(), Life::new(c.lamport));
                    }
                } else {
                    self.nodes.remove(id.id());
                }
                proof {
                    assert(self@.nodes =~= spec_step(g, *c).nodes);
                    assert(self@.edges =~= spec_step(g, *c).edges);
                }
            },
            GraphOp::CreateEdge { id, source, target, position } => {
                if c.forward {
                    proof { use_type_invariant(position); }
                    let orders = Register::single(IdLp { lamport: c.lamport, peer: c.id.peer }, c.id.counter, position.duplicate());
                    self.edges.insert(id.id(), Edge { source: *source, target: *target, life: Life::new(c.lamport), orders });
                    proof {
                        assert(orders@.dom() =~= set![write_key(*c)]);
                        assert(orders@.dom().len() == 1);
                    }
                } else {
                    self.edges.remove(id.id());
                }
                proof {
                    assert(self@.nodes =~= spec_step(g, *c).nodes);
                    assert(self@.edges =~= spec_step(g, *c).edges);
                }
            },
            GraphOp::DeleteNode { id } => {
                match self.nodes.remove(id.id()) {
                    Some(mut life) => {
                        life.delete(c.id, c.lamport, c.forward);
                        self.nodes.insert(id.id(), life);
                    },
                    None => {},
                }
                proof {
                    assert(self@.nodes =~= spec_step(g, *c).nodes);
                    assert(self@.edges =~= spec_step(g, *c).edges);
                }
            },
            GraphOp::RestoreNode { id, deletes } => {
                match self.nodes.remove(id.id()) {
                    Some(mut life) => {
                        life.restore(c.id, c.lamport, deletes, c.forward);
                        self.nodes.insert(id.id(), life);
                    },
                    None => {},
                }
                proof {
                    assert(self@.nodes =~= spec_step(g, *c).nodes);
                    assert(self@.edges =~= spec_step(g, *c).edges);
                }
            },
            GraphOp::DeleteEdge { id } => {
                match self.edges.remove(id.id()) {
                    Some(mut edge) => {
                        edge.life.delete(c.id, c.lamport, c.forward);
                        self.edges.insert(id.id(), edge);
                    },
                    None => {},
                }
                proof {
                    assert(self@.nodes =~= spec_step(g, *c).nodes);
                    assert(self@.edges =~= spec_step(g, *c).edges);
                }
            },
            GraphOp::RestoreEdge { id, deletes } => {
                match self.edges.remove(id.id()) {
                    Some(mut edge) => {
                        edge.life.restore(c.id, c.lamport, deletes, c.forward);
                        self.edges.insert(id.id(), edge);
                    },
                    None => {},
                }
                proof {
                    assert(self@.nodes =~= spec_step(g, *c).nodes);
                    assert(self@.edges =~= spec_step(g, *c).edges);
                }
            },
            GraphOp::SetEdgeOrder { id, position } => {
                let write = IdLp { lamport: c.lamport, peer: c.id.peer };
                match self.edges.remove(id.id()) {
                    Some(mut edge) => {
                        let ghost before = edge.orders@;
                        if c.forward {
                            proof { use_type_invariant(position); }
                            edge.orders.insert(write, c.id.counter, position.duplicate());
                            proof {
                                edge.orders.lemma_values_valid();
                                assert(edge.orders@.contains_key(write));
                                vstd::set_lib::lemma_set_empty_equivalency_len(edge.orders@.dom());
                            }
                        } else {
                            edge.orders.remove(write);
                            proof {
                                edge.orders.lemma_values_valid();
                                let k = choose|k: IdLp| #[trigger] before.contains_key(k) && k != write_key(*c);
                                assert(edge.orders@.contains_key(k));
                                vstd::set_lib::lemma_set_empty_equivalency_len(edge.orders@.dom());
                            }
                        }
                        self.edges.insert(id.id(), edge);
                    },
                    None => {},
                }
                proof {
                    assert(self@.nodes =~= spec_step(g, *c).nodes);
                    assert(self@.edges =~= spec_step(g, *c).edges);
                }
            },
        }
    }

    /// The source of a recorded edge.
    fn edge_source(&self, e: ID) -> (r: GraphNodeId)
        requires
            self.wf(),
            self@.edges.contains_key(e),
        ensures
            r.spec_id() == self@.edges[e].source,
    {
        match self.edges.get(e) {
            Some(edge) => edge.source,
            None => GraphNodeId { peer: 0, counter: 0 },
        }
    }

    /// Apply changes in order and report the changed records, the net order
    /// deltas and the applied changes.
    pub fn apply_changes(&mut self, changes: Vec<GraphChange>) -> (r: GraphDiff)
        requires
            old(self).wf(),
            changes_ok(old(self)@, changes@),
        ensures
            final(self).wf(),
            final(self)@ == run(old(self)@, changes@),
            final(self).jitter() == old(self).jitter(),
            diff_ok(old(self)@, changes@, r),
    {
        let ghost g0 = self@;
        let ghost cs = changes@;
        let mut nodes: IdMap<Option<GraphNode>> = IdMap::new();
        let mut edges: IdMap<Option<GraphEdge>> = IdMap::new();
        let mut orders: IdMap<GraphOrderDelta> = IdMap::new();
        let mut i: usize = 0;
        proof {
            assert(cs.take(0) =~= Seq::<GraphChange>::empty());
            assert(nodes@.dom() =~= touched_nodes(cs.take(0)));
            assert(edges@.dom() =~= touched_edges(g0, cs.take(0)));
            assert(orders@.dom() =~= order_changes(g0, cs.take(0)).dom());
        }
        while i < changes.len()
            invariant
                self.wf(),
                self.jitter() == old(self).jitter(),
                g0 == old(self)@,
                cs == changes@,
                changes_ok(g0, cs),
                i <= cs.len(),
                self@ == run(g0, cs.take(i as int)),
                nodes.wf(),
                edges.wf(),
                orders.wf(),
                nodes@.dom() == touched_nodes(cs.take(i as int)),
                forall|n: ID| #[trigger] nodes@.contains_key(n) ==> node_record_ok(self@, n, nodes@[n]),
                edges@.dom() == touched_edges(g0, cs.take(i as int)),
                forall|e: ID| #[trigger] edges@.contains_key(e) ==> edge_record_ok(self@, e, edges@[e]),
                orders@.dom() == order_changes(g0, cs.take(i as int)).dom(),
                forall|e: ID| #[trigger] orders@.contains_key(e) ==> {
                    &&& orders@[e].source.spec_id() == order_changes(g0, cs.take(i as int))[e].0
                    &&& order_view(orders@[e].before) == order_changes(g0, cs.take(i as int))[e].1
                    &&& order_view(orders@[e].after) == order_of(self@, e)
                },
            decreases cs.len() - i,
        {
            let c = &changes[i];
            let ghost ga = self@;
            proof {
                lemma_changes_ok_prefix(g0, cs, i + 1);
                lemma_unfold_take(g0, cs, i as int);
                assert(order_changes(g0, cs.take(i + 1)) == {
                    let prev = order_changes(g0, cs.take(i as int));
                    let e = op_object(c.op);
                    if is_order_op(c.op) && order_of(ga, e) != order_of(spec_step(ga, *c), e) && !prev.contains_key(e) {
                        prev.insert(e, (order_source(ga, *c), order_of(ga, e)))
                    } else {
                        prev
                    }
                });
            }
            let obj = c.op.object();
            if c.op.is_order_op() {
                let before = self.order_value(obj);
                let source = match &c.op {
                    GraphOp::CreateEdge { source, .. } => *source,
                    _ => self.edge_source(obj),
                };
                self.apply_one(c);
                let after = self.order_value(obj);
                if !same_order(&before, &after) {
                    match orders.remove(obj) {
                        Some(d) => {
                            orders.insert(obj, GraphOrderDelta { source: d.source, before: d.before, after });
                        },
                        None => {
                            orders.insert(obj, GraphOrderDelta { source, before, after });
                        },
                    }
                }
            } else {
                self.apply_one(c);
            }
            let ghost gb = self@;
            proof {
                assert forall|e: ID| #[trigger] orders@.contains_key(e) implies order_view(orders@[e].after) == order_of(gb, e) by {
                    if e != obj || !is_order_op(c.op) {
                        assert(ga.edges.contains_key(e) == gb.edges.contains_key(e));
                        if ga.edges.contains_key(e) {
                            assert(ga.edges[e].orders == gb.edges[e].orders);
                        }
                    }
                }
                assert(orders@.dom() =~= order_changes(g0, cs.take(i + 1)).dom());
            }
            if c.op.is_node_op() {
                let inc = self.incident(obj);
                proof {
                    assert(ga.edges == gb.edges);
                    assert forall|n: ID| #[trigger] nodes@.contains_key(n) && n != obj implies node_record_ok(gb, n, nodes@[n]) by {
                        lemma_node_record_frame(ga, gb, n, nodes@[n]);
                    }
                    assert forall|e: ID| #[trigger] edges@.contains_key(e) && !incident(gb, obj).contains(e) implies edge_record_ok(gb, e, edges@[e]) by {
                        lemma_edge_record_frame(ga, gb, e, edges@[e]);
                    }
                }
                nodes.insert(obj, self.node_record(GraphNodeId::from_id(obj)));
                let ghost base = edges@;
                let mut j: usize = 0;
                while j < inc.len()
                    invariant
                        self.wf(),
                        self@ == gb,
                        edges.wf(),
                        forall|e: ID| #[trigger] inc@.contains(e) <==> incident(gb, obj).contains(e),
                        j <= inc@.len(),
                        edges@.dom() == base.dom() + inc@.take(j as int).to_set(),
                        forall|e: ID| #[trigger] base.contains_key(e) && !incident(gb, obj).contains(e) ==> edge_record_ok(gb, e, base[e]),
                        forall|e: ID| #[trigger] edges@.contains_key(e) ==> (if inc@.take(j as int).contains(e) {
                            edge_record_ok(gb, e, edges@[e])
                        } else {
                            edges@[e] == base[e]
                        }),
                    decreases inc@.len() - j,
                {
                    let e = inc[j];
                    let ghost prev = edges@;
                    let rec = self.edge_record(GraphEdgeId::from_id(e));
                    edges.insert(e, rec);
                    proof {
                        assert(inc@.take(j + 1) =~= inc@.take(j as int).push(e));
                        inc@.take(j as int).lemma_push_to_set_commute(e);
                        assert(edges@.dom() =~= base.dom() + inc@.take(j + 1).to_set());
                        assert forall|x: ID| #[trigger] edges@.contains_key(x) implies (if inc@.take(j + 1).contains(x) {
                            edge_record_ok(gb, x, edges@[x])
                        } else {
                            edges@[x] == base[x]
                        }) by {
                            assert(inc@.take(j + 1).contains(x) <==> (inc@.take(j as int).contains(x) || x == e)) by {
                                assert(inc@.take(j + 1).to_set().contains(x) == inc@.take(j + 1).contains(x));
                                assert(inc@.take(j as int).to_set().contains(x) == inc@.take(j as int).contains(x));
                            }
                            if x != e {
                                assert(prev.contains_key(x));
                            }
                        }
                    }
                    j += 1;
                }
                proof {
                    assert(inc@.take(j as int) =~= inc@);
                    assert(inc@.to_set() =~= incident(gb, obj));
                    assert forall|e: ID| #[trigger] edges@.contains_key(e) implies edge_record_ok(gb, e, edges@[e]) by {
                        if !inc@.contains(e) {
                            assert(!incident(gb, obj).contains(e));
                        }
                    }
                    assert(nodes@.dom() =~= touched_nodes(cs.take(i + 1)));
                    assert(edges@.dom() =~= touched_edges(g0, cs.take(i + 1)));
                }
            } else {
                proof {
                    assert(ga.nodes == gb.nodes);
                    assert forall|n: ID| #[trigger] nodes@.contains_key(n) implies node_record_ok(gb, n, nodes@[n]) by {
                        lemma_node_record_frame(ga, gb, n, nodes@[n]);
                    }
                    assert forall|e: ID| #[trigger] edges@.contains_key(e) && e != obj implies edge_record_ok(gb, e, edges@[e]) by {
                        lemma_edge_record_frame(ga, gb, e, edges@[e]);
                    }
                }
                edges.insert(obj, self.edge_record(GraphEdgeId::from_id(obj)));
                proof {
                    assert(nodes@.dom() =~= touched_nodes(cs.take(i + 1)));
                    assert(edges@.dom() =~= touched_edges(g0, cs.take(i + 1)));
                }
            }
            i += 1;
        }
        proof {
            assert(cs.take(i as int) =~= cs);
        }
        GraphDiff { ops: changes, nodes, edges, orders }
    }

    /// Every tag names a delete of `obj` earlier in the batch or in the object's record.
    fn tags_recorded(&self, batch: &IdMap<ID>, obj: ID, tags: &Vec<ID>, is_edge: bool) -> (r: bool)
        requires
            self.wf(),
            batch.wf(),
        ensures
            r == (if is_edge {
                tags_known(batch@, obj, tags@, if self@.edges.contains_key(obj) { self@.edges[obj].life.deletes } else { Map::empty() }, self@.edges.contains_key(obj))
            } else {
                tags_known(batch@, obj, tags@, if self@.nodes.contains_key(obj) { self@.nodes[obj].deletes } else { Map::empty() }, self@.nodes.contains_key(obj))
            }),
    {
        let ghost recorded = if is_edge {
            if self@.edges.contains_key(obj) { self@.edges[obj].life.deletes } else { Map::empty() }
        } else {
            if self@.nodes.contains_key(obj) { self@.nodes[obj].deletes } else { Map::empty() }
        };
        let ghost has = if is_edge { self@.edges.contains_key(obj) } else { self@.nodes.contains_key(obj) };
        let mut i: usize = 0;
        while i < tags.len()
            invariant
                self.wf(),
                batch.wf(),
                i <= tags@.len(),
                recorded == (if is_edge {
                    if self@.edges.contains_key(obj) { self@.edges[obj].life.deletes } else { Map::empty() }
                } else {
                    if self@.nodes.contains_key(obj) { self@.nodes[obj].deletes } else { Map::empty() }
                }),
                has == (if is_edge { self@.edges.contains_key(obj) } else { self@.nodes.contains_key(obj) }),
                forall|k: int| 0 <= k < i ==> ((batch@.contains_key(#[trigger] tags@[k]) && batch@[tags@[k]] == obj)
                    || (has && recorded.contains_key(tags@[k]))),
            decreases tags@.len() - i,
        {
            let tag = tags[i];
            let in_batch = match batch.get(tag) {
                Some(o) => *o == obj,
                None => false,
            };
            let in_record = if is_edge {
                match self.edges.get(obj) {
                    Some(edge) => edge.life.deletes.contains_key(tag),
                    None => false,
                }
            } else {
                match self.nodes.get(obj) {
                    Some(life) => life.deletes.contains_key(tag),
                    None => false,
                }
            };
            if !in_batch && !in_record {
                return false;
            }
            i += 1;
        }
        true
    }

    /// One validation step against the records and what the batch has created so far.
    fn validate_one(
        &self,
        nodes: &mut IdMap<()>,
        edges: &mut IdMap<()>,
        deletes: &mut IdMap<ID>,
        c: &GraphChange,
    ) -> (r: Result<(), GraphError>)
        requires
            self.wf(),
            old(nodes).wf(),
            old(edges).wf(),
            old(deletes).wf(),
        ensures
            final(nodes).wf(),
            final(edges).wf(),
            final(deletes).wf(),
            ({
                let next = validate_step(self@, batch_view(old(nodes)@, old(edges)@, old(deletes)@), *c);
                match r {
                    Ok(()) => next == batch_view(final(nodes)@, final(edges)@, final(deletes)@),
                    Err(e) => next.err == Some(e),
                }
            }),
    {
        let ghost a = batch_view(nodes@, edges@, deletes@);
        match c.op.validate(c.id) {
            Err(e) => {
                return Err(e);
            },
            Ok(()) => {},
        }
        if !c.forward {
            return Ok(());
        }
        match &c.op {
            GraphOp::CreateNode { id } => {
                let n = id.id();
                if self.nodes.contains_key(n) || self.edges.contains_key(n) || edges.contains_key(n) || nodes.contains_key(n) {
                    return Err(GraphError::InvalidReference);
                }
                nodes.insert(n, ());
                proof { assert(nodes@.dom() =~= a.nodes.insert(n)); }
            },
            GraphOp::CreateEdge { id, source, target, .. } => {
                let e = id.id();
                if self.edges.contains_key(e) || self.nodes.contains_key(e) || nodes.contains_key(e) || edges.contains_key(e) {
                    return Err(GraphError::InvalidReference);
                }
                if !(self.nodes.contains_key(source.id()) || nodes.contains_key(source.id())) {
                    return Err(GraphError::InvalidReference);
                }
                if !(self.nodes.contains_key(target.id()) || nodes.contains_key(target.id())) {
                    return Err(GraphError::InvalidReference);
                }
                edges.insert(e, ());
                proof { assert(edges@.dom() =~= a.edges.insert(e)); }
            },
            GraphOp::DeleteNode { id } => {
                if !(self.nodes.contains_key(id.id()) || nodes.contains_key(id.id())) {
                    return Err(GraphError::InvalidReference);
                }
                deletes.insert(c.id, id.id());
            },
            GraphOp::DeleteEdge { id } => {
                if !(self.edges.contains_key(id.id()) || edges.contains_key(id.id())) {
                    return Err(GraphError::InvalidReference);
                }
                deletes.insert(c.id, id.id());
            },
            GraphOp::RestoreNode { id, deletes: tags } => {
                if !(self.nodes.contains_key(id.id()) || nodes.contains_key(id.id())) {
                    return Err(GraphError::InvalidReference);
                }
                if !self.tags_recorded(deletes, id.id(), tags, false) {
                    return Err(GraphError::InvalidReference);
                }
            },
            GraphOp::RestoreEdge { id, deletes: tags } => {
                if !(self.edges.contains_key(id.id()) || edges.contains_key(id.id())) {
                    return Err(GraphError::InvalidReference);
                }
                if !self.tags_recorded(deletes, id.id(), tags, true) {
                    return Err(GraphError::InvalidReference);
                }
            },
            GraphOp::SetEdgeOrder { id, .. } => {
                if !(self.edges.contains_key(id.id()) || edges.contains_key(id.id())) {
                    return Err(GraphError::InvalidReference);
                }
            },
        }
        Ok(())
    }

    /// Check a batch against the records before any of it is applied: operation
    /// identities, that creations are new, and that every reference names a
    /// recorded object or one created earlier in the batch.
    pub fn validate_changes(&self, changes: &Vec<GraphChange>) -> (r: Result<(), GraphError>)
        requires
            self.wf(),
        ensures
            r == validation_result(self@, changes@),
    {
        let ghost cs = changes@;
        let mut nodes: IdMap<()> = IdMap::new();
        let mut edges: IdMap<()> = IdMap::new();
        let mut deletes: IdMap<ID> = IdMap::new();
        let mut i: usize = 0;
        proof {
            assert(cs.take(0) =~= Seq::<GraphChange>::empty());
            assert(batch_view(nodes@, edges@, deletes@) == validate_fold(self@, cs.take(0))) by {
                assert(nodes@.dom() =~= Set::<ID>::empty());
                assert(edges@.dom() =~= Set::<ID>::empty());
            }
        }
        while i < changes.len()
            invariant
                self.wf(),
                cs == changes@,
                i <= cs.len(),
                nodes.wf(),
                edges.wf(),
                deletes.wf(),
                batch_view(nodes@, edges@, deletes@) == validate_fold(self@, cs.take(i as int)),
            decreases cs.len() - i,
        {
            proof {
                assert(cs.take(i + 1).drop_last() =~= cs.take(i as int));
            }
            match self.validate_one(&mut nodes, &mut edges, &mut deletes, &changes[i]) {
                Err(e) => {
                    proof { lemma_validation_error_persists(self@, cs, i + 1); }
                    return Err(e);
                },
                Ok(()) => {},
            }
            i += 1;
        }
        proof {
            assert(cs.take(i as int) =~= cs);
        }
        Ok(())
    }

    /// Edge `e` is recorded and visible.
    pub fn edge_is_visible(&self, e: ID) -> (r: bool)
        requires
            self.wf(),
        ensures
            r == edge_visible(self@, e),
    {
        match self.edges.get(e) {
            Some(edge) => edge.life.alive() && self.node_is_alive(edge.source.id()) && self.node_is_alive(edge.target.id()),
            None => false,
        }
    }

    /// Visible nodes, ascending by identity.
    pub fn nodes(&self) -> (r: Vec<GraphNodeId>)
        requires
            self.wf(),
        ensures
            sorted_ids(node_ids(r@)),
            forall|n: ID| #[trigger] node_ids(r@).contains(n) <==> node_alive(self@, n),
    {
        let ghost pred = |n: ID| node_alive(self@, n);
        let ghost keys = self.nodes.keys();
        let mut out: Vec<GraphNodeId> = Vec::new();
        let mut i: usize = 0;
        proof { reveal(Seq::filter); assert(keys.subrange(0, 0) =~= Seq::<ID>::empty()); assert(node_ids(out@) =~= Seq::<ID>::empty()); }
        while i < self.nodes.len()
            invariant
                self.wf(),
                keys == self.nodes.keys(),
                pred == (|n: ID| node_alive(self@, n)),
                i <= self.nodes.entries@.len(),
                node_ids(out@) == keys.subrange(0, i as int).filter(pred),
            decreases self.nodes.entries@.len() - i,
        {
            let n = self.nodes.key_at(i);
            proof {
                self.nodes.lemma_at(i as int);
                assert(keys.subrange(0, i + 1) =~= keys.subrange(0, i as int).push(n));
                keys.subrange(0, i as int).lemma_filter_push(n, pred);
            }
            if self.nodes.value_at(i).alive() {
                let ghost prev = out@;
                out.push(GraphNodeId::from_id(n));
                proof { assert(out@.drop_last() =~= prev); assert(node_ids(out@) =~= node_ids(prev).push(n)); }
            }
            i += 1;
        }
        proof {
            assert(keys.subrange(0, i as int) =~= keys);
            lemma_filter_ids(keys, pred);
            self.nodes.lemma_view();
            assert forall|n: ID| #[trigger] node_ids(out@).contains(n) <==> node_alive(self@, n) by {
                if node_alive(self@, n) {
                    assert(self.nodes@.dom().contains(n));
                    assert(keys.to_set().contains(n));
                }
            }
        }
        out
    }

    /// Visible edges (alive, with both endpoints alive), ascending by identity.
    pub fn edges(&self) -> (r: Vec<GraphEdgeId>)
        requires
            self.wf(),
        ensures
            sorted_ids(edge_ids(r@)),
            forall|e: ID| #[trigger] edge_ids(r@).contains(e) <==> edge_visible(self@, e),
    {
        let ghost pred = |e: ID| edge_visible(self@, e);
        let ghost keys = self.edges.keys();
        let mut out: Vec<GraphEdgeId> = Vec::new();
        let mut i: usize = 0;
        proof { reveal(Seq::filter); assert(keys.subrange(0, 0) =~= Seq::<ID>::empty()); assert(edge_ids(out@) =~= Seq::<ID>::empty()); }
        while i < self.edges.len()
            invariant
                self.wf(),
                keys == self.edges.keys(),
                pred == (|e: ID| edge_visible(self@, e)),
                i <= self.edges.entries@.len(),
                edge_ids(out@) == keys.subrange(0, i as int).filter(pred),
            decreases self.edges.entries@.len() - i,
        {
            let e = self.edges.key_at(i);
            proof {
                self.edges.lemma_at(i as int);
                assert(keys.subrange(0, i + 1) =~= keys.subrange(0, i as int).push(e));
                keys.subrange(0, i as int).lemma_filter_push(e, pred);
            }
            if self.edge_is_visible(e) {
                let ghost prev = out@;
                out.push(GraphEdgeId::from_id(e));
                proof { assert(out@.drop_last() =~= prev); assert(edge_ids(out@) =~= edge_ids(prev).push(e)); }
            }
            i += 1;
        }
        proof {
            assert(keys.subrange(0, i as int) =~= keys);
            lemma_filter_ids(keys, pred);
            self.edges.lemma_view();
            assert forall|e: ID| #[trigger] edge_ids(out@).contains(e) <==> edge_visible(self@, e) by {
                if edge_visible(self@, e) {
                    assert(self.edges@.dom().contains(e));
                    assert(keys.to_set().contains(e));
                }
            }
        }
        out
    }

    /// Visible edges adjacent to a recorded node, ascending by identity; an unknown
    /// node is an error.
    pub fn adjacent(&self, id: GraphNodeId, incoming: bool) -> (r: Result<Vec<GraphEdgeId>, GraphError>)
        requires
            self.wf(),
        ensures
            !self@.nodes.contains_key(id.spec_id()) <==> r == Err::<Vec<GraphEdgeId>, GraphError>(GraphError::InvalidReference),
            r is Err ==> r == Err::<Vec<GraphEdgeId>, GraphError>(GraphError::InvalidReference),
            r matches Ok(v) ==> sorted_ids(edge_ids(v@)) && forall|e: ID| #[trigger] edge_ids(v@).contains(e) <==> adjacent_to(self@, id.spec_id(), incoming, e),
    {
        if !self.nodes.contains_key(id.id()) {
            return Err(GraphError::InvalidReference);
        }
        let n = id.id();
        let ghost pred = |e: ID| adjacent_to(self@, n, incoming, e);
        let ghost keys = self.edges.keys();
        let mut out: Vec<GraphEdgeId> = Vec::new();
        let mut i: usize = 0;
        proof { reveal(Seq::filter); assert(keys.subrange(0, 0) =~= Seq::<ID>::empty()); assert(edge_ids(out@) =~= Seq::<ID>::empty()); }
        while i < self.edges.len()
            invariant
                self.wf(),
                keys == self.edges.keys(),
                pred == (|e: ID| adjacent_to(self@, n, incoming, e)),
                i <= self.edges.entries@.len(),
                edge_ids(out@) == keys.subrange(0, i as int).filter(pred),
            decreases self.edges.entries@.len() - i,
        {
            let e = self.edges.key_at(i);
            let edge = self.edges.value_at(i);
            proof {
                self.edges.lemma_at(i as int);
                assert(keys.subrange(0, i + 1) =~= keys.subrange(0, i as int).push(e));
                keys.subrange(0, i as int).lemma_filter_push(e, pred);
            }
            let end = if incoming { edge.target.id() } else { edge.source.id() };
            if end == n && self.edge_is_visible(e) {
                let ghost prev = out@;
                out.push(GraphEdgeId::from_id(e));
                proof { assert(out@.drop_last() =~= prev); assert(edge_ids(out@) =~= edge_ids(prev).push(e)); }
            }
            i += 1;
        }
        proof {
            assert(keys.subrange(0, i as int) =~= keys);
            lemma_filter_ids(keys, pred);
            self.edges.lemma_view();
            assert forall|e: ID| #[trigger] edge_ids(out@).contains(e) <==> adjacent_to(self@, n, incoming, e) by {
                if adjacent_to(self@, n, incoming, e) {
                    assert(self.edges@.dom().contains(e));
                    assert(keys.to_set().contains(e));
                }
            }
        }
        Ok(out)
    }

    /// The order index of a source: its visible out-edges by `(position, edge id)`.
    fn out_index(&self, source: ID) -> (r: OrderIndex)
        requires
            self.wf(),
        ensures
            r.wf(),
            ordered_out(self@, source, r@),
    {
        let mut idx = OrderIndex::new();
        let ghost keys = self.edges.keys();
        let mut i: usize = 0;
        proof { self.edges.lemma_view(); }
        while i < self.edges.len()
            invariant
                self.wf(),
                idx.wf(),
                keys == self.edges.keys(),
                i <= self.edges.entries@.len(),
                forall|x: (Seq<u8>, ID)| #[trigger] idx@.contains(x) <==> (out_entry(self@, source, x) && keys.subrange(0, i as int).contains(x.1)),
            decreases self.edges.entries@.len() - i,
        {
            let e = self.edges.key_at(i);
            let edge = self.edges.value_at(i);
            proof { self.edges.lemma_at(i as int); }
            let ghost before = idx@;
            if edge.source.id() == source && self.edge_is_visible(e) {
                let (position, _) = edge.orders.winner_full();
                idx.insert(position, GraphEdgeId::from_id(e));
            }
            proof {
                assert forall|x: (Seq<u8>, ID)| #[trigger] idx@.contains(x) <==> (out_entry(self@, source, x) && keys.subrange(0, i + 1).contains(x.1)) by {
                    assert(keys.subrange(0, i + 1).contains(x.1) <==> (keys.subrange(0, i as int).contains(x.1) || x.1 == e)) by {
                        if keys.subrange(0, i + 1).contains(x.1) {
                            let k = choose|k: int| 0 <= k < i + 1 && #[trigger] keys.subrange(0, i + 1)[k] == x.1;
                            if k < i {
                                assert(keys.subrange(0, i as int)[k] == x.1);
                            }
                        }
                        if keys.subrange(0, i as int).contains(x.1) {
                            let k = choose|k: int| 0 <= k < i && #[trigger] keys.subrange(0, i as int)[k] == x.1;
                            assert(keys.subrange(0, i + 1)[k] == x.1);
                        }
                        if x.1 == e {
                            assert(keys.subrange(0, i + 1)[i as int] == x.1);
                        }
                    }
                    assert(!keys.subrange(0, i as int).contains(e)) by {
                        if keys.subrange(0, i as int).contains(e) {
                            let k = choose|k: int| 0 <= k < i && #[trigger] keys.subrange(0, i as int)[k] == e;
                            assert(id_lt(keys[k], keys[i as int]));
                        }
                    }
                }
            }
            i += 1;
        }
        proof {
            assert(keys.subrange(0, i as int) =~= keys);
            assert forall|x: (Seq<u8>, ID)| #[trigger] idx@.contains(x) <==> out_entry(self@, source, x) by {
                if out_entry(self@, source, x) {
                    assert(self.edges@.dom().contains(x.1));
                    assert(keys.to_set().contains(x.1));
                }
            }
        }
        idx
    }

    /// The edge at `index` of an order index, with its target and position.
    fn ordered_edge(&self, idx: &OrderIndex, k: usize) -> (r: OrderedGraphEdge)
        requires
            self.wf(),
            idx.wf(),
            k < idx@.len(),
            forall|x: (Seq<u8>, ID)| #[trigger] idx@.contains(x) ==> self@.edges.contains_key(x.1),
        ensures
            (r.position@, r.edge_id.spec_id()) == idx@[k as int],
            self@.edges.contains_key(r.edge_id.spec_id()),
            r.target.spec_id() == self@.edges[r.edge_id.spec_id()].target,
    {
        let (position, id) = (idx.entries[k].0.duplicate(), idx.entries[k].1);
        proof { assert(idx@.contains(idx@[k as int])); }
        let target = match self.edges.get(id.id()) {
            Some(edge) => edge.target,
            None => GraphNodeId { peer: 0, counter: 0 },
        };
        OrderedGraphEdge { edge_id: id, target, position }
    }

    /// Visible out-edges of a recorded node, by `(position, edge id)`; an unknown
    /// node is an error.
    pub fn ordered_out_edges(&self, source: GraphNodeId) -> (r: Result<Vec<OrderedGraphEdge>, GraphError>)
        requires
            self.wf(),
        ensures
            !self@.nodes.contains_key(source.spec_id()) <==> r == Err::<Vec<OrderedGraphEdge>, GraphError>(GraphError::InvalidReference),
            r is Ok <==> self@.nodes.contains_key(source.spec_id()),
            r matches Ok(v) ==> ordered_out(self@, source.spec_id(), ordered_view(v@)) && targets_ok(self@, v@),
    {
        if !self.nodes.contains_key(source.id()) {
            return Err(GraphError::InvalidReference);
        }
        let idx = self.out_index(source.id());
        let mut out: Vec<OrderedGraphEdge> = Vec::new();
        let mut k: usize = 0;
        while k < idx.len()
            invariant
                self.wf(),
                idx.wf(),
                ordered_out(self@, source.spec_id(), idx@),
                k <= idx@.len(),
                ordered_view(out@) == idx@.take(k as int),
                targets_ok(self@, out@),
            decreases idx@.len() - k,
        {
            let item = self.ordered_edge(&idx, k);
            let ghost prev = out@;
            out.push(item);
            proof {
                assert(out@ =~= prev.push(item));
                assert(ordered_view(prev).len() == prev.len());
                assert(prev.len() == k);
                assert forall|j: int| 0 <= j < k + 1 implies #[trigger] ordered_view(out@)[j] == idx@.take(k + 1)[j] by {
                    if j < k {
                        assert(out@[j] == prev[j]);
                        assert(ordered_view(prev)[j] == idx@.take(k as int)[j]);
                    } else {
                        assert(out@[j] == item);
                        assert(ordered_view(out@)[j] == (item.position@, item.edge_id.spec_id()));
                    }
                }
                assert(ordered_view(out@) =~= idx@.take(k + 1));
                assert forall|i: int| 0 <= i < out@.len() implies self@.edges.contains_key((#[trigger] out@[i]).edge_id.spec_id())
                    && out@[i].target.spec_id() == self@.edges[out@[i].edge_id.spec_id()].target by {
                    if i < k {
                        assert(out@[i] == prev[i]);
                    }
                }
            }
            k += 1;
        }
        proof { assert(idx@.take(k as int) =~= idx@); }
        Ok(out)
    }

    /// The visible out-edge of `source` at rank `index`, if any.
    pub fn out_edge_at(&self, source: GraphNodeId, index: usize) -> (r: Option<OrderedGraphEdge>)
        requires
            self.wf(),
        ensures
            forall|s: Seq<(Seq<u8>, ID)>| #[trigger] ordered_out(self@, source.spec_id(), s) ==> match r {
                Some(x) => index < s.len() && (x.position@, x.edge_id.spec_id()) == s[index as int]
                    && x.target.spec_id() == self@.edges[x.edge_id.spec_id()].target,
                None => index >= s.len(),
            },
    {
        let idx = self.out_index(source.id());
        proof {
            assert forall|s: Seq<(Seq<u8>, ID)>| #[trigger] ordered_out(self@, source.spec_id(), s) implies s == idx@ by {
                crate::order_index::lemma_sorted_unique(s, idx@);
            }
        }
        if index < idx.len() {
            Some(self.ordered_edge(&idx, index))
        } else {
            None
        }
    }

    /// The rank of a recorded edge among its source's visible out-edges; `None`
    /// when the edge is unknown or not visible.
    pub fn index_of_out_edge(&self, id: GraphEdgeId) -> (r: Option<usize>)
        requires
            self.wf(),
        ensures
            !edge_visible(self@, id.spec_id()) ==> r is None,
            edge_visible(self@, id.spec_id()) ==> forall|s: Seq<(Seq<u8>, ID)>| #[trigger] ordered_out(self@, self@.edges[id.spec_id()].source, s)
                ==> (r matches Some(i) && i < s.len() && s[i as int].1 == id.spec_id()),
    {
        let source = match self.edges.get(id.id()) {
            Some(edge) => edge.source,
            None => {
                return None;
            },
        };
        let idx = self.out_index(source.id());
        proof {
            assert forall|s: Seq<(Seq<u8>, ID)>| #[trigger] ordered_out(self@, source.spec_id(), s) implies s == idx@ by {
                crate::order_index::lemma_sorted_unique(s, idx@);
            }
        }
        let r = idx.rank(id);
        proof {
            if edge_visible(self@, id.spec_id()) {
                let x = (winner_value(self@.edges[id.spec_id()].orders).0, id.spec_id());
                assert(out_entry(self@, source.spec_id(), x));
                assert(idx@.contains(x));
            } else {
                if r is Some {
                    let i = r->0;
                    assert(idx@.contains(idx@[i as int]));
                }
            }
        }
        r
    }

    /// Number of visible nodes.
    pub fn node_count(&self) -> (r: usize)
        requires
            self.wf(),
        ensures
            r == visible_node_set(self@).len(),
    {
        let v = self.nodes();
        proof {
            lemma_sorted_len(node_ids(v@));
            assert(node_ids(v@).to_set() =~= visible_node_set(self@));
        }
        v.len()
    }

    /// Number of visible edges.
    pub fn edge_count(&self) -> (r: usize)
        requires
            self.wf(),
        ensures
            r == visible_edge_set(self@).len(),
    {
        let v = self.edges();
        proof {
            lemma_sorted_len(edge_ids(v@));
            assert(edge_ids(v@).to_set() =~= visible_edge_set(self@));
        }
        v.len()
    }

    /// Records of every node whose creation is recorded, ascending by identity.
    pub fn all_nodes(&self) -> (r: Vec<GraphNode>)
        requires
            self.wf(),
        ensures
            forall|i: int| 0 <= i < r@.len() ==> node_record_ok(self@, (#[trigger] r@[i]).id.spec_id(), Some(r@[i])),
            forall|n: ID| self@.nodes.contains_key(n) <==> exists|i: int| 0 <= i < r@.len() && (#[trigger] r@[i]).id.spec_id() == n,
            sorted_ids(node_record_ids(r@)),
    {
        let mut out: Vec<GraphNode> = Vec::new();
        let mut i: usize = 0;
        proof { self.nodes.lemma_view(); }
        while i < self.nodes.len()
            invariant
                self.wf(),
                i <= self.nodes.entries@.len(),
                out@.len() == i,
                forall|k: int| 0 <= k < i ==> node_record_ok(self@, self.nodes.keys()[k], Some(#[trigger] out@[k])),
            decreases self.nodes.entries@.len() - i,
        {
            let n = self.nodes.key_at(i);
            proof { self.nodes.lemma_at(i as int); }
            match self.node_record(GraphNodeId::from_id(n)) {
                Some(rec) => out.push(rec),
                None => {},
            }
            i += 1;
        }
        proof {
            assert forall|k: int| 0 <= k < out@.len() implies node_record_ok(self@, (#[trigger] out@[k]).id.spec_id(), Some(out@[k])) by {
                assert(node_record_ok(self@, self.nodes.keys()[k], Some(out@[k])));
            }
            assert(sorted_ids(node_record_ids(out@))) by {
                assert forall|a: int, b: int| 0 <= a < b < out@.len() implies id_lt(#[trigger] node_record_ids(out@)[a], #[trigger] node_record_ids(out@)[b]) by {
                    assert(node_record_ok(self@, self.nodes.keys()[a], Some(out@[a])));
                    assert(node_record_ok(self@, self.nodes.keys()[b], Some(out@[b])));
                }
            }
            assert forall|n: ID| self@.nodes.contains_key(n) <==> exists|k: int| 0 <= k < out@.len() && (#[trigger] out@[k]).id.spec_id() == n by {
                if self@.nodes.contains_key(n) {
                    let k = choose|k: int| 0 <= k < self.nodes.entries@.len() && self.nodes.entries@[k].0 == n;
                    assert(node_record_ok(self@, self.nodes.keys()[k], Some(out@[k])));
                }
                if exists|k: int| 0 <= k < out@.len() && (#[trigger] out@[k]).id.spec_id() == n {
                    let k = choose|k: int| 0 <= k < out@.len() && (#[trigger] out@[k]).id.spec_id() == n;
                    assert(node_record_ok(self@, self.nodes.keys()[k], Some(out@[k])));
                }
            }
        }
        out
    }

    /// Records of every edge whose creation is recorded, ascending by identity.
    pub fn all_edges(&self) -> (r: Vec<GraphEdge>)
        requires
            self.wf(),
        ensures
            forall|i: int| 0 <= i < r@.len() ==> edge_record_ok(self@, (#[trigger] r@[i]).id.spec_id(), Some(r@[i])),
            forall|e: ID| self@.edges.contains_key(e) <==> exists|i: int| 0 <= i < r@.len() && (#[trigger] r@[i]).id.spec_id() == e,
            sorted_ids(edge_record_ids(r@)),
    {
        let mut out: Vec<GraphEdge> = Vec::new();
        let mut i: usize = 0;
        proof { self.edges.lemma_view(); }
        while i < self.edges.len()
            invariant
                self.wf(),
                i <= self.edges.entries@.len(),
                out@.len() == i,
                forall|k: int| 0 <= k < i ==> edge_record_ok(self@, self.edges.keys()[k], Some(#[trigger] out@[k])),
            decreases self.edges.entries@.len() - i,
        {
            let e = self.edges.key_at(i);
            proof { self.edges.lemma_at(i as int); }
            match self.edge_record(GraphEdgeId::from_id(e)) {
                Some(rec) => out.push(rec),
                None => {},
            }
            i += 1;
        }
        proof {
            assert forall|k: int| 0 <= k < out@.len() implies edge_record_ok(self@, (#[trigger] out@[k]).id.spec_id(), Some(out@[k])) by {
                assert(edge_record_ok(self@, self.edges.keys()[k], Some(out@[k])));
            }
            assert(sorted_ids(edge_record_ids(out@))) by {
                assert forall|a: int, b: int| 0 <= a < b < out@.len() implies id_lt(#[trigger] edge_record_ids(out@)[a], #[trigger] edge_record_ids(out@)[b]) by {
                    assert(edge_record_ok(self@, self.edges.keys()[a], Some(out@[a])));
                    assert(edge_record_ok(self@, self.edges.keys()[b], Some(out@[b])));
                }
            }
            assert forall|e: ID| self@.edges.contains_key(e) <==> exists|k: int| 0 <= k < out@.len() && (#[trigger] out@[k]).id.spec_id() == e by {
                if self@.edges.contains_key(e) {
                    let k = choose|k: int| 0 <= k < self.edges.entries@.len() && self.edges.entries@[k].0 == e;
                    assert(edge_record_ok(self@, self.edges.keys()[k], Some(out@[k])));
                }
                if exists|k: int| 0 <= k < out@.len() && (#[trigger] out@[k]).id.spec_id() == e {
                    let k = choose|k: int| 0 <= k < out@.len() && (#[trigger] out@[k]).id.spec_id() == e;
                    assert(edge_record_ok(self@, self.edges.keys()[k], Some(out@[k])));
                }
            }
        }
        out
    }

    /// Validate a batch of changes (forward ones are checked against the records) and
    /// apply it; a rejected batch changes nothing.
    pub fn apply_diff(&mut self, changes: Vec<GraphChange>) -> (r: Result<GraphDiff, GraphError>)
        requires
            old(self).wf(),
            // validation checks forward changes only: retractions must apply
            validation_result(old(self)@, changes@) is Ok && (exists|i: int| 0 <= i < changes@.len() && !(#[trigger] changes@[i]).forward)
                ==> changes_ok(old(self)@, changes@),
        ensures
            final(self).wf(),
            final(self).jitter() == old(self).jitter(),
            match r {
                Ok(d) => validation_result(old(self)@, changes@) is Ok && final(self)@ == run(old(self)@, changes@)
                    && diff_ok(old(self)@, changes@, d),
                Err(e) => validation_result(old(self)@, changes@) == Err::<(), GraphError>(e) && final(self)@ == old(self)@,
            },
    {
        match self.validate_changes(&changes) {
            Err(e) => Err(e),
            Ok(()) => {
                proof {
                    if forall|i: int| 0 <= i < changes@.len() ==> (#[trigger] changes@[i]).forward {
                        lemma_validated_batch_applies(self@, changes@);
                    }
                }
                Ok(self.apply_changes(changes))
            },
        }
    }

    /// Validate one local change and apply it; a rejected change changes nothing.
    pub fn apply_local_op(&mut self, change: GraphChange) -> (r: Result<GraphDiff, GraphError>)
        requires
            old(self).wf(),
            change.forward,
        ensures
            final(self).wf(),
            final(self).jitter() == old(self).jitter(),
            match r {
                Ok(d) => validation_result(old(self)@, seq![change]) is Ok && final(self)@ == spec_step(old(self)@, change)
                    && diff_ok(old(self)@, seq![change], d),
                Err(e) => validation_result(old(self)@, seq![change]) == Err::<(), GraphError>(e) && final(self)@ == old(self)@,
            },
    {
        let changes = vec![change];
        proof {
            assert(changes@ =~= seq![change]);
            assert(seq![change].drop_last() =~= Seq::<GraphChange>::empty());
        }
        self.apply_diff(changes)
    }

    /// The order registers of a well-formed state are finite and nonempty.
    pub proof fn lemma_registers_wf(&self)
        requires
            self.wf(),
        ensures
            registers_wf(self@),
    {
        assert forall|e: ID| #[trigger] self@.edges.contains_key(e) implies self@.edges[e].orders.dom().finite()
            && exists|k: IdLp| #[trigger] self@.edges[e].orders.contains_key(k) by {
            let edge = self.edges@[e];
            assert(edge.wf());
            assert(self@.edges[e] == edge@);
            edge.orders.lemma_values_valid();
            if !(exists|k: IdLp| #[trigger] edge.orders@.contains_key(k)) {
                assert(edge.orders@.dom() =~= Set::<IdLp>::empty());
            } else {
                let k = choose|k: IdLp| #[trigger] edge.orders@.contains_key(k);
                assert(self@.edges[e].orders.contains_key(k));
            }
        }
    }
}

/// `c` is one operation of the recorded history of `g`.
pub open spec fn history_change(g: GraphView, c: GraphChange) -> bool {
    &&& c.forward
    &&& match c.op {
        GraphOp::CreateNode { id } => id.spec_id() == c.id && g.nodes.contains_key(c.id) && c.lamport == g.nodes[c.id].created_at,
        GraphOp::DeleteNode { id } => g.nodes.contains_key(id.spec_id()) && g.nodes[id.spec_id()].deletes.contains_key(c.id)
            && g.nodes[id.spec_id()].deletes[c.id] == c.lamport,
        GraphOp::RestoreNode { id, deletes } => g.nodes.contains_key(id.spec_id()) && g.nodes[id.spec_id()].restores.contains_key(c.id)
            && g.nodes[id.spec_id()].restores[c.id] == (c.lamport, deletes@),
        GraphOp::CreateEdge { id, source, target, position } => id.spec_id() == c.id && g.edges.contains_key(c.id)
            && c.lamport == g.edges[c.id].life.created_at && source.spec_id() == g.edges[c.id].source
            && target.spec_id() == g.edges[c.id].target && g.edges[c.id].orders.contains_key(write_key(c))
            && g.edges[c.id].orders[write_key(c)].1 == position@,
        GraphOp::SetEdgeOrder { id, position } => g.edges.contains_key(id.spec_id()) && c.id != id.spec_id()
            && g.edges[id.spec_id()].orders.contains_key(write_key(c))
            && g.edges[id.spec_id()].orders[write_key(c)] == (c.id.counter, position@),
        GraphOp::DeleteEdge { id } => g.edges.contains_key(id.spec_id()) && g.edges[id.spec_id()].life.deletes.contains_key(c.id)
            && g.edges[id.spec_id()].life.deletes[c.id] == c.lamport,
        GraphOp::RestoreEdge { id, deletes } => g.edges.contains_key(id.spec_id())
            && g.edges[id.spec_id()].life.restores.contains_key(c.id)
            && g.edges[id.spec_id()].life.restores[c.id] == (c.lamport, deletes@),
    }
}

/// The delete operation of an object.
/// `op` deletes or restores a node (`is_node`) or an edge.
pub open spec fn life_op(op: GraphOp, is_node: bool) -> bool {
    if is_node { op is DeleteNode || op is RestoreNode } else { op is DeleteEdge || op is RestoreEdge }
}

/// The entries of `s` from `from` on are pairwise distinct.
pub open spec fn distinct_from(s: Seq<GraphChange>, from: int) -> bool {
    forall|a: int, b: int| from <= a < b < s.len() ==> #[trigger] s[a] != #[trigger] s[b]
}

pub open spec fn delete_op(obj: ID, is_node: bool) -> GraphOp {
    if is_node {
        GraphOp::DeleteNode { id: node_of(obj) }
    } else {
        GraphOp::DeleteEdge { id: edge_of(obj) }
    }
}

/// `op` restores the object, naming exactly `tags`.
pub open spec fn restore_about(op: GraphOp, obj: ID, is_node: bool, tags: Seq<ID>) -> bool {
    if is_node {
        op matches GraphOp::RestoreNode { id, deletes } && id.spec_id() == obj && deletes@ == tags
    } else {
        op matches GraphOp::RestoreEdge { id, deletes } && id.spec_id() == obj && deletes@ == tags
    }
}

/// Every delete and restore of a lifecycle is listed as a forward change.
pub open spec fn life_listed(l: LifeView, ops: Seq<GraphChange>, obj: ID, is_node: bool) -> bool {
    &&& forall|t: ID|
        #[trigger] l.deletes.contains_key(t) ==> ops.contains(
            GraphChange { id: t, lamport: l.deletes[t], op: delete_op(obj, is_node), forward: true },
        )
    &&& forall|r: ID|
        #[trigger] l.restores.contains_key(r) ==> exists|c: GraphChange|
            #[trigger] ops.contains(c) && c.id == r && c.forward && c.lamport == l.restores[r].0 && restore_about(
                c.op,
                obj,
                is_node,
                l.restores[r].1,
            )
}

/// The creation and the whole lifecycle of node `n` are listed.
pub open spec fn node_listed(g: GraphView, ops: Seq<GraphChange>, n: ID) -> bool {
    &&& ops.contains(
        GraphChange { id: n, lamport: g.nodes[n].created_at, op: GraphOp::CreateNode { id: node_of(n) }, forward: true },
    )
    &&& life_listed(g.nodes[n], ops, n, true)
}

/// The creation, the whole lifecycle and every later order write of edge `e` are listed.
pub open spec fn edge_listed(g: GraphView, ops: Seq<GraphChange>, e: ID) -> bool {
    &&& exists|c: GraphChange| #[trigger] ops.contains(c) && c.id == e && c.forward && c.op is CreateEdge
    &&& life_listed(g.edges[e].life, ops, e, false)
    &&& forall|w: IdLp|
        #[trigger] g.edges[e].orders.contains_key(w) && (ID { peer: w.peer, counter: g.edges[e].orders[w].0 }) != e
            ==> order_write_listed(g, ops, e, w)
}

/// The order write `w` of edge `e` is listed.
pub open spec fn order_write_listed(g: GraphView, ops: Seq<GraphChange>, e: ID, w: IdLp) -> bool {
    exists|c: GraphChange|
        #[trigger] ops.contains(c) && c.id == (ID { peer: w.peer, counter: g.edges[e].orders[w].0 }) && c.lamport
            == w.lamport && c.forward && (c.op matches GraphOp::SetEdgeOrder { id, position } && id.spec_id() == e
            && position@ == g.edges[e].orders[w].1)
}

/// Listing survives adding changes.
pub proof fn lemma_listed_grow(g: GraphView, a: Seq<GraphChange>, b: Seq<GraphChange>)
    requires
        forall|c: GraphChange| #[trigger] a.contains(c) ==> b.contains(c),
    ensures
        forall|l: LifeView, obj: ID, is_node: bool|
            #[trigger] life_listed(l, a, obj, is_node) ==> life_listed(l, b, obj, is_node),
        forall|n: ID| #[trigger] node_listed(g, a, n) ==> node_listed(g, b, n),
        forall|e: ID| #[trigger] edge_listed(g, a, e) ==> edge_listed(g, b, e),
        forall|e: ID, w: IdLp| #[trigger] order_write_listed(g, a, e, w) ==> order_write_listed(g, b, e, w),
{
    assert forall|l: LifeView, obj: ID, is_node: bool| #[trigger] life_listed(l, a, obj, is_node) implies life_listed(
        l,
        b,
        obj,
        is_node,
    ) by {
        assert forall|r: ID| #[trigger] l.restores.contains_key(r) implies exists|c: GraphChange|
            #[trigger] b.contains(c) && c.id == r && c.forward && c.lamport == l.restores[r].0 && restore_about(
                c.op,
                obj,
                is_node,
                l.restores[r].1,
            ) by {
            let c = choose|c: GraphChange|
                #[trigger] a.contains(c) && c.id == r && c.forward && c.lamport == l.restores[r].0 && restore_about(
                    c.op,
                    obj,
                    is_node,
                    l.restores[r].1,
                );
            assert(b.contains(c));
        }
    }
    assert forall|e: ID, w: IdLp| #[trigger] order_write_listed(g, a, e, w) implies order_write_listed(g, b, e, w) by {
        let c = choose|c: GraphChange|
            #[trigger] a.contains(c) && c.id == (ID { peer: w.peer, counter: g.edges[e].orders[w].0 }) && c.lamport
                == w.lamport && c.forward && (c.op matches GraphOp::SetEdgeOrder { id, position } && id.spec_id() == e
                && position@ == g.edges[e].orders[w].1);
        assert(b.contains(c));
    }
    assert forall|e: ID| #[trigger] edge_listed(g, a, e) implies edge_listed(g, b, e) by {
        let c = choose|c: GraphChange| #[trigger] a.contains(c) && c.id == e && c.forward && c.op is CreateEdge;
        assert(b.contains(c));
        assert(life_listed(g.edges[e].life, a, e, false));
    }
    assert forall|n: ID| #[trigger] node_listed(g, a, n) implies node_listed(g, b, n) by {
        assert(life_listed(g.nodes[n], a, n, true));
    }
}

/// A pushed sequence keeps what it held.
pub proof fn lemma_push_grows(a: Seq<GraphChange>, x: GraphChange)
    ensures
        forall|c: GraphChange| #[trigger] a.contains(c) ==> a.push(x).contains(c),
        a.push(x).contains(x),
{
    assert forall|c: GraphChange| #[trigger] a.contains(c) implies a.push(x).contains(c) by {
        let q = choose|q: int| 0 <= q < a.len() && a[q] == c;
        assert(a.push(x)[q] == c);
    }
    assert(a.push(x)[a.len() as int] == x);
}

/// Every edge still holds the order write of its creation.
pub open spec fn creations_kept(g: GraphView) -> bool {
    forall|e: ID| #[trigger] g.edges.contains_key(e) ==> g.edges[e].orders.contains_key(IdLp { lamport: g.edges[e].life.created_at, peer: e.peer })
}

/// `a` comes no later than `b` by Lamport clock, then peer.
pub open spec fn clock_le(a: GraphChange, b: GraphChange) -> bool {
    a.lamport < b.lamport || (a.lamport == b.lamport && a.id.peer <= b.id.peer)
}

fn clock_at_most(a: &GraphChange, b: &GraphChange) -> (r: bool)
    ensures
        r == clock_le(*a, *b),
{
    a.lamport < b.lamport || (a.lamport == b.lamport && a.id.peer <= b.id.peer)
}

/// Sort changes by Lamport clock, then peer; changes with equal keys keep their order.
fn sort_changes(v: Vec<GraphChange>, Ghost(g): Ghost<GraphView>) -> (r: Vec<GraphChange>)
    requires
        forall|i: int| 0 <= i < v@.len() ==> history_change(g, #[trigger] v@[i]),
    ensures
        r@.len() == v@.len(),
        forall|i: int| 0 <= i < r@.len() ==> history_change(g, #[trigger] r@[i]),
        forall|i: int, j: int| 0 <= i < j < r@.len() ==> clock_le(#[trigger] r@[i], #[trigger] r@[j]),
        forall|c: GraphChange| #[trigger] r@.contains(c) <==> v@.contains(c),
{
    let mut out: Vec<GraphChange> = Vec::new();
    let ghost orig = v@;
    let mut rest = v;
    let ghost n = rest@.len();
    while rest.len() > 0
        invariant
            out@.len() + rest@.len() == n,
            forall|c: GraphChange| #[trigger] orig.contains(c) <==> rest@.contains(c) || out@.contains(c),
            forall|i: int| 0 <= i < rest@.len() ==> history_change(g, #[trigger] rest@[i]),
            forall|i: int| 0 <= i < out@.len() ==> history_change(g, #[trigger] out@[i]),
            forall|i: int, j: int| 0 <= i < j < out@.len() ==> clock_le(#[trigger] out@[i], #[trigger] out@[j]),
        decreases rest@.len(),
    {
        let ghost r0 = rest@;
        let x = rest.remove(0);
        proof {
            assert(history_change(g, r0[0]));
            assert forall|i: int| 0 <= i < rest@.len() implies history_change(g, #[trigger] rest@[i]) by {
                assert(rest@[i] == r0[i + 1]);
            }
        }
        let mut j: usize = 0;
        while j < out.len() && clock_at_most(&out[j], &x)
            invariant
                j <= out@.len(),
                forall|i: int, k: int| 0 <= i < k < out@.len() ==> clock_le(#[trigger] out@[i], #[trigger] out@[k]),
                forall|k: int| 0 <= k < j ==> clock_le(#[trigger] out@[k], x),
            decreases out@.len() - j,
        {
            j += 1;
        }
        let ghost o0 = out@;
        out.insert(j, x);
        proof {
            assert(out@ == o0.insert(j as int, x));
            assert forall|a: int, b: int| 0 <= a < b < out@.len() implies clock_le(#[trigger] out@[a], #[trigger] out@[b]) by {
                if b < j {
                    assert(out@[a] == o0[a] && out@[b] == o0[b]);
                    assert(clock_le(o0[a], o0[b]));
                } else if b == j {
                    assert(out@[a] == o0[a]);
                    assert(clock_le(o0[a], x));
                } else if a < j {
                    assert(out@[a] == o0[a] && out@[b] == o0[b - 1]);
                    assert(clock_le(o0[a], x));
                    assert(!clock_le(o0[j as int], x));
                    if b - 1 > j {
                        assert(clock_le(o0[j as int], o0[b - 1]));
                    }
                } else if a == j {
                    assert(out@[b] == o0[b - 1]);
                    assert(!clock_le(o0[j as int], x));
                    if b - 1 > j {
                        assert(clock_le(o0[j as int], o0[b - 1]));
                    }
                } else {
                    assert(out@[a] == o0[a - 1] && out@[b] == o0[b - 1]);
                    assert(clock_le(o0[a - 1], o0[b - 1]));
                }
            }
            assert forall|i: int| 0 <= i < out@.len() implies history_change(g, #[trigger] out@[i]) by {
                if i < j {
                    assert(out@[i] == o0[i]);
                } else if i > j {
                    assert(out@[i] == o0[i - 1]);
                }
            }
            assert forall|c: GraphChange| #[trigger] orig.contains(c) <==> rest@.contains(c) || out@.contains(c) by {
                if r0.contains(c) {
                    let q = choose|q: int| 0 <= q < r0.len() && r0[q] == c;
                    if q == 0 {
                        assert(out@[j as int] == c);
                    } else {
                        assert(rest@[q - 1] == c);
                    }
                }
                if o0.contains(c) {
                    let q = choose|q: int| 0 <= q < o0.len() && o0[q] == c;
                    if q < j {
                        assert(out@[q] == c);
                    } else {
                        assert(out@[q + 1] == c);
                    }
                }
                if rest@.contains(c) {
                    let q = choose|q: int| 0 <= q < rest@.len() && rest@[q] == c;
                    assert(r0[q + 1] == c);
                }
                if out@.contains(c) {
                    let q = choose|q: int| 0 <= q < out@.len() && out@[q] == c;
                    if q < j {
                        assert(o0[q] == c);
                    } else if q == j {
                        assert(r0[0] == c);
                    } else {
                        assert(o0[q - 1] == c);
                    }
                }
            }
        }
    }
    proof {
        assert forall|c: GraphChange| #[trigger] out@.contains(c) <==> orig.contains(c) by {
            if rest@.contains(c) {
                let q = choose|q: int| 0 <= q < rest@.len() && rest@[q] == c;
            }
        }
    }
    out
}

} // verus!
