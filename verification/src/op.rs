//! Graph operations, replayable changes, object records and event diffs.
use vstd::prelude::*;
use crate::ids::{ID, GraphNodeId, GraphEdgeId, IdFull};
use crate::idmap::IdMap;
use crate::position::{GraphPosition, GraphOrderError};

verus! {

/// Errors of the graph engine.
#[derive(Debug, Clone, Copy, PartialEq, Eq, Structural)]
pub enum GraphError {
    /// Invalid graph operation identity or reference.
    InvalidOperation,
    /// Invalid graph reference or lifecycle operation.
    InvalidReference,
    /// Graph object does not belong to this graph or does not exist at this version.
    MissingObject,
    /// An order key could not be allocated.
    Order(GraphOrderError),
}

/// A native graph operation.
#[derive(Clone, Debug, PartialEq, Eq)]
pub enum GraphOp {
    CreateNode { id: GraphNodeId },
    CreateEdge { id: GraphEdgeId, source: GraphNodeId, target: GraphNodeId, position: GraphPosition },
    DeleteNode { id: GraphNodeId },
    DeleteEdge { id: GraphEdgeId },
    RestoreNode { id: GraphNodeId, deletes: Vec<ID> },
    RestoreEdge { id: GraphEdgeId, deletes: Vec<ID> },
    SetEdgeOrder { id: GraphEdgeId, position: GraphPosition },
}

pub open spec fn nonnegative(id: ID) -> bool {
    id.counter >= 0
}

/// The identity and reference checks of `GraphOp::validate`.
pub open spec fn op_valid(op: GraphOp, op_id: ID) -> bool {
    &&& nonnegative(op_id)
    &&& match op {
        GraphOp::CreateNode { id } => id.spec_id() == op_id,
        GraphOp::CreateEdge { id, source, target, .. } => id.spec_id() == op_id && nonnegative(
            source.spec_id(),
        ) && nonnegative(target.spec_id()),
        GraphOp::DeleteNode { id } => nonnegative(id.spec_id()),
        GraphOp::DeleteEdge { id } => nonnegative(id.spec_id()),
        GraphOp::RestoreNode { id, deletes } => nonnegative(id.spec_id()) && (forall|i: int|
            0 <= i < deletes@.len() ==> nonnegative(#[trigger] deletes@[i]))
            && deletes@.no_duplicates(),
        GraphOp::RestoreEdge { id, deletes } => nonnegative(id.spec_id()) && (forall|i: int|
            0 <= i < deletes@.len() ==> nonnegative(#[trigger] deletes@[i]))
            && deletes@.no_duplicates(),
        GraphOp::SetEdgeOrder { id, .. } => nonnegative(id.spec_id()),
    }
}

/// The identity of the object that an operation targets.
pub open spec fn op_object(op: GraphOp) -> ID {
    match op {
        GraphOp::CreateNode { id } => id.spec_id(),
        GraphOp::CreateEdge { id, .. } => id.spec_id(),
        GraphOp::DeleteNode { id } => id.spec_id(),
        GraphOp::DeleteEdge { id } => id.spec_id(),
        GraphOp::RestoreNode { id, .. } => id.spec_id(),
        GraphOp::RestoreEdge { id, .. } => id.spec_id(),
        GraphOp::SetEdgeOrder { id, .. } => id.spec_id(),
    }
}

pub open spec fn op_is_node(op: GraphOp) -> bool {
    op is CreateNode || op is DeleteNode || op is RestoreNode
}

fn ids_unique(v: &Vec<ID>) -> (r: bool)
    ensures
        r == v@.no_duplicates(),
{
    let mut i: usize = 0;
    while i < v.len()
        invariant
            i <= v@.len(),
            forall|a: int, b: int| 0 <= a < i && 0 <= b < v@.len() && a != b ==> v@[a] != v@[b],
        decreases v@.len() - i,
    {
        let mut j: usize = 0;
        while j < v.len()
            invariant
                i < v@.len(),
                j <= v@.len(),
                forall|b: int| 0 <= b < j && b != i ==> v@[i as int] != v@[b],
            decreases v@.len() - j,
        {
            if j != i && v[i] == v[j] {
                return false;
            }
            j += 1;
        }
        i += 1;
    }
    true
}

fn all_nonnegative(v: &Vec<ID>) -> (r: bool)
    ensures
        r == (forall|i: int| 0 <= i < v@.len() ==> nonnegative(#[trigger] v@[i])),
{
    let mut i: usize = 0;
    while i < v.len()
        invariant
            i <= v@.len(),
            forall|k: int| 0 <= k < i ==> nonnegative(#[trigger] v@[k]),
        decreases v@.len() - i,
    {
        if v[i].counter < 0 {
            return false;
        }
        i += 1;
    }
    true
}

impl GraphOp {
    /// The identity of the object the operation targets.
    pub fn object(&self) -> (r: ID)
        ensures
            r == op_object(*self),
    {
        match self {
            GraphOp::CreateNode { id } => id.id(),
            GraphOp::CreateEdge { id, .. } => id.id(),
            GraphOp::DeleteNode { id } => id.id(),
            GraphOp::DeleteEdge { id } => id.id(),
            GraphOp::RestoreNode { id, .. } => id.id(),
            GraphOp::RestoreEdge { id, .. } => id.id(),
            GraphOp::SetEdgeOrder { id, .. } => id.id(),
        }
    }

    /// The operation targets a node.
    pub fn is_node_op(&self) -> (r: bool)
        ensures
            r == op_is_node(*self),
    {
        match self {
            GraphOp::CreateNode { .. } | GraphOp::DeleteNode { .. } | GraphOp::RestoreNode { .. } => true,
            _ => false,
        }
    }

    /// The operation writes an edge's order register.
    pub fn is_order_op(&self) -> (r: bool)
        ensures
            r == (*self is CreateEdge || *self is SetEdgeOrder),
    {
        match self {
            GraphOp::CreateEdge { .. } | GraphOp::SetEdgeOrder { .. } => true,
            _ => false,
        }
    }
    /// The metadata container (named by the creating identity) that this operation creates.
    pub fn created_meta(&self) -> (r: Option<ID>)
        ensures
            r == (match *self {
                GraphOp::CreateNode { id } => Some(id.spec_id()),
                GraphOp::CreateEdge { id, .. } => Some(id.spec_id()),
                _ => None,
            }),
    {
        match self {
            GraphOp::CreateNode { id } => Some(id.id()),
            GraphOp::CreateEdge { id, .. } => Some(id.id()),
            _ => None,
        }
    }

    /// Check operation identity and references: creations are named by their own
    /// operation, identities are nonnegative, and restore tags are distinct.
    pub fn validate(&self, op_id: ID) -> (r: Result<(), GraphError>)
        ensures
            r is Ok <==> op_valid(*self, op_id),
            r matches Err(e) ==> e == GraphError::InvalidOperation,
    {
        if op_id.counter < 0 {
            return Err(GraphError::InvalidOperation);
        }
        let ok = match self {
            GraphOp::CreateNode { id } => id.id() == op_id,
            GraphOp::CreateEdge { id, source, target, .. } => id.id() == op_id && source.counter >= 0
                && target.counter >= 0,
            GraphOp::DeleteNode { id } => id.counter >= 0,
            GraphOp::DeleteEdge { id } => id.counter >= 0,
            GraphOp::RestoreNode { id, deletes } => id.counter >= 0 && all_nonnegative(deletes)
                && ids_unique(deletes),
            GraphOp::RestoreEdge { id, deletes } => id.counter >= 0 && all_nonnegative(deletes)
                && ids_unique(deletes),
            GraphOp::SetEdgeOrder { id, .. } => id.counter >= 0,
        };
        if ok {
            Ok(())
        } else {
            Err(GraphError::InvalidOperation)
        }
    }

    /// `(referenced creation or delete, expected deleted object's creation, is edge)`.
    pub fn references(&self) -> (r: Vec<(ID, Option<ID>, bool)>)
        ensures
            r@ == op_references(*self),
    {
        let mut r: Vec<(ID, Option<ID>, bool)> = Vec::new();
        match self {
            GraphOp::CreateNode { .. } => {},
            GraphOp::CreateEdge { source, target, .. } => {
                r.push((source.id(), None, false));
                r.push((target.id(), None, false));
            },
            GraphOp::DeleteNode { id } => {
                r.push((id.id(), None, false));
            },
            GraphOp::DeleteEdge { id } => {
                r.push((id.id(), None, true));
            },
            GraphOp::SetEdgeOrder { id, .. } => {
                r.push((id.id(), None, true));
            },
            GraphOp::RestoreNode { id, deletes } => {
                r.push((id.id(), None, false));
                push_delete_refs(&mut r, deletes, id.id(), false);
            },
            GraphOp::RestoreEdge { id, deletes } => {
                r.push((id.id(), None, true));
                push_delete_refs(&mut r, deletes, id.id(), true);
            },
        }
        proof {
            assert(r@ =~= op_references(*self));
        }
        r
    }
}

pub open spec fn delete_refs(deletes: Seq<ID>, object: ID, is_edge: bool) -> Seq<(ID, Option<ID>, bool)> {
    Seq::new(deletes.len(), |i: int| (deletes[i], Some(object), is_edge))
}

pub open spec fn op_references(op: GraphOp) -> Seq<(ID, Option<ID>, bool)> {
    match op {
        GraphOp::CreateNode { .. } => seq![],
        GraphOp::CreateEdge { source, target, .. } => seq![
            (source.spec_id(), None, false),
            (target.spec_id(), None, false),
        ],
        GraphOp::DeleteNode { id } => seq![(id.spec_id(), None, false)],
        GraphOp::DeleteEdge { id } => seq![(id.spec_id(), None, true)],
        GraphOp::SetEdgeOrder { id, .. } => seq![(id.spec_id(), None, true)],
        GraphOp::RestoreNode { id, deletes } => seq![(id.spec_id(), None, false)] + delete_refs(
            deletes@,
            id.spec_id(),
            false,
        ),
        GraphOp::RestoreEdge { id, deletes } => seq![(id.spec_id(), None, true)] + delete_refs(
            deletes@,
            id.spec_id(),
            true,
        ),
    }
}

fn push_delete_refs(r: &mut Vec<(ID, Option<ID>, bool)>, deletes: &Vec<ID>, object: ID, is_edge: bool)
    ensures
        final(r)@ == old(r)@ + delete_refs(deletes@, object, is_edge),
{
    let ghost start = r@;
    let mut i: usize = 0;
    while i < deletes.len()
        invariant
            i <= deletes@.len(),
            r@ == start + delete_refs(deletes@.subrange(0, i as int), object, is_edge),
        decreases deletes@.len() - i,
    {
        r.push((deletes[i], Some(object), is_edge));
        i += 1;
        assert(r@ =~= start + delete_refs(deletes@.subrange(0, i as int), object, is_edge));
    }
    assert(deletes@.subrange(0, deletes@.len() as int) =~= deletes@);
}

/// `a` is a copy of `b`: same kind, identities and payload.
pub open spec fn same_op(a: GraphOp, b: GraphOp) -> bool {
    match (a, b) {
        (GraphOp::CreateNode { id: x }, GraphOp::CreateNode { id: y }) => x == y,
        (
            GraphOp::CreateEdge { id: x, source: s, target: t, position: p },
            GraphOp::CreateEdge { id: y, source: s2, target: t2, position: p2 },
        ) => x == y && s == s2 && t == t2 && p@ == p2@,
        (GraphOp::DeleteNode { id: x }, GraphOp::DeleteNode { id: y }) => x == y,
        (GraphOp::DeleteEdge { id: x }, GraphOp::DeleteEdge { id: y }) => x == y,
        (GraphOp::RestoreNode { id: x, deletes: d }, GraphOp::RestoreNode { id: y, deletes: d2 }) => x == y
            && d@ == d2@,
        (GraphOp::RestoreEdge { id: x, deletes: d }, GraphOp::RestoreEdge { id: y, deletes: d2 }) => x == y
            && d@ == d2@,
        (GraphOp::SetEdgeOrder { id: x, position: p }, GraphOp::SetEdgeOrder { id: y, position: p2 }) => x == y
            && p@ == p2@,
        _ => false,
    }
}

impl GraphOp {
    /// A copy of this operation.
    pub fn duplicate(&self) -> (r: GraphOp)
        ensures
            same_op(r, *self),
    {
        match self {
            GraphOp::CreateNode { id } => GraphOp::CreateNode { id: *id },
            GraphOp::CreateEdge { id, source, target, position } => GraphOp::CreateEdge {
                id: *id,
                source: *source,
                target: *target,
                position: position.duplicate(),
            },
            GraphOp::DeleteNode { id } => GraphOp::DeleteNode { id: *id },
            GraphOp::DeleteEdge { id } => GraphOp::DeleteEdge { id: *id },
            GraphOp::RestoreNode { id, deletes } => GraphOp::RestoreNode {
                id: *id,
                deletes: crate::life::copy_ids(deletes),
            },
            GraphOp::RestoreEdge { id, deletes } => GraphOp::RestoreEdge {
                id: *id,
                deletes: crate::life::copy_ids(deletes),
            },
            GraphOp::SetEdgeOrder { id, position } => GraphOp::SetEdgeOrder { id: *id, position: position.duplicate() },
        }
    }
}

/// One replayable graph change. Identity is preserved through inverse diffs.
#[derive(Clone, Debug, PartialEq, Eq)]
pub struct GraphChange {
    pub id: ID,
    pub lamport: u32,
    pub op: GraphOp,
    /// `false` retracts the operation (history retreat or undo).
    pub forward: bool,
}

/// A node record.
#[derive(Clone, Debug, PartialEq, Eq)]
pub struct GraphNode {
    pub id: GraphNodeId,
    pub alive: bool,
    pub visible: bool,
    pub delete_tags: Vec<ID>,
}

/// An edge record.
#[derive(Clone, Debug, PartialEq, Eq)]
pub struct GraphEdge {
    pub id: GraphEdgeId,
    pub source: GraphNodeId,
    pub target: GraphNodeId,
    pub position: GraphPosition,
    pub last_order: IdFull,
    pub alive: bool,
    pub visible: bool,
    pub delete_tags: Vec<ID>,
}

/// The winning order register of an edge.
#[derive(Clone, Debug, PartialEq, Eq)]
pub struct GraphOrderValue {
    pub position: GraphPosition,
    pub last_order: IdFull,
}

/// Net change of one edge's winning order register.
#[derive(Clone, Debug, PartialEq, Eq)]
pub struct GraphOrderDelta {
    pub source: GraphNodeId,
    pub before: Option<GraphOrderValue>,
    pub after: Option<GraphOrderValue>,
}

/// Changed records include incident edges whose visibility changed with an endpoint.
/// `None` means that the object's creation is absent from the selected history.
pub struct GraphDiff {
    pub ops: Vec<GraphChange>,
    pub nodes: IdMap<Option<GraphNode>>,
    pub edges: IdMap<Option<GraphEdge>>,
    pub orders: IdMap<GraphOrderDelta>,
}

impl GraphDiff {
    pub open spec fn wf(&self) -> bool {
        self.nodes.wf() && self.edges.wf() && self.orders.wf()
    }

    pub fn new() -> (r: GraphDiff)
        ensures
            r.wf(),
            r.ops@.len() == 0,
            r.nodes@ == Map::<ID, Option<GraphNode>>::empty(),
            r.edges@ == Map::<ID, Option<GraphEdge>>::empty(),
            r.orders@ == Map::<ID, GraphOrderDelta>::empty(),
    {
        GraphDiff { ops: Vec::new(), nodes: IdMap::new(), edges: IdMap::new(), orders: IdMap::new() }
    }

    /// Check a diff received from outside: every operation is well formed for its
    /// identity, and every node or edge record sits under its own identity.
    pub fn check_received(&self) -> (r: Result<(), GraphError>)
        requires
            self.wf(),
        ensures
            r is Ok <==> (forall|i: int| 0 <= i < self.ops@.len() ==> op_valid((#[trigger] self.ops@[i]).op, self.ops@[i].id))
                && (forall|k: ID| #[trigger] self.nodes@.contains_key(k) ==> (self.nodes@[k] matches Some(n) ==> n.id.spec_id() == k))
                && (forall|k: ID| #[trigger] self.edges@.contains_key(k) ==> (self.edges@[k] matches Some(e) ==> e.id.spec_id() == k)),
            r matches Err(e) ==> e == GraphError::InvalidOperation,
    {
        let mut i: usize = 0;
        while i < self.ops.len()
            invariant
                i <= self.ops@.len(),
                forall|q: int| 0 <= q < i ==> op_valid((#[trigger] self.ops@[q]).op, self.ops@[q].id),
            decreases self.ops@.len() - i,
        {
            if self.ops[i].op.validate(self.ops[i].id).is_err() {
                return Err(GraphError::InvalidOperation);
            }
            i += 1;
        }
        proof {
            self.nodes.lemma_view();
            self.edges.lemma_view();
        }
        let mut k: usize = 0;
        while k < self.nodes.len()
            invariant
                self.wf(),
                forall|q: int| 0 <= q < self.ops@.len() ==> op_valid((#[trigger] self.ops@[q]).op, self.ops@[q].id),
                k <= self.nodes.entries@.len(),
                forall|q: int| 0 <= q < k ==> ((#[trigger] self.nodes.entries@[q]).1 matches Some(n) ==> n.id.spec_id() == self.nodes.entries@[q].0),
            decreases self.nodes.entries@.len() - k,
        {
            proof { self.nodes.lemma_at(k as int); }
            let key = self.nodes.key_at(k);
            match self.nodes.value_at(k) {
                Some(n) => {
                    if n.id.id() != key {
                        return Err(GraphError::InvalidOperation);
                    }
                },
                None => {},
            }
            k += 1;
        }
        let mut k: usize = 0;
        while k < self.edges.len()
            invariant
                self.wf(),
                forall|q: int| 0 <= q < self.ops@.len() ==> op_valid((#[trigger] self.ops@[q]).op, self.ops@[q].id),
                forall|q: int| 0 <= q < self.nodes.entries@.len() ==> ((#[trigger] self.nodes.entries@[q]).1 matches Some(n) ==> n.id.spec_id() == self.nodes.entries@[q].0),
                k <= self.edges.entries@.len(),
                forall|q: int| 0 <= q < k ==> ((#[trigger] self.edges.entries@[q]).1 matches Some(e) ==> e.id.spec_id() == self.edges.entries@[q].0),
            decreases self.edges.entries@.len() - k,
        {
            proof { self.edges.lemma_at(k as int); }
            let key = self.edges.key_at(k);
            match self.edges.value_at(k) {
                Some(e) => {
                    if e.id.id() != key {
                        return Err(GraphError::InvalidOperation);
                    }
                },
                None => {},
            }
            k += 1;
        }
        proof {
            assert forall|x: ID| #[trigger] self.nodes@.contains_key(x) implies (self.nodes@[x] matches Some(n) ==> n.id.spec_id() == x) by {
                let q = choose|q: int| 0 <= q < self.nodes.entries@.len() && self.nodes.entries@[q].0 == x;
                assert(self.nodes.entries@[q].1 matches Some(n) ==> n.id.spec_id() == self.nodes.entries@[q].0);
            }
            assert forall|x: ID| #[trigger] self.edges@.contains_key(x) implies (self.edges@[x] matches Some(e) ==> e.id.spec_id() == x) by {
                let q = choose|q: int| 0 <= q < self.edges.entries@.len() && self.edges.entries@[q].0 == x;
                assert(self.edges.entries@[q].1 matches Some(e) ==> e.id.spec_id() == self.edges.entries@[q].0);
            }
        }
        Ok(())
    }

    pub fn is_empty(&self) -> (r: bool)
        requires
            self.wf(),
        ensures
            r == (self.ops@.len() == 0 && self.nodes@.dom().len() == 0 && self.edges@.dom().len() == 0
                && self.orders@.dom().len() == 0),
    {
        self.ops.len() == 0 && self.nodes.is_empty() && self.edges.is_empty() && self.orders.is_empty()
    }

    /// Sequential composition: `self` happens first, then `other`.
    /// Records of `other` replace those of `self`; an edge order delta keeps the
    /// earlier `before` and takes the later `after`.
    pub fn compose(self, other: GraphDiff) -> (r: GraphDiff)
        requires
            self.wf(),
            other.wf(),
        ensures
            r.wf(),
            r.ops@ == self.ops@ + other.ops@,
            r.nodes@ == self.nodes@.union_prefer_right(other.nodes@),
            r.edges@ == self.edges@.union_prefer_right(other.edges@),
            r.orders@.dom() == self.orders@.dom() + other.orders@.dom(),
            forall|k: ID| #[trigger] r.orders@.contains_key(k) ==> r.orders@[k] == (if !other.orders@.contains_key(k) {
                self.orders@[k]
            } else if self.orders@.contains_key(k) {
                GraphOrderDelta { after: other.orders@[k].after, ..self.orders@[k] }
            } else {
                other.orders@[k]
            }),
    {
        let GraphDiff { ops: mut ops, nodes: mut nodes, edges: mut edges, orders: mut orders } = self;
        let GraphDiff { ops: mut other_ops, nodes: other_nodes, edges: other_edges, orders: other_orders } = other;
        ops.append(&mut other_ops);
        nodes.extend(other_nodes);
        edges.extend(other_edges);
        merge_order_deltas(&mut orders, other_orders);
        GraphDiff { ops, nodes, edges, orders }
    }
}

fn merge_order_deltas(orders: &mut IdMap<GraphOrderDelta>, other: IdMap<GraphOrderDelta>)
    requires
        old(orders).wf(),
        other.wf(),
    ensures
        final(orders).wf(),
        final(orders)@.dom() == old(orders)@.dom() + other@.dom(),
        forall|k: ID| #[trigger] final(orders)@.contains_key(k) ==> final(orders)@[k] == (if !other@.contains_key(k) {
            old(orders)@[k]
        } else if old(orders)@.contains_key(k) {
            GraphOrderDelta { after: other@[k].after, ..old(orders)@[k] }
        } else {
            other@[k]
        }),
{
    let ghost orig = other;
    let ghost start = orders@;
    proof { orig.lemma_view(); }
    let mut rest = other.entries;
    while rest.len() > 0
        invariant
            orders.wf(),
            orig.wf(),
            rest@ == orig.entries@.subrange(0, rest@.len() as int),
            rest@.len() <= orig.entries@.len(),
            forall|k: ID| #[trigger] orders@.contains_key(k) <==> (start.contains_key(k) || exists|j: int|
                rest@.len() <= j < orig.entries@.len() && orig.entries@[j].0 == k),
            forall|j: int| #![trigger orig.entries@[j]] rest@.len() <= j < orig.entries@.len() ==> orders@[orig.entries@[j].0]
                == (if start.contains_key(orig.entries@[j].0) {
                    GraphOrderDelta { after: orig.entries@[j].1.after, ..start[orig.entries@[j].0] }
                } else {
                    orig.entries@[j].1
                }),
            forall|k: ID| #[trigger] orders@.contains_key(k) && !(exists|j: int|
                rest@.len() <= j < orig.entries@.len() && orig.entries@[j].0 == k) ==> orders@[k] == start[k],
        decreases rest@.len(),
    {
        let ghost n = rest@.len();
        let (k, d) = rest.pop().unwrap();
        proof {
            assert(orig.entries@[n - 1] == (k, d));
            assert(!(exists|j: int| n <= j < orig.entries@.len() && orig.entries@[j].0 == k)) by {
                if exists|j: int| n <= j < orig.entries@.len() && orig.entries@[j].0 == k {
                    let j = choose|j: int| n <= j < orig.entries@.len() && orig.entries@[j].0 == k;
                    orig.lemma_at(j);
                    orig.lemma_at(n - 1);
                }
            }
        }
        let merged = match orders.remove(k) {
            Some(prev) => GraphOrderDelta { source: prev.source, before: prev.before, after: d.after },
            None => d,
        };
        orders.insert(k, merged);
        proof {
            assert(rest@ =~= orig.entries@.subrange(0, rest@.len() as int));
            assert forall|j: int| #![trigger orig.entries@[j]] rest@.len() <= j < orig.entries@.len() implies orders@[orig.entries@[j].0]
                == (if start.contains_key(orig.entries@[j].0) {
                    GraphOrderDelta { after: orig.entries@[j].1.after, ..start[orig.entries@[j].0] }
                } else {
                    orig.entries@[j].1
                }) by {
                if j != n - 1 {
                    if orig.entries@[j].0 == k {
                        orig.lemma_at(j);
                        orig.lemma_at(n - 1);
                    }
                }
            }
            assert forall|kk: ID| #[trigger] orders@.contains_key(kk) <==> (start.contains_key(kk) || exists|j: int|
                rest@.len() <= j < orig.entries@.len() && orig.entries@[j].0 == kk) by {
                if kk == k {
                    assert(orig.entries@[n - 1].0 == kk);
                }
            }
        }
    }
    proof {
        assert forall|kk: ID| #[trigger] orders@.contains_key(kk) == (start.dom() + orig@.dom()).contains(kk) by {
            if orig@.contains_key(kk) {
                let j = choose|j: int| 0 <= j < orig.entries@.len() && orig.entries@[j].0 == kk;
            }
            if exists|j: int| 0 <= j < orig.entries@.len() && orig.entries@[j].0 == kk {
                let j = choose|j: int| 0 <= j < orig.entries@.len() && orig.entries@[j].0 == kk;
                orig.lemma_at(j);
            }
        }
        assert(orders@.dom() =~= start.dom() + orig@.dom());
        assert forall|kk: ID| #[trigger] orders@.contains_key(kk) implies orders@[kk] == (if !orig@.contains_key(kk) {
            start[kk]
        } else if start.contains_key(kk) {
            GraphOrderDelta { after: orig@[kk].after, ..start[kk] }
        } else {
            orig@[kk]
        }) by {
            if exists|j: int| 0 <= j < orig.entries@.len() && orig.entries@[j].0 == kk {
                let j = choose|j: int| 0 <= j < orig.entries@.len() && orig.entries@[j].0 == kk;
                orig.lemma_at(j);
                assert(orders@[orig.entries@[j].0] == (if start.contains_key(orig.entries@[j].0) {
                    GraphOrderDelta { after: orig.entries@[j].1.after, ..start[orig.entries@[j].0] }
                } else {
                    orig.entries@[j].1
                }));
            } else {
                if orig@.contains_key(kk) {
                    let j = choose|j: int| 0 <= j < orig.entries@.len() && orig.entries@[j].0 == kk;
                }
            }
        }
    }
}

} // verus!
